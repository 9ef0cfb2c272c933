//! Little-endian integers, byte splicing and the CRC-32 used by every on-disk
//! structure.
use vstd::prelude::*;

verus! {

/// `s` with the bytes from `off` on overwritten by `b`. Bytes of `b` that would
/// fall past the end of `s` are dropped.
pub open spec fn splice(s: Seq<u8>, off: int, b: Seq<u8>) -> Seq<u8> {
    Seq::new(s.len(), |i: int| if off <= i < off + b.len() { b[i - off] } else { s[i] })
}

/// `n` zero bytes.
pub open spec fn zeros(n: int) -> Seq<u8> {
    Seq::new(n as nat, |i: int| 0u8)
}

/// The little-endian 16-bit integer at `off`.
pub open spec fn le16(s: Seq<u8>, off: int) -> u16 {
    (s[off] + 256 * s[off + 1]) as u16
}

/// The little-endian 32-bit integer at `off`.
pub open spec fn le32(s: Seq<u8>, off: int) -> u32 {
    (le16(s, off) + 0x1_0000 * le16(s, off + 2)) as u32
}

/// The little-endian 64-bit integer at `off`.
pub open spec fn le64(s: Seq<u8>, off: int) -> u64 {
    (le32(s, off) + 0x1_0000_0000 * le32(s, off + 4)) as u64
}

/// The two bytes of `v`, least significant first.
pub open spec fn bytes16(v: u16) -> Seq<u8> {
    seq![(v % 256) as u8, (v / 256) as u8]
}

/// The four bytes of `v`, least significant first.
pub open spec fn bytes32(v: u32) -> Seq<u8> {
    bytes16((v % 0x1_0000) as u16) + bytes16((v / 0x1_0000) as u16)
}

/// The eight bytes of `v`, least significant first.
pub open spec fn bytes64(v: u64) -> Seq<u8> {
    bytes32((v % 0x1_0000_0000) as u32) + bytes32((v / 0x1_0000_0000) as u32)
}

/// Reading a 16-bit integer back from the bytes that encode it.
pub proof fn le16_round_trip(s: Seq<u8>, off: int, v: u16)
    requires
        0 <= off,
        off + 2 <= s.len(),
        s.subrange(off, off + 2) == bytes16(v),
    ensures
        le16(s, off) == v,
{
    let t = s.subrange(off, off + 2);
    assert(t[0] == s[off] && t[1] == s[off + 1]);
}

/// Reading a 32-bit integer back from the bytes that encode it.
pub proof fn le32_round_trip(s: Seq<u8>, off: int, v: u32)
    requires
        0 <= off,
        off + 4 <= s.len(),
        s.subrange(off, off + 4) == bytes32(v),
    ensures
        le32(s, off) == v,
{
    let t = s.subrange(off, off + 4);
    let lo = bytes16((v % 0x1_0000) as u16);
    let hi = bytes16((v / 0x1_0000) as u16);
    assert(t == lo + hi);
    assert(s.subrange(off, off + 2) =~= lo) by {
        assert forall|i: int| 0 <= i < 2 implies s.subrange(off, off + 2)[i] == lo[i] by {
            assert(t[i] == (lo + hi)[i]);
        }
    }
    assert(s.subrange(off + 2, off + 4) =~= hi) by {
        assert forall|i: int| 0 <= i < 2 implies s.subrange(off + 2, off + 4)[i] == hi[i] by {
            assert(t[i + 2] == (lo + hi)[i + 2]);
        }
    }
    le16_round_trip(s, off, (v % 0x1_0000) as u16);
    le16_round_trip(s, off + 2, (v / 0x1_0000) as u16);
}

/// Reading a 64-bit integer back from the bytes that encode it.
pub proof fn le64_round_trip(s: Seq<u8>, off: int, v: u64)
    requires
        0 <= off,
        off + 8 <= s.len(),
        s.subrange(off, off + 8) == bytes64(v),
    ensures
        le64(s, off) == v,
{
    let t = s.subrange(off, off + 8);
    let lo = bytes32((v % 0x1_0000_0000) as u32);
    let hi = bytes32((v / 0x1_0000_0000) as u32);
    assert(t == lo + hi);
    assert(s.subrange(off, off + 4) =~= lo) by {
        assert forall|i: int| 0 <= i < 4 implies s.subrange(off, off + 4)[i] == lo[i] by {
            assert(t[i] == (lo + hi)[i]);
        }
    }
    assert(s.subrange(off + 4, off + 8) =~= hi) by {
        assert forall|i: int| 0 <= i < 4 implies s.subrange(off + 4, off + 8)[i] == hi[i] by {
            assert(t[i + 4] == (lo + hi)[i + 4]);
        }
    }
    le32_round_trip(s, off, (v % 0x1_0000_0000) as u32);
    le32_round_trip(s, off + 4, (v / 0x1_0000_0000) as u32);
}

/// A 16-bit field of a record is read back from wherever the record lies.
pub proof fn field16(s: Seq<u8>, off: int, rec: Seq<u8>, k: int, v: u16)
    requires
        0 <= off,
        off + rec.len() <= s.len(),
        s.subrange(off, off + rec.len()) == rec,
        0 <= k,
        k + 2 <= rec.len(),
        rec.subrange(k, k + 2) == bytes16(v),
    ensures
        le16(s, off + k) == v,
{
    assert(s.subrange(off + k, off + k + 2) =~= s.subrange(off, off + rec.len()).subrange(k, k + 2));
    le16_round_trip(s, off + k, v);
}

/// A 32-bit field of a record is read back from wherever the record lies.
pub proof fn field32(s: Seq<u8>, off: int, rec: Seq<u8>, k: int, v: u32)
    requires
        0 <= off,
        off + rec.len() <= s.len(),
        s.subrange(off, off + rec.len()) == rec,
        0 <= k,
        k + 4 <= rec.len(),
        rec.subrange(k, k + 4) == bytes32(v),
    ensures
        le32(s, off + k) == v,
{
    assert(s.subrange(off + k, off + k + 4) =~= s.subrange(off, off + rec.len()).subrange(k, k + 4));
    le32_round_trip(s, off + k, v);
}

/// A 64-bit field of a record is read back from wherever the record lies.
pub proof fn field64(s: Seq<u8>, off: int, rec: Seq<u8>, k: int, v: u64)
    requires
        0 <= off,
        off + rec.len() <= s.len(),
        s.subrange(off, off + rec.len()) == rec,
        0 <= k,
        k + 8 <= rec.len(),
        rec.subrange(k, k + 8) == bytes64(v),
    ensures
        le64(s, off + k) == v,
{
    assert(s.subrange(off + k, off + k + 8) =~= s.subrange(off, off + rec.len()).subrange(k, k + 8));
    le64_round_trip(s, off + k, v);
}

/// The integers depend only on the bytes they are read from.
pub proof fn lemma_le_same(s: Seq<u8>, o1: int, t: Seq<u8>, o2: int, n: int)
    requires
        0 <= o1,
        0 <= o2,
        o1 + n <= s.len(),
        o2 + n <= t.len(),
        s.subrange(o1, o1 + n) == t.subrange(o2, o2 + n),
    ensures
        n >= 2 ==> le16(s, o1) == le16(t, o2),
        n >= 4 ==> le32(s, o1) == le32(t, o2),
        n >= 8 ==> le64(s, o1) == le64(t, o2),
{
    let a = s.subrange(o1, o1 + n);
    let b = t.subrange(o2, o2 + n);
    assert forall|i: int| 0 <= i < n implies #[trigger] a[i] == s[o1 + i] && b[i] == t[o2 + i] by {}
    if n >= 2 {
        assert(a[0] == b[0] && a[1] == b[1]);
    }
    if n >= 4 {
        assert(a[2] == b[2] && a[3] == b[3]);
    }
    if n >= 8 {
        assert(a[4] == b[4] && a[5] == b[5] && a[6] == b[6] && a[7] == b[7]);
    }
}

/// What was spliced in is what is found there.
pub proof fn splice_reads_back(s: Seq<u8>, off: int, b: Seq<u8>)
    requires
        0 <= off,
        off + b.len() <= s.len(),
    ensures
        splice(s, off, b).subrange(off, off + b.len()) == b,
        splice(s, off, b).len() == s.len(),
{
    assert(splice(s, off, b).subrange(off, off + b.len()) =~= b);
}

/// Reads the little-endian 16-bit integer at `off`.
pub fn get_u16(s: &[u8], off: usize) -> (v: u16)
    requires
        off + 2 <= s.len(),
    ensures
        v == le16(s@, off as int),
{
    s[off] as u16 + 256 * (s[off + 1] as u16)
}

/// Reads the little-endian 32-bit integer at `off`.
pub fn get_u32(s: &[u8], off: usize) -> (v: u32)
    requires
        off + 4 <= s.len(),
    ensures
        v == le32(s@, off as int),
{
    get_u16(s, off) as u32 + 0x1_0000 * (get_u16(s, off + 2) as u32)
}

/// Reads the little-endian 64-bit integer at `off`.
pub fn get_u64(s: &[u8], off: usize) -> (v: u64)
    requires
        off + 8 <= s.len(),
    ensures
        v == le64(s@, off as int),
{
    get_u32(s, off) as u64 + 0x1_0000_0000 * (get_u32(s, off + 4) as u64)
}

/// Appends the two bytes of `v`.
pub fn push_u16(out: &mut Vec<u8>, v: u16)
    ensures
        final(out)@ == old(out)@ + bytes16(v),
{
    out.push((v % 256) as u8);
    out.push((v / 256) as u8);
    assert(out@ =~= old(out)@ + bytes16(v));
}

/// Appends the four bytes of `v`.
pub fn push_u32(out: &mut Vec<u8>, v: u32)
    ensures
        final(out)@ == old(out)@ + bytes32(v),
{
    push_u16(out, (v % 0x1_0000) as u16);
    push_u16(out, (v / 0x1_0000) as u16);
    assert(out@ =~= old(out)@ + bytes32(v));
}

/// Appends the eight bytes of `v`.
pub fn push_u64(out: &mut Vec<u8>, v: u64)
    ensures
        final(out)@ == old(out)@ + bytes64(v),
{
    push_u32(out, (v % 0x1_0000_0000) as u32);
    push_u32(out, (v / 0x1_0000_0000) as u32);
    assert(out@ =~= old(out)@ + bytes64(v));
}

/// Appends every byte of `b`.
pub fn push_slice(out: &mut Vec<u8>, b: &[u8])
    ensures
        final(out)@ == old(out)@ + b@,
{
    out.extend_from_slice(b);
    assert(out@ =~= old(out)@ + b@);
}

/// Overwrites the bytes of `dst` from `off` on with `src`.
pub fn write_at(dst: &mut Vec<u8>, off: usize, src: &[u8])
    requires
        off + src.len() <= old(dst).len(),
    ensures
        final(dst)@ == splice(old(dst)@, off as int, src@),
{
    let mut i: usize = 0;
    let ghost d0 = dst@;
    while i < src.len()
        invariant
            i <= src@.len(),
            off + src@.len() <= dst.len(),
            dst@.len() == d0.len(),
            forall|k: int|
                0 <= k < d0.len() ==> dst@[k] == (if off <= k < off + i {
                    src@[k - off]
                } else {
                    d0[k]
                }),
        decreases src@.len() - i,
    {
        dst[off + i] = src[i];
        i = i + 1;
    }
    assert(dst@ =~= splice(d0, off as int, src@));
}

/// Overwrites the two bytes at `off` with `v`.
pub fn put_u16(dst: &mut Vec<u8>, off: usize, v: u16)
    requires
        off + 2 <= old(dst).len(),
    ensures
        final(dst)@ == splice(old(dst)@, off as int, bytes16(v)),
{
    dst[off] = (v % 256) as u8;
    dst[off + 1] = (v / 256) as u8;
    assert(dst@ =~= splice(old(dst)@, off as int, bytes16(v)));
}

/// Overwrites the four bytes at `off` with `v`.
pub fn put_u32(dst: &mut Vec<u8>, off: usize, v: u32)
    requires
        off + 4 <= old(dst).len(),
    ensures
        final(dst)@ == splice(old(dst)@, off as int, bytes32(v)),
{
    put_u16(dst, off, (v % 0x1_0000) as u16);
    put_u16(dst, off + 2, (v / 0x1_0000) as u16);
    assert(dst@ =~= splice(old(dst)@, off as int, bytes32(v)));
}

/// Overwrites the eight bytes at `off` with `v`.
pub fn put_u64(dst: &mut Vec<u8>, off: usize, v: u64)
    requires
        off + 8 <= old(dst).len(),
    ensures
        final(dst)@ == splice(old(dst)@, off as int, bytes64(v)),
{
    put_u32(dst, off, (v % 0x1_0000_0000) as u32);
    put_u32(dst, off + 4, (v / 0x1_0000_0000) as u32);
    assert(dst@ =~= splice(old(dst)@, off as int, bytes64(v)));
}

/// A copy of `s[from..to]`.
pub fn sub_vec(s: &[u8], from: usize, to: usize) -> (out: Vec<u8>)
    requires
        from <= to <= s.len(),
    ensures
        out@ == s@.subrange(from as int, to as int),
{
    let mut out: Vec<u8> = Vec::new();
    let mut i: usize = from;
    while i < to
        invariant
            from <= i <= to <= s.len(),
            out@ == s@.subrange(from as int, i as int),
        decreases to - i,
    {
        out.push(s[i]);
        i = i + 1;
        assert(out@ =~= s@.subrange(from as int, i as int));
    }
    out
}

/// A copy of `s`.
pub fn copy_vec(s: &[u8]) -> (out: Vec<u8>)
    ensures
        out@ == s@,
{
    let out = sub_vec(s, 0, s.len());
    assert(s@.subrange(0, s@.len() as int) =~= s@);
    out
}

/// A buffer of `n` zero bytes.
pub fn zero_vec(n: usize) -> (out: Vec<u8>)
    ensures
        out@ == zeros(n as int),
{
    let out: Vec<u8> = vec![0u8; n];
    assert(out@ =~= zeros(n as int));
    out
}

/// Whether two byte strings are equal.
pub fn bytes_eq(a: &[u8], b: &[u8]) -> (r: bool)
    ensures
        r == (a@ == b@),
{
    if a.len() != b.len() {
        return false;
    }
    let mut i: usize = 0;
    while i < a.len()
        invariant
            i <= a@.len(),
            a@.len() == b@.len(),
            forall|k: int| 0 <= k < i ==> a@[k] == b@[k],
        decreases a@.len() - i,
    {
        if a[i] != b[i] {
            return false;
        }
        i = i + 1;
    }
    assert(a@ =~= b@);
    true
}

/// The CRC-32 register after shifting out `n` more bits.
pub open spec fn crc_bits(crc: u32, n: nat) -> u32
    decreases n,
{
    if n == 0 {
        crc
    } else {
        crc_bits(
            if crc & 1 == 1 {
                (crc >> 1u32) ^ 0xEDB8_8320
            } else {
                crc >> 1u32
            },
            (n - 1) as nat,
        )
    }
}

/// The CRC-32 register after the first `n` bytes of `s`.
pub open spec fn crc_state(s: Seq<u8>, n: int) -> u32
    decreases n,
{
    if n <= 0 {
        0xFFFF_FFFF
    } else {
        crc_bits(crc_state(s, n - 1) ^ (s[n - 1] as u32), 8)
    }
}

/// The CRC-32 (reflected polynomial `0xEDB88320`) of `s`.
pub open spec fn crc32(s: Seq<u8>) -> u32 {
    crc_state(s, s.len() as int) ^ 0xFFFF_FFFF
}

fn crc_byte(crc: u32) -> (r: u32)
    ensures
        r == crc_bits(crc, 8),
{
    let mut c: u32 = crc;
    let mut left: u32 = 8;
    while left > 0
        invariant
            left <= 8,
            crc_bits(crc, 8) == crc_bits(c, left as nat),
        decreases left,
    {
        if c & 1 == 1 {
            c = (c >> 1u32) ^ 0xEDB8_8320;
        } else {
            c = c >> 1u32;
        }
        left = left - 1;
    }
    c
}

/// Computes the CRC-32 of `s`.
pub fn checksum(s: &[u8]) -> (r: u32)
    ensures
        r == crc32(s@),
{
    let mut crc: u32 = 0xFFFF_FFFF;
    let mut i: usize = 0;
    while i < s.len()
        invariant
            i <= s.len(),
            crc == crc_state(s@, i as int),
        decreases s@.len() - i,
    {
        crc = crc_byte(crc ^ (s[i] as u32));
        i = i + 1;
    }
    crc ^ 0xFFFF_FFFF
}

} // verus!
