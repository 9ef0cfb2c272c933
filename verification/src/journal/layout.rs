//! The journal's on-disk structures.
//!
//! Block 0 of the journal region holds the journal superblock. The others form a
//! ring of transactions, each a descriptor block, the journalled blocks, a revoke
//! block if anything was revoked, and a commit block.
//!
//! The order and width of the fields, the magic numbers and the checksum are what
//! this module says they are: it defines the format, and nothing else in the crate
//! or in its dependencies does. A journal that another program wrote can be
//! replayed only if that program follows the same layout, which cannot be shown
//! from here.
use vstd::prelude::*;
use crate::bytes;
use crate::bytes::{checksum, get_u32, get_u64, push_slice, push_u32, push_u64, zero_vec};

verus! {

/// Identifies a journal superblock.
pub const JOURNAL_MAGIC: u32 = 0x4A45_4653;
/// Identifies a descriptor, revoke or commit block.
pub const JOURNAL_BLOCK_MAGIC: u32 = 0x4A42_4C4B;
/// Kind of a descriptor block.
pub const KIND_DESCRIPTOR: u32 = 1;
/// Kind of a revoke block.
pub const KIND_REVOKE: u32 = 2;
/// Kind of a commit block.
pub const KIND_COMMIT: u32 = 3;
/// Descriptor flag: the block began with the journal block magic, which is stored as
/// zeros instead.
pub const DESC_FLAG_ESCAPED: u64 = 1;
/// Records a descriptor or revoke block can hold.
pub const MAX_RECORDS: usize = 254;

// ---- Journal superblock -------------------------------------------------------------

/// The journal superblock.
#[derive(Clone, Copy, PartialEq, Eq, Structural)]
pub struct JournalSuperblock {
    pub magic: u32,
    pub version: u32,
    pub block_count: u32,
    pub block_size: u32,
    pub tail_seq: u64,
    pub head_seq: u64,
    pub tail_block: u64,
    pub head_block: u64,
    pub crc32: u32,
}

/// The journal superblock at the start of `s`.
pub open spec fn dec_jsb(s: Seq<u8>) -> JournalSuperblock {
    JournalSuperblock {
        magic: bytes::le32(s, 0),
        version: bytes::le32(s, 4),
        block_count: bytes::le32(s, 8),
        block_size: bytes::le32(s, 12),
        tail_seq: bytes::le64(s, 16),
        head_seq: bytes::le64(s, 24),
        tail_block: bytes::le64(s, 32),
        head_block: bytes::le64(s, 40),
        crc32: bytes::le32(s, 48),
    }
}

/// The 52 bytes of a journal superblock.
pub open spec fn enc_jsb(j: JournalSuperblock) -> Seq<u8> {
    bytes::bytes32(j.magic) + bytes::bytes32(j.version) + bytes::bytes32(j.block_count)
        + bytes::bytes32(j.block_size) + bytes::bytes64(j.tail_seq) + bytes::bytes64(j.head_seq)
        + bytes::bytes64(j.tail_block) + bytes::bytes64(j.head_block) + bytes::bytes32(j.crc32)
}

/// The checksum a journal superblock should carry.
pub open spec fn jsb_checksum(j: JournalSuperblock) -> u32 {
    bytes::crc32(enc_jsb(JournalSuperblock { crc32: 0, ..j }))
}

/// A valid journal superblock with the given cursors.
pub open spec fn make_jsb(
    block_count: u32,
    tail_seq: u64,
    head_seq: u64,
    tail_block: u64,
    head_block: u64,
) -> JournalSuperblock {
    let j = JournalSuperblock {
        magic: JOURNAL_MAGIC,
        version: 1,
        block_count,
        block_size: 4096,
        tail_seq,
        head_seq,
        tail_block,
        head_block,
        crc32: 0,
    };
    JournalSuperblock { crc32: jsb_checksum(j), ..j }
}

/// The block that holds a journal superblock.
pub open spec fn jsb_block(j: JournalSuperblock) -> Seq<u8> {
    enc_jsb(j) + bytes::zeros(4044)
}

/// Decoding an encoded journal superblock gives it back.
pub proof fn jsb_round_trip(j: JournalSuperblock)
    ensures
        dec_jsb(jsb_block(j)) == j,
        jsb_block(j).len() == 4096,
{
    let e = enc_jsb(j);
    let s = jsb_block(j);
    assert(e.len() == 52);
    assert(s.subrange(0, 52) =~= e);
    assert(e.subrange(0, 4) =~= bytes::bytes32(j.magic));
    assert(e.subrange(4, 8) =~= bytes::bytes32(j.version));
    assert(e.subrange(8, 12) =~= bytes::bytes32(j.block_count));
    assert(e.subrange(12, 16) =~= bytes::bytes32(j.block_size));
    assert(e.subrange(16, 24) =~= bytes::bytes64(j.tail_seq));
    assert(e.subrange(24, 32) =~= bytes::bytes64(j.head_seq));
    assert(e.subrange(32, 40) =~= bytes::bytes64(j.tail_block));
    assert(e.subrange(40, 48) =~= bytes::bytes64(j.head_block));
    assert(e.subrange(48, 52) =~= bytes::bytes32(j.crc32));
    bytes::field32(s, 0, e, 0, j.magic);
    bytes::field32(s, 0, e, 4, j.version);
    bytes::field32(s, 0, e, 8, j.block_count);
    bytes::field32(s, 0, e, 12, j.block_size);
    bytes::field64(s, 0, e, 16, j.tail_seq);
    bytes::field64(s, 0, e, 24, j.head_seq);
    bytes::field64(s, 0, e, 32, j.tail_block);
    bytes::field64(s, 0, e, 40, j.head_block);
    bytes::field32(s, 0, e, 48, j.crc32);
}

/// Decodes a journal superblock.
pub fn read_jsb(s: &[u8]) -> (j: JournalSuperblock)
    requires
        s.len() >= 52,
    ensures
        j == dec_jsb(s@),
{
    JournalSuperblock {
        magic: get_u32(s, 0),
        version: get_u32(s, 4),
        block_count: get_u32(s, 8),
        block_size: get_u32(s, 12),
        tail_seq: get_u64(s, 16),
        head_seq: get_u64(s, 24),
        tail_block: get_u64(s, 32),
        head_block: get_u64(s, 40),
        crc32: get_u32(s, 48),
    }
}

fn encode_jsb(j: &JournalSuperblock) -> (out: Vec<u8>)
    ensures
        out@ == enc_jsb(*j),
        out@.len() == 52,
{
    let mut out: Vec<u8> = Vec::new();
    push_u32(&mut out, j.magic);
    push_u32(&mut out, j.version);
    push_u32(&mut out, j.block_count);
    push_u32(&mut out, j.block_size);
    push_u64(&mut out, j.tail_seq);
    push_u64(&mut out, j.head_seq);
    push_u64(&mut out, j.tail_block);
    push_u64(&mut out, j.head_block);
    push_u32(&mut out, j.crc32);
    assert(Seq::<u8>::empty() + bytes::bytes32(j.magic) =~= bytes::bytes32(j.magic));
    out
}

/// Computes [`jsb_checksum`].
pub fn journal_sb_checksum(j: &JournalSuperblock) -> (c: u32)
    ensures
        c == jsb_checksum(*j),
{
    let z = JournalSuperblock { crc32: 0, ..*j };
    let e = encode_jsb(&z);
    checksum(e.as_slice())
}

/// Builds the block that holds a valid journal superblock with the given cursors.
pub fn build_jsb_block(
    block_count: u32,
    tail_seq: u64,
    head_seq: u64,
    tail_block: u64,
    head_block: u64,
) -> (out: Vec<u8>)
    ensures
        out@ == jsb_block(make_jsb(block_count, tail_seq, head_seq, tail_block, head_block)),
        out@.len() == 4096,
{
    let mut j = JournalSuperblock {
        magic: JOURNAL_MAGIC,
        version: 1,
        block_count,
        block_size: 4096,
        tail_seq,
        head_seq,
        tail_block,
        head_block,
        crc32: 0,
    };
    j.crc32 = journal_sb_checksum(&j);
    let mut out = encode_jsb(&j);
    let pad = zero_vec(4044);
    push_slice(&mut out, pad.as_slice());
    out
}

// ---- Ring blocks --------------------------------------------------------------------

/// The bytes of several records, sixteen each.
pub open spec fn enc_records(rs: Seq<(u64, u64)>) -> Seq<u8>
    decreases rs.len(),
{
    if rs.len() == 0 {
        Seq::empty()
    } else {
        enc_records(rs.drop_last()) + (bytes::bytes64(rs.last().0) + bytes::bytes64(rs.last().1))
    }
}

/// The 32-byte header of a ring block.
pub open spec fn enc_ring_header(kind: u32, seq: u64, tx_id: u64, word: u32) -> Seq<u8> {
    bytes::bytes32(JOURNAL_BLOCK_MAGIC) + bytes::bytes32(kind) + bytes::bytes64(seq)
        + bytes::bytes64(tx_id) + bytes::bytes32(word) + bytes::bytes32(0)
}

/// A ring block: a header, then records.
#[verifier::opaque]
pub open spec fn enc_ring_block(
    kind: u32,
    seq: u64,
    tx_id: u64,
    word: u32,
    rs: Seq<(u64, u64)>,
) -> Seq<u8> {
    enc_ring_header(kind, seq, tx_id, word) + enc_records(rs) + bytes::zeros(
        4064 - 16 * rs.len(),
    )
}

/// Whether a block is a ring block of this kind and sequence number.
pub open spec fn is_ring_block(b: Seq<u8>, kind: u32, seq: u64) -> bool {
    bytes::le32(b, 0) == JOURNAL_BLOCK_MAGIC && bytes::le32(b, 4) == kind && bytes::le64(b, 8)
        == seq
}

/// The word of a ring block's header: how many records follow, or a checksum.
pub open spec fn ring_word(b: Seq<u8>) -> u32 {
    bytes::le32(b, 24)
}

/// The first `n` records of a ring block.
pub open spec fn ring_records(b: Seq<u8>, n: int) -> Seq<(u64, u64)> {
    Seq::new(n as nat, |i: int| (bytes::le64(b, 32 + 16 * i), bytes::le64(b, 40 + 16 * i)))
}

proof fn lemma_records(rs: Seq<(u64, u64)>, i: int)
    ensures
        enc_records(rs).len() == 16 * rs.len(),
        0 <= i < rs.len() ==> enc_records(rs).subrange(16 * i, 16 * i + 16) == bytes::bytes64(
            rs[i].0,
        ) + bytes::bytes64(rs[i].1),
    decreases rs.len(),
{
    if rs.len() > 0 {
        let p = rs.drop_last();
        lemma_records(p, i);
        let e = enc_records(rs);
        let last = bytes::bytes64(rs.last().0) + bytes::bytes64(rs.last().1);
        assert(last.len() == 16);
        if 0 <= i < p.len() {
            assert(e.subrange(16 * i, 16 * i + 16) =~= enc_records(p).subrange(
                16 * i,
                16 * i + 16,
            ));
            assert(p[i] == rs[i]);
        } else if i == p.len() {
            assert(e.subrange(16 * i, 16 * i + 16) =~= last);
        }
    }
}

proof fn lemma_header(b: Seq<u8>, kind: u32, seq: u64, tx_id: u64, word: u32)
    requires
        b.len() >= 32,
        b.subrange(0, 32) == enc_ring_header(kind, seq, tx_id, word),
    ensures
        bytes::le32(b, 0) == JOURNAL_BLOCK_MAGIC,
        bytes::le32(b, 4) == kind,
        bytes::le64(b, 8) == seq,
        bytes::le64(b, 16) == tx_id,
        bytes::le32(b, 24) == word,
{
    let h = enc_ring_header(kind, seq, tx_id, word);
    assert(h.len() == 32);
    assert(h.subrange(0, 4) =~= bytes::bytes32(JOURNAL_BLOCK_MAGIC));
    assert(h.subrange(4, 8) =~= bytes::bytes32(kind));
    assert(h.subrange(8, 16) =~= bytes::bytes64(seq));
    assert(h.subrange(16, 24) =~= bytes::bytes64(tx_id));
    assert(h.subrange(24, 28) =~= bytes::bytes32(word));
    bytes::field32(b, 0, h, 0, JOURNAL_BLOCK_MAGIC);
    bytes::field32(b, 0, h, 4, kind);
    bytes::field64(b, 0, h, 8, seq);
    bytes::field64(b, 0, h, 16, tx_id);
    bytes::field32(b, 0, h, 24, word);
}

proof fn lemma_record(b: Seq<u8>, o: int, x: u64, y: u64)
    requires
        0 <= o,
        o + 16 <= b.len(),
        b.subrange(o, o + 16) == bytes::bytes64(x) + bytes::bytes64(y),
    ensures
        bytes::le64(b, o) == x,
        bytes::le64(b, o + 8) == y,
{
    let r = bytes::bytes64(x) + bytes::bytes64(y);
    assert(r.len() == 16);
    assert(r.subrange(0, 8) =~= bytes::bytes64(x));
    assert(r.subrange(8, 16) =~= bytes::bytes64(y));
    bytes::field64(b, o, r, 0, x);
    bytes::field64(b, o, r, 8, y);
}

proof fn lemma_record_at(b: Seq<u8>, rs: Seq<(u64, u64)>, i: int)
    requires
        32 + 16 * rs.len() <= b.len(),
        b.subrange(32, 32 + 16 * rs.len() as int) == enc_records(rs),
        0 <= i < rs.len(),
    ensures
        bytes::le64(b, 32 + 16 * i) == rs[i].0,
        bytes::le64(b, 40 + 16 * i) == rs[i].1,
{
    lemma_records(rs, i);
    let o = 32 + 16 * i;
    let e = b.subrange(32, 32 + 16 * rs.len() as int);
    lemma_sub_sub(b, 32, 32 + 16 * rs.len() as int, 16 * i, 16 * i + 16);
    lemma_record(b, o, rs[i].0, rs[i].1);
}

proof fn lemma_sub_sub(b: Seq<u8>, x: int, y: int, p: int, q: int)
    requires
        0 <= x <= y <= b.len(),
        0 <= p <= q <= y - x,
    ensures
        b.subrange(x, y).subrange(p, q) == b.subrange(x + p, x + q),
{
    assert(b.subrange(x, y).subrange(p, q) =~= b.subrange(x + p, x + q));
}

proof fn lemma_records_at(b: Seq<u8>, rs: Seq<(u64, u64)>)
    requires
        32 + 16 * rs.len() <= b.len(),
        b.subrange(32, 32 + 16 * rs.len() as int) == enc_records(rs),
    ensures
        ring_records(b, rs.len() as int) == rs,
{
    let r = ring_records(b, rs.len() as int);
    assert forall|i: int| 0 <= i < rs.len() implies r[i] == rs[i] by {
        lemma_record_at(b, rs, i);
    }
    assert(r =~= rs);
}

proof fn lemma_three_parts(h: Seq<u8>, e: Seq<u8>, z: Seq<u8>)
    requires
        h.len() == 32,
    ensures
        (h + e + z).len() == 32 + e.len() + z.len(),
        (h + e + z).subrange(0, 32) == h,
        (h + e + z).subrange(32, 32 + e.len() as int) == e,
{
    assert((h + e + z).subrange(0, 32) =~= h);
    assert((h + e + z).subrange(32, 32 + e.len() as int) =~= e);
}

/// What a ring block says is read back from it.
pub proof fn ring_block_round_trip(
    kind: u32,
    seq: u64,
    tx_id: u64,
    word: u32,
    rs: Seq<(u64, u64)>,
)
    requires
        rs.len() <= MAX_RECORDS,
    ensures
        ({
            let b = enc_ring_block(kind, seq, tx_id, word, rs);
            &&& b.len() == 4096
            &&& is_ring_block(b, kind, seq)
            &&& bytes::le32(b, 0) == JOURNAL_BLOCK_MAGIC
            &&& bytes::le32(b, 4) == kind
            &&& bytes::le64(b, 8) == seq
            &&& bytes::le64(b, 16) == tx_id
            &&& ring_word(b) == word
            &&& ring_records(b, rs.len() as int) == rs
        }),
{
    reveal(enc_ring_block);
    let h = enc_ring_header(kind, seq, tx_id, word);
    let e = enc_records(rs);
    let z = bytes::zeros(4064 - 16 * rs.len());
    let b = enc_ring_block(kind, seq, tx_id, word, rs);
    lemma_records(rs, 0);
    lemma_header_len(kind, seq, tx_id, word);
    lemma_three_parts(h, e, z);
    lemma_header(b, kind, seq, tx_id, word);
    lemma_records_at(b, rs);
}

proof fn lemma_header_len(kind: u32, seq: u64, tx_id: u64, word: u32)
    ensures
        enc_ring_header(kind, seq, tx_id, word).len() == 32,
{
}

/// Builds a ring block.
pub fn build_ring_block(kind: u32, seq: u64, tx_id: u64, word: u32, rs: &[(u64, u64)]) -> (out: Vec<
    u8,
>)
    requires
        rs.len() <= MAX_RECORDS,
    ensures
        out@ == enc_ring_block(kind, seq, tx_id, word, rs@),
        out@.len() == 4096,
{
    reveal(enc_ring_block);
    let mut out: Vec<u8> = Vec::new();
    push_u32(&mut out, JOURNAL_BLOCK_MAGIC);
    push_u32(&mut out, kind);
    push_u64(&mut out, seq);
    push_u64(&mut out, tx_id);
    push_u32(&mut out, word);
    push_u32(&mut out, 0);
    let ghost h = enc_ring_header(kind, seq, tx_id, word);
    assert(out@ =~= h);
    let mut i: usize = 0;
    assert(out@ =~= h + enc_records(rs@.take(0)));
    while i < rs.len()
        invariant
            i <= rs.len(),
            out@ == h + enc_records(rs@.take(i as int)),
        decreases rs.len() - i,
    {
        let r = rs[i];
        push_u64(&mut out, r.0);
        push_u64(&mut out, r.1);
        proof {
            let t = rs@.take(i + 1);
            assert(t.drop_last() =~= rs@.take(i as int));
            assert(out@ =~= h + enc_records(t));
        }
        i = i + 1;
    }
    proof {
        assert(rs@.take(rs@.len() as int) =~= rs@);
        lemma_records(rs@, 0);
        assert(h.len() == 32);
    }
    let pad = zero_vec(4064 - 16 * rs.len());
    push_slice(&mut out, pad.as_slice());
    out
}

/// Builds a descriptor block: which blocks follow, and which of them are escaped.
pub fn build_descriptor_block(seq: u64, tx_id: u64, entries: &[(u64, u64)]) -> (out: Vec<u8>)
    requires
        entries.len() <= MAX_RECORDS,
    ensures
        out@ == enc_ring_block(KIND_DESCRIPTOR, seq, tx_id, entries@.len() as u32, entries@),
        out@.len() == 4096,
{
    build_ring_block(KIND_DESCRIPTOR, seq, tx_id, entries.len() as u32, entries)
}

/// Builds a revoke block: which blocks must not be replayed from before `seq`.
pub fn build_revoke_block(seq: u64, tx_id: u64, entries: &[(u64, u64)]) -> (out: Vec<u8>)
    requires
        entries.len() <= MAX_RECORDS,
    ensures
        out@ == enc_ring_block(KIND_REVOKE, seq, tx_id, entries@.len() as u32, entries@),
        out@.len() == 4096,
{
    build_ring_block(KIND_REVOKE, seq, tx_id, entries.len() as u32, entries)
}

/// Builds a commit block.
pub fn build_commit_block(seq: u64, tx_id: u64, crc: u32) -> (out: Vec<u8>)
    ensures
        out@ == enc_ring_block(KIND_COMMIT, seq, tx_id, crc, Seq::empty()),
        out@.len() == 4096,
{
    let none: Vec<(u64, u64)> = Vec::new();
    assert(none@ =~= Seq::<(u64, u64)>::empty());
    build_ring_block(KIND_COMMIT, seq, tx_id, crc, none.as_slice())
}

/// Whether a block is a ring block of this kind and sequence number.
pub fn check_ring_block(b: &[u8], kind: u32, seq: u64) -> (r: bool)
    requires
        b.len() >= 32,
    ensures
        r == is_ring_block(b@, kind, seq),
{
    get_u32(b, 0) == JOURNAL_BLOCK_MAGIC && get_u32(b, 4) == kind && get_u64(b, 8) == seq
}

/// Reads the first `n` records of a ring block.
pub fn read_records(b: &[u8], n: usize) -> (r: Vec<(u64, u64)>)
    requires
        n <= MAX_RECORDS,
        b.len() >= 4096,
    ensures
        r@ == ring_records(b@, n as int),
{
    let mut out: Vec<(u64, u64)> = Vec::new();
    let mut i: usize = 0;
    while i < n
        invariant
            i <= n <= MAX_RECORDS,
            b.len() >= 4096,
            out@ == ring_records(b@, i as int),
        decreases n - i,
    {
        out.push((get_u64(b, 32 + 16 * i), get_u64(b, 40 + 16 * i)));
        i = i + 1;
        assert(out@ =~= ring_records(b@, i as int));
    }
    out
}

// ---- Escaping -----------------------------------------------------------------------

/// Whether a block begins with the journal block magic.
pub open spec fn needs_escape(p: Seq<u8>) -> bool {
    bytes::le32(p, 0) == JOURNAL_BLOCK_MAGIC
}

/// A block as the ring stores it.
pub open spec fn escaped(p: Seq<u8>) -> Seq<u8> {
    if needs_escape(p) {
        bytes::splice(p, 0, bytes::zeros(4))
    } else {
        p
    }
}

/// The descriptor flags of a block.
pub open spec fn escape_flag(p: Seq<u8>) -> u64 {
    if needs_escape(p) {
        DESC_FLAG_ESCAPED
    } else {
        0
    }
}

/// The block that a stored block with these flags stands for.
pub open spec fn unescaped(d: Seq<u8>, flags: u64) -> Seq<u8> {
    if flags % 2 == 1 {
        bytes::splice(d, 0, bytes::bytes32(JOURNAL_BLOCK_MAGIC))
    } else {
        d
    }
}

/// A block survives being stored in the ring.
pub proof fn escape_round_trip(p: Seq<u8>)
    requires
        p.len() == 4096,
    ensures
        unescaped(escaped(p), escape_flag(p)) == p,
        escaped(p).len() == 4096,
{
    if needs_escape(p) {
        let m = bytes::bytes32(JOURNAL_BLOCK_MAGIC);
        let u = unescaped(escaped(p), escape_flag(p));
        let a = bytes::le16(p, 0) as int;
        let b = bytes::le16(p, 2) as int;
        assert(a + 0x1_0000 * b == JOURNAL_BLOCK_MAGIC);
        assert(a == JOURNAL_BLOCK_MAGIC % 0x1_0000 && b == JOURNAL_BLOCK_MAGIC / 0x1_0000);
        assert(p[0] + 256 * p[1] == a && p[2] + 256 * p[3] == b);
        assert(m.len() == 4);
        assert(m[0] == p[0] && m[1] == p[1] && m[2] == p[2] && m[3] == p[3]);
        assert(u =~= p);
    }
}

/// The blocks of a sequence one after the other.
pub open spec fn concat(bs: Seq<Seq<u8>>) -> Seq<u8>
    decreases bs.len(),
{
    if bs.len() == 0 {
        Seq::empty()
    } else {
        concat(bs.drop_last()) + bs.last()
    }
}

} // verus!
