//! Directory entries: short names, long names, and what they say of a file.
use vstd::prelude::*;
use crate::bytes;
use crate::bytes::{bytes_eq, copy_vec, get_u16, get_u32, push_slice, push_u16, push_u32, sub_vec, zero_vec};
use crate::text;
use crate::text::{encode_utf16, lower_vec, string_lossy, string_uppercase};
use crate::types::{File, FileAttrs, FileKind, FileTime, FileView};
use super::structures::{ATTR_ARCHIVE, ATTR_DIRECTORY, ATTR_HIDDEN, ATTR_LONG_NAME, ATTR_READ_ONLY, ATTR_SYSTEM, ATTR_VOLUME_ID};

verus! {

/// A directory entry.
pub struct DirectoryEntry {
    /// The short name: eight bytes and an extension of three, padded with spaces.
    pub name: Vec<u8>,
    pub attributes: u8,
    /// Which parts of the short name are shown in small letters.
    pub nt_reserved: u8,
    pub creation_time_tenth: u8,
    pub creation_time: u16,
    pub creation_date: u16,
    pub last_access_date: u16,
    pub first_cluster_high: u16,
    pub write_time: u16,
    pub write_date: u16,
    pub first_cluster_low: u16,
    pub file_size: u32,
}

/// What a directory entry says.
#[verifier::ext_equal]
pub struct EntryView {
    pub name: Seq<u8>,
    pub attributes: u8,
    pub nt_reserved: u8,
    pub creation_time_tenth: u8,
    pub creation_time: u16,
    pub creation_date: u16,
    pub last_access_date: u16,
    pub first_cluster_high: u16,
    pub write_time: u16,
    pub write_date: u16,
    pub first_cluster_low: u16,
    pub file_size: u32,
}

impl View for DirectoryEntry {
    type V = EntryView;

    open spec fn view(&self) -> EntryView {
        EntryView {
            name: self.name@,
            attributes: self.attributes,
            nt_reserved: self.nt_reserved,
            creation_time_tenth: self.creation_time_tenth,
            creation_time: self.creation_time,
            creation_date: self.creation_date,
            last_access_date: self.last_access_date,
            first_cluster_high: self.first_cluster_high,
            write_time: self.write_time,
            write_date: self.write_date,
            first_cluster_low: self.first_cluster_low,
            file_size: self.file_size,
        }
    }
}

/// The views of several entries.
pub open spec fn entry_views(es: Seq<DirectoryEntry>) -> Seq<EntryView> {
    es.map_values(|e: DirectoryEntry| e@)
}

/// The directory entry at `off`.
pub open spec fn dec_entry(s: Seq<u8>, off: int) -> EntryView {
    EntryView {
        name: s.subrange(off, off + 11),
        attributes: s[off + 11],
        nt_reserved: s[off + 12],
        creation_time_tenth: s[off + 13],
        creation_time: bytes::le16(s, off + 14),
        creation_date: bytes::le16(s, off + 16),
        last_access_date: bytes::le16(s, off + 18),
        first_cluster_high: bytes::le16(s, off + 20),
        write_time: bytes::le16(s, off + 22),
        write_date: bytes::le16(s, off + 24),
        first_cluster_low: bytes::le16(s, off + 26),
        file_size: bytes::le32(s, off + 28),
    }
}

/// The 32 bytes of a directory entry.
#[verifier::opaque]
pub open spec fn enc_entry(e: EntryView) -> Seq<u8> {
    e.name + seq![e.attributes, e.nt_reserved, e.creation_time_tenth] + bytes::bytes16(
        e.creation_time,
    ) + bytes::bytes16(e.creation_date) + bytes::bytes16(e.last_access_date) + bytes::bytes16(
        e.first_cluster_high,
    ) + bytes::bytes16(e.write_time) + bytes::bytes16(e.write_date) + bytes::bytes16(
        e.first_cluster_low,
    ) + bytes::bytes32(e.file_size)
}

/// Decoding an encoded directory entry gives it back.
pub proof fn entry_round_trip(e: EntryView)
    requires
        e.name.len() == 11,
    ensures
        enc_entry(e).len() == 32,
        dec_entry(enc_entry(e), 0) == e,
{
    reveal(enc_entry);
    let s = enc_entry(e);
    assert(s.subrange(0, 11) =~= e.name);
    assert(s.subrange(14, 16) =~= bytes::bytes16(e.creation_time));
    bytes::le16_round_trip(s, 14, e.creation_time);
    assert(s.subrange(16, 18) =~= bytes::bytes16(e.creation_date));
    bytes::le16_round_trip(s, 16, e.creation_date);
    assert(s.subrange(18, 20) =~= bytes::bytes16(e.last_access_date));
    bytes::le16_round_trip(s, 18, e.last_access_date);
    assert(s.subrange(20, 22) =~= bytes::bytes16(e.first_cluster_high));
    bytes::le16_round_trip(s, 20, e.first_cluster_high);
    assert(s.subrange(22, 24) =~= bytes::bytes16(e.write_time));
    bytes::le16_round_trip(s, 22, e.write_time);
    assert(s.subrange(24, 26) =~= bytes::bytes16(e.write_date));
    bytes::le16_round_trip(s, 24, e.write_date);
    assert(s.subrange(26, 28) =~= bytes::bytes16(e.first_cluster_low));
    bytes::le16_round_trip(s, 26, e.first_cluster_low);
    assert(s.subrange(28, 32) =~= bytes::bytes32(e.file_size));
    bytes::le32_round_trip(s, 28, e.file_size);
    assert(dec_entry(s, 0) =~= e);
}

/// The first cluster of an entry.
pub open spec fn first_cluster(e: EntryView) -> u32 {
    (e.first_cluster_high * 0x1_0000 + e.first_cluster_low) as u32
}

/// The entry with its first cluster set.
pub open spec fn with_cluster(e: EntryView, c: u32) -> EntryView {
    EntryView {
        first_cluster_high: (c / 0x1_0000) as u16,
        first_cluster_low: (c % 0x1_0000) as u16,
        ..e
    }
}

/// Setting the first cluster sets it.
pub proof fn cluster_round_trip(e: EntryView, c: u32)
    ensures
        first_cluster(with_cluster(e, c)) == c,
{
}

/// Whether attribute bit `bit` is set.
pub open spec fn has_attr(e: EntryView, bit: u8) -> bool {
    e.attributes & bit != 0
}

// ---- Short names ----------------------------------------------------------------------

/// `b` cut or padded with spaces to `n` bytes.
pub open spec fn padded(b: Seq<u8>, n: int) -> Seq<u8> {
    Seq::new(
        n as nat,
        |i: int|
            if i < b.len() {
                b[i]
            } else {
                0x20u8
            },
    )
}

/// The position of the first full stop, or the length.
pub open spec fn first_dot(b: Seq<u8>) -> int
    decreases b.len(),
{
    if b.len() == 0 || b[0] == 0x2E {
        0
    } else {
        1 + first_dot(b.skip(1))
    }
}

/// The short name that bytes in capitals stand for: what comes before the first full
/// stop and what comes after it, each cut or padded to its field.
pub open spec fn name_field(b: Seq<u8>) -> Seq<u8> {
    let dot = first_dot(b);
    if dot < b.len() {
        padded(b.take(dot), 8) + padded(b.skip(dot + 1), 3)
    } else {
        padded(b, 8) + padded(Seq::empty(), 3)
    }
}

/// The short name of a file name.
pub open spec fn fat_name(s: Seq<char>) -> Seq<u8> {
    if s == seq!['.'] {
        padded(seq![0x2Eu8], 11)
    } else if s == seq!['.', '.'] {
        padded(seq![0x2Eu8, 0x2E], 11)
    } else {
        name_field(vstd::utf8::encode_utf8(text::uppercase(s)))
    }
}

/// Length of `b` without the spaces at its end.
pub open spec fn trimmed_len(b: Seq<u8>) -> int
    decreases b.len(),
{
    if b.len() == 0 {
        0
    } else if b.last() != 0x20 {
        b.len() as int
    } else {
        trimmed_len(b.drop_last())
    }
}

/// `b` without the spaces at its end, in small letters if `lower`.
pub open spec fn shown(b: Seq<u8>, lower: bool) -> Seq<u8> {
    let t = b.take(trimmed_len(b));
    if lower {
        text::lowered(t)
    } else {
        t
    }
}

/// The name that an entry is shown under.
pub open spec fn entry_name(e: EntryView) -> Seq<char> {
    let n = e.name;
    if n[0] == 0x2E && n[1] == 0x20 {
        seq!['.']
    } else if n[0] == 0x2E && n[1] == 0x2E && n[2] == 0x20 {
        seq!['.', '.']
    } else {
        let m = if n[0] == 0x05 {
            n.update(0, 0xE5u8)
        } else {
            n
        };
        let base = shown(m.take(8), e.nt_reserved & 0x08 != 0);
        let ext = shown(m.subrange(8, 11), e.nt_reserved & 0x10 != 0);
        if ext.len() == 0 {
            text::lossy(base)
        } else {
            text::lossy(base) + seq!['.'] + text::lossy(ext)
        }
    }
}

/// The name that an entry with an ASCII name is shown under, as bytes.
pub open spec fn shown_bytes(e: EntryView) -> Seq<u8> {
    let base = shown(e.name.take(8), e.nt_reserved & 0x08 != 0);
    let ext = shown(e.name.subrange(8, 11), e.nt_reserved & 0x10 != 0);
    if ext.len() == 0 {
        base
    } else {
        base + seq![0x2Eu8] + ext
    }
}

/// Whether an entry has a plain name: ASCII, and not one of those that begin with a mark.
pub open spec fn plain_name(n: Seq<u8>) -> bool {
    text::ascii(n) && n[0] != 0x2E && n[0] != 0x05
}

/// Whether a byte may stand in a short name.
pub open spec fn short_char(b: u8) -> bool {
    (0x30 <= b <= 0x39) || (0x41 <= b <= 0x5A) || (0x61 <= b <= 0x7A) || short_mark(b)
}

/// Whether a byte is one of the marks that may stand in a short name.
pub open spec fn short_mark(b: u8) -> bool {
    b == 0x25 || b == 0x27 || b == 0x2D || b == 0x5F || b == 0x40 || b == 0x7E || b == 0x60 || b
        == 0x21 || b == 0x28 || b == 0x29 || b == 0x7B || b == 0x7D || b == 0x5E || b == 0x23 || b
        == 0x26
}

/// Whether all bytes may stand in a short name.
pub open spec fn short_chars(b: Seq<u8>) -> bool {
    forall|i: int| 0 <= i < b.len() ==> short_char(#[trigger] b[i])
}

/// Whether a name, given by its bytes, fits the short form as it stands.
pub open spec fn valid_short(b: Seq<u8>) -> bool {
    let dot = first_dot(b);
    if b.len() == 0 || b.len() > 12 {
        false
    } else if b == seq![0x2Eu8] || b == seq![0x2Eu8, 0x2E] {
        true
    } else if dot < b.len() {
        let base = b.take(dot);
        let ext = b.skip(dot + 1);
        1 <= base.len() <= 8 && ext.len() <= 3 && short_chars(base) && short_chars(ext)
    } else {
        b.len() <= 8 && short_chars(b)
    }
}

/// The checksum of a short name that ties long name entries to it.
pub open spec fn name_checksum(name: Seq<u8>) -> u8
    decreases name.len(),
{
    if name.len() == 0 {
        0
    } else {
        let s = name_checksum(name.drop_last());
        ((s / 2 + (if s % 2 == 1 {
            128int
        } else {
            0
        }) + name.last()) % 256) as u8
    }
}

fn find_dot(b: &[u8]) -> (p: usize)
    ensures
        p == first_dot(b@),
        p <= b@.len(),
{
    let mut p: usize = 0;
    assert(b@.skip(0) =~= b@);
    while p < b.len() && b[p] != 0x2E
        invariant
            p <= b.len(),
            first_dot(b@) == p + first_dot(b@.skip(p as int)),
        decreases b.len() - p,
    {
        assert(b@.skip(p as int).skip(1) =~= b@.skip(p + 1));
        p = p + 1;
    }
    p
}

fn pad(b: &[u8], n: usize) -> (r: Vec<u8>)
    ensures
        r@ == padded(b@, n as int),
{
    let mut out: Vec<u8> = Vec::new();
    let mut i: usize = 0;
    while i < n
        invariant
            i <= n,
            out@ == padded(b@, i as int),
        decreases n - i,
    {
        out.push(if i < b.len() {
            b[i]
        } else {
            0x20
        });
        assert(out@ =~= padded(b@, i + 1));
        i = i + 1;
    }
    out
}

fn is_short_char(b: u8) -> (r: bool)
    ensures
        r == short_char(b),
{
    (0x30 <= b && b <= 0x39) || (0x41 <= b && b <= 0x5A) || (0x61 <= b && b <= 0x7A) || is_short_mark(
        b,
    )
}

pub(crate) fn is_short_mark(b: u8) -> (r: bool)
    ensures
        r == short_mark(b),
{
    b == 0x25 || b == 0x27 || b == 0x2D || b == 0x5F || b == 0x40 || b == 0x7E || b == 0x60 || b
        == 0x21 || b == 0x28 || b == 0x29 || b == 0x7B || b == 0x7D || b == 0x5E || b == 0x23 || b
        == 0x26
}

fn has_valid_fat_chars(b: &[u8]) -> (r: bool)
    ensures
        r == short_chars(b@),
{
    let mut i: usize = 0;
    while i < b.len()
        invariant
            i <= b.len(),
            forall|k: int| 0 <= k < i ==> short_char(#[trigger] b@[k]),
        decreases b.len() - i,
    {
        if !is_short_char(b[i]) {
            return false;
        }
        i = i + 1;
    }
    true
}

/// The short name field of a name given in capitals.
pub(crate) fn field_of(b: &[u8]) -> (r: Vec<u8>)
    ensures
        r@ == name_field(b@),
        r@.len() == 11,
{
    let dot: usize = find_dot(b);
    let mut out: Vec<u8> = Vec::new();
    if dot < b.len() {
        let base = sub_vec(b, 0, dot);
        let ext = sub_vec(b, dot + 1, b.len());
        assert(base@ =~= b@.take(dot as int));
        assert(ext@ =~= b@.skip(dot + 1));
        let p = pad(base.as_slice(), 8);
        let q = pad(ext.as_slice(), 3);
        push_slice(&mut out, p.as_slice());
        push_slice(&mut out, q.as_slice());
        assert(out@ =~= padded(base@, 8) + padded(ext@, 3));
    } else {
        let none: Vec<u8> = Vec::new();
        let p = pad(b, 8);
        let q = pad(none.as_slice(), 3);
        push_slice(&mut out, p.as_slice());
        push_slice(&mut out, q.as_slice());
        assert(out@ =~= padded(b@, 8) + padded(Seq::empty(), 3));
    }
    out
}

fn trim(b: &[u8]) -> (n: usize)
    ensures
        n == trimmed_len(b@),
        n <= b@.len(),
{
    let mut n: usize = b.len();
    assert(b@.take(n as int) =~= b@);
    while n > 0 && b[n - 1] == 0x20
        invariant
            n <= b.len(),
            trimmed_len(b@) == trimmed_len(b@.take(n as int)),
        decreases n,
    {
        assert(b@.take(n as int).drop_last() =~= b@.take(n - 1));
        n = n - 1;
    }
    n
}

fn show(b: &[u8], lower: bool) -> (r: Vec<u8>)
    ensures
        r@ == shown(b@, lower),
{
    let n: usize = trim(b);
    let t = sub_vec(b, 0, n);
    assert(t@ =~= b@.take(n as int));
    if lower {
        lower_vec(t.as_slice())
    } else {
        t
    }
}

proof fn lemma_trimmed(b: Seq<u8>)
    ensures
        0 <= trimmed_len(b) <= b.len(),
    decreases b.len(),
{
    if b.len() > 0 && b.last() == 0x20 {
        lemma_trimmed(b.drop_last());
    }
}

/// What is shown of ASCII is ASCII.
proof fn lemma_shown_ascii(b: Seq<u8>, lower: bool)
    requires
        text::ascii(b),
    ensures
        text::ascii(shown(b, lower)),
{
    lemma_trimmed(b);
    let t = b.take(trimmed_len(b));
    assert forall|i: int| 0 <= i < t.len() implies #[trigger] t[i] < 0x80 by {
        assert(t[i] == b[i]);
    }
}

/// Two parts of a name in one text.
proof fn lemma_joined(base: Seq<u8>, ext: Seq<u8>)
    requires
        text::ascii(base),
        text::ascii(ext),
    ensures
        vstd::utf8::encode_utf8(
            vstd::utf8::decode_utf8(base) + seq!['.'] + vstd::utf8::decode_utf8(ext),
        ) == base + seq![0x2Eu8] + ext,
{
    let all = base + seq![0x2Eu8] + ext;
    text::ascii_is_utf8(base);
    text::ascii_is_utf8(ext);
    text::ascii_is_utf8(all);
    vstd::utf8::decode_utf8_encode_utf8(all);
    let d = vstd::utf8::decode_utf8(all);
    let t = vstd::utf8::decode_utf8(base) + seq!['.'] + vstd::utf8::decode_utf8(ext);
    assert forall|i: int| 0 <= i < d.len() implies d[i] == t[i] by {
        assert(d[i] as u32 == all[i]);
        assert(t[i] as u32 == all[i]) by {
            if i > base.len() {
                assert(t[i] == vstd::utf8::decode_utf8(ext)[i - base.len() - 1]);
            }
        }
        text::char_has_one_number(d[i]);
        text::char_has_one_number(t[i]);
        assert(text::number(d[i]) == text::number(t[i]));
    }
    assert(d =~= t);
}

/// What padding added is trimmed again.
proof fn lemma_padded(b: Seq<u8>, n: int)
    requires
        b.len() <= n,
        short_chars(b),
    ensures
        trimmed_len(padded(b, n)) == b.len(),
        padded(b, n).take(b.len() as int) == b,
    decreases n - b.len(),
{
    let p = padded(b, n);
    assert(p.take(b.len() as int) =~= b);
    if n > b.len() {
        assert(p.drop_last() =~= padded(b, n - 1));
        lemma_padded(b, n - 1);
    } else if n > 0 {
        assert(short_char(b[n - 1]));
    }
}

proof fn lemma_first_dot(b: Seq<u8>)
    ensures
        0 <= first_dot(b) <= b.len(),
        first_dot(b) < b.len() ==> b[first_dot(b)] == 0x2E,
        first_dot(text::raised(b)) == first_dot(b),
    decreases b.len(),
{
    if b.len() > 0 && b[0] != 0x2E {
        lemma_first_dot(b.skip(1));
        assert(text::raised(b).skip(1) =~= text::raised(b.skip(1)));
    }
}

proof fn lemma_raised_chars(b: Seq<u8>)
    requires
        short_chars(b),
    ensures
        short_chars(text::raised(b)),
        text::ascii(b),
        text::lowered(text::raised(b)) == text::lowered(b),
{
    assert forall|i: int| 0 <= i < b.len() implies short_char(#[trigger] text::raised(b)[i]) by {
        assert(short_char(b[i]));
    }
    assert forall|i: int| 0 <= i < b.len() implies #[trigger] b[i] < 0x80 by {
        assert(short_char(b[i]));
    }
    assert(text::lowered(text::raised(b)) =~= text::lowered(b));
}

/// A name that fits the short form is kept but for the case of its letters: an entry that
/// gets it as its short name is shown under it. A full stop at the end of a name gets lost.
#[verifier::spinoff_prover]
pub proof fn short_name_is_kept(e: EntryView, b: Seq<u8>)
    requires
        valid_short(b),
        b[0] != 0x2E,
        b.last() != 0x2E,
        e.name == name_field(text::raised(b)),
    ensures
        text::ascii(b),
        plain_name(e.name),
        text::lowered(shown_bytes(e)) == text::lowered(b),
{
    let u = text::raised(b);
    lemma_first_dot(b);
    let dot = first_dot(b);
    let base = if dot < b.len() {
        b.take(dot)
    } else {
        b
    };
    let ext = if dot < b.len() {
        b.skip(dot + 1)
    } else {
        Seq::empty()
    };
    lemma_raised_chars(base);
    lemma_raised_chars(ext);
    assert(dot < b.len() ==> ext.len() > 0);
    assert(u.len() == b.len());
    if dot < b.len() {
        assert(u.take(dot) =~= text::raised(base));
        assert(u.skip(dot + 1) =~= text::raised(ext));
    } else {
        assert(text::raised(ext) =~= Seq::empty());
    }
    let x = text::raised(base);
    let y = text::raised(ext);
    lemma_padded(x, 8);
    lemma_padded(y, 3);
    assert(e.name == padded(x, 8) + padded(y, 3));
    assert(e.name.take(8) =~= padded(x, 8));
    assert(e.name.subrange(8, 11) =~= padded(y, 3));
    assert(text::ascii(b)) by {
        assert forall|i: int| 0 <= i < b.len() implies #[trigger] b[i] < 0x80 by {
            if i < dot {
                assert(base[i] == b[i]);
            } else if i > dot {
                assert(ext[i - dot - 1] == b[i]);
            }
        }
    }
    assert(plain_name(e.name)) by {
        assert(short_char(x[0]));
        assert(e.name[0] == x[0]);
        assert forall|i: int| 0 <= i < e.name.len() implies #[trigger] e.name[i] < 0x80 by {
            if i < x.len() {
                assert(short_char(x[i]));
            } else if 8 <= i < 8 + y.len() {
                assert(short_char(y[i - 8]));
            }
        }
    }
    let p = shown(e.name.take(8), e.nt_reserved & 0x08 != 0);
    let q = shown(e.name.subrange(8, 11), e.nt_reserved & 0x10 != 0);
    assert(text::lowered(text::lowered(x)) =~= text::lowered(x));
    assert(text::lowered(text::lowered(y)) =~= text::lowered(y));
    assert(text::lowered(p) == text::lowered(base));
    assert(text::lowered(q) == text::lowered(ext));
    assert(p.len() == text::lowered(p).len() && q.len() == text::lowered(q).len());
    assert(text::lowered(base).len() == base.len() && text::lowered(ext).len() == ext.len());
    let l = text::lowered(shown_bytes(e));
    assert forall|i: int| 0 <= i < b.len() implies l[i] == text::lowered(b)[i] by {
        if i < base.len() {
            assert(l[i] == text::lowered(p)[i]);
            assert(text::lowered(base)[i] == text::lowered(b)[i]);
        } else if i > base.len() {
            assert(l[i] == text::lowered(q)[i - base.len() - 1]);
            assert(text::lowered(ext)[i - base.len() - 1] == text::lowered(b)[i]);
        }
    }
    assert(l =~= text::lowered(b));
}

impl DirectoryEntry {
    /// The name field has its size.
    pub open spec fn wf(&self) -> bool {
        self.name@.len() == 11
    }

    /// An entry of zeros.
    pub fn zeroed() -> (r: DirectoryEntry)
        ensures
            r.wf(),
            r@ == zero_entry(),
    {
        DirectoryEntry {
            name: zero_vec(11),
            attributes: 0,
            nt_reserved: 0,
            creation_time_tenth: 0,
            creation_time: 0,
            creation_date: 0,
            last_access_date: 0,
            first_cluster_high: 0,
            write_time: 0,
            write_date: 0,
            first_cluster_low: 0,
            file_size: 0,
        }
    }

    /// A copy.
    pub fn duplicate(&self) -> (r: DirectoryEntry)
        ensures
            r@ == self@,
    {
        DirectoryEntry {
            name: copy_vec(self.name.as_slice()),
            attributes: self.attributes,
            nt_reserved: self.nt_reserved,
            creation_time_tenth: self.creation_time_tenth,
            creation_time: self.creation_time,
            creation_date: self.creation_date,
            last_access_date: self.last_access_date,
            first_cluster_high: self.first_cluster_high,
            write_time: self.write_time,
            write_date: self.write_date,
            first_cluster_low: self.first_cluster_low,
            file_size: self.file_size,
        }
    }

    /// Decodes the entry at `off`.
    pub fn decode(s: &[u8], off: usize) -> (e: DirectoryEntry)
        requires
            off + 32 <= s.len(),
        ensures
            e.wf(),
            e@ == dec_entry(s@, off as int),
    {
        DirectoryEntry {
            name: sub_vec(s, off, off + 11),
            attributes: s[off + 11],
            nt_reserved: s[off + 12],
            creation_time_tenth: s[off + 13],
            creation_time: get_u16(s, off + 14),
            creation_date: get_u16(s, off + 16),
            last_access_date: get_u16(s, off + 18),
            first_cluster_high: get_u16(s, off + 20),
            write_time: get_u16(s, off + 22),
            write_date: get_u16(s, off + 24),
            first_cluster_low: get_u16(s, off + 26),
            file_size: get_u32(s, off + 28),
        }
    }

    /// Encodes the entry.
    pub fn encode(&self) -> (out: Vec<u8>)
        requires
            self.wf(),
        ensures
            out@ == enc_entry(self@),
            out@.len() == 32,
    {
        reveal(enc_entry);
        let mut out = copy_vec(self.name.as_slice());
        let head: Vec<u8> = vec![self.attributes, self.nt_reserved, self.creation_time_tenth];
        assert(head@ =~= seq![self.attributes, self.nt_reserved, self.creation_time_tenth]);
        push_slice(&mut out, head.as_slice());
        push_u16(&mut out, self.creation_time);
        push_u16(&mut out, self.creation_date);
        push_u16(&mut out, self.last_access_date);
        push_u16(&mut out, self.first_cluster_high);
        push_u16(&mut out, self.write_time);
        push_u16(&mut out, self.write_date);
        push_u16(&mut out, self.first_cluster_low);
        push_u32(&mut out, self.file_size);
        out
    }

    /// The first cluster.
    pub fn first_cluster(&self) -> (r: u32)
        ensures
            r == first_cluster(self@),
    {
        self.first_cluster_high as u32 * 0x1_0000 + self.first_cluster_low as u32
    }

    /// Sets the first cluster.
    pub fn set_first_cluster(&mut self, c: u32)
        ensures
            final(self)@ == with_cluster(old(self)@, c),
            final(self).name@ == old(self).name@,
    {
        self.first_cluster_high = (c / 0x1_0000) as u16;
        self.first_cluster_low = (c % 0x1_0000) as u16;
    }

    /// Whether this is a directory.
    pub fn is_directory(&self) -> (r: bool)
        ensures
            r == has_attr(self@, ATTR_DIRECTORY),
    {
        self.attributes & ATTR_DIRECTORY != 0
    }

    /// Whether this is hidden.
    pub fn is_hidden(&self) -> (r: bool)
        ensures
            r == has_attr(self@, ATTR_HIDDEN),
    {
        self.attributes & ATTR_HIDDEN != 0
    }

    /// Whether this is a system file.
    pub fn is_system(&self) -> (r: bool)
        ensures
            r == has_attr(self@, ATTR_SYSTEM),
    {
        self.attributes & ATTR_SYSTEM != 0
    }

    /// Whether this is the volume label, or part of a long name.
    pub fn is_volume_label(&self) -> (r: bool)
        ensures
            r == has_attr(self@, ATTR_VOLUME_ID),
    {
        self.attributes & ATTR_VOLUME_ID != 0
    }

    /// Whether this is read-only.
    pub fn is_readonly(&self) -> (r: bool)
        ensures
            r == has_attr(self@, ATTR_READ_ONLY),
    {
        self.attributes & ATTR_READ_ONLY != 0
    }

    /// Whether this has changed since the last backup.
    pub fn is_archive(&self) -> (r: bool)
        ensures
            r == has_attr(self@, ATTR_ARCHIVE),
    {
        self.attributes & ATTR_ARCHIVE != 0
    }

    /// The short name of a file name.
    pub fn string_to_fat_name(filename: &str) -> (r: Vec<u8>)
        ensures
            r@ == fat_name(filename@),
            r@.len() == 11,
            text::ascii(vstd::utf8::encode_utf8(filename@)) && filename@ != seq!['.'] && filename@
                != seq!['.', '.'] ==> r@ == name_field(
                text::raised(vstd::utf8::encode_utf8(filename@)),
            ),
    {
        let n: usize = filename.unicode_len();
        if n == 1 && filename.get_char(0) == '.' {
            let one: Vec<u8> = vec![0x2E];
            assert(one@ =~= seq![0x2Eu8]);
            assert(filename@ =~= seq!['.']);
            return pad(one.as_slice(), 11);
        }
        if n == 2 && filename.get_char(0) == '.' && filename.get_char(1) == '.' {
            let two: Vec<u8> = vec![0x2E, 0x2E];
            assert(two@ =~= seq![0x2Eu8, 0x2E]);
            assert(filename@ =~= seq!['.', '.']);
            return pad(two.as_slice(), 11);
        }
        let upper = string_uppercase(filename);
        proof {
            if text::ascii(vstd::utf8::encode_utf8(filename@)) {
                text::lemma_raised(filename@);
            }
        }
        field_of(upper.as_str().as_bytes())
    }

    /// The name this entry is shown under.
    pub fn fat_name_to_string(&self) -> (r: String)
        requires
            self.wf(),
        ensures
            r@ == entry_name(self@),
            plain_name(self@.name) ==> vstd::utf8::encode_utf8(r@) == shown_bytes(self@),
    {
        proof {
            reveal_strlit(".");
            reveal_strlit("..");
        }
        if self.name[0] == 0x2E && self.name[1] == 0x20 {
            let mut s = String::new();
            s.append(".");
            assert(s@ =~= seq!['.']);
            return s;
        }
        if self.name[0] == 0x2E && self.name[1] == 0x2E && self.name[2] == 0x20 {
            let mut s = String::new();
            s.append("..");
            assert(s@ =~= seq!['.', '.']);
            return s;
        }
        let mut name = copy_vec(self.name.as_slice());
        if name[0] == 0x05 {
            name[0] = 0xE5;
        }
        let b8 = sub_vec(name.as_slice(), 0, 8);
        assert(b8@ =~= name@.take(8));
        let b3 = sub_vec(name.as_slice(), 8, 11);
        let base = show(b8.as_slice(), self.nt_reserved & 0x08 != 0);
        let ext = show(b3.as_slice(), self.nt_reserved & 0x10 != 0);
        let mut out = string_lossy(base.as_slice());
        proof {
            if plain_name(self@.name) {
                lemma_shown_ascii(name@.take(8), self.nt_reserved & 0x08 != 0);
                lemma_shown_ascii(name@.subrange(8, 11), self.nt_reserved & 0x10 != 0);
                text::ascii_is_utf8(base@);
                text::ascii_is_utf8(ext@);
                vstd::utf8::decode_utf8_encode_utf8(base@);
            }
        }
        if ext.len() > 0 {
            out.append(".");
            let e = string_lossy(ext.as_slice());
            out.append(e.as_str());
            assert(out@ =~= text::lossy(base@) + seq!['.'] + text::lossy(ext@));
            proof {
                if plain_name(self@.name) {
                    lemma_joined(base@, ext@);
                }
            }
        }
        out
    }

    /// Sets the short name from a file name.
    pub fn set_name_from_string(&mut self, filename: &str)
        ensures
            final(self).wf(),
            final(self)@ == (EntryView { name: fat_name(filename@), ..old(self)@ }),
    {
        self.name = DirectoryEntry::string_to_fat_name(filename);
    }

    /// Whether the short name of `filename` is this entry's.
    pub fn name_matches(&self, filename: &str) -> (r: bool)
        ensures
            r == (self@.name == fat_name(filename@)),
    {
        let n = DirectoryEntry::string_to_fat_name(filename);
        bytes_eq(self.name.as_slice(), n.as_slice())
    }

    /// Whether a name fits the short form as it stands.
    pub fn is_valid_short_name(filename: &str) -> (r: bool)
        ensures
            r == valid_short(vstd::utf8::encode_utf8(filename@)),
    {
        let b = filename.as_bytes();
        if b.len() == 0 || b.len() > 12 {
            return false;
        }
        if b.len() == 1 && b[0] == 0x2E {
            assert(b@ =~= seq![0x2Eu8]);
            return true;
        }
        if b.len() == 2 && b[0] == 0x2E && b[1] == 0x2E {
            assert(b@ =~= seq![0x2Eu8, 0x2E]);
            return true;
        }
        let dot: usize = find_dot(b);
        if dot < b.len() {
            let base = sub_vec(b, 0, dot);
            let ext = sub_vec(b, dot + 1, b.len());
            assert(base@ =~= b@.take(dot as int));
            assert(ext@ =~= b@.skip(dot + 1));
            base.len() >= 1 && base.len() <= 8 && ext.len() <= 3 && has_valid_fat_chars(
                base.as_slice(),
            ) && has_valid_fat_chars(ext.as_slice())
        } else {
            b.len() <= 8 && has_valid_fat_chars(b)
        }
    }

    /// The checksum that ties long name entries to this one.
    pub fn short_name_checksum(&self) -> (r: u8)
        ensures
            r == name_checksum(self@.name),
    {
        let mut sum: u8 = 0;
        let mut i: usize = 0;
        let ghost n = self.name@;
        assert(n.take(0) =~= Seq::<u8>::empty());
        while i < self.name.len()
            invariant
                i <= self.name.len(),
                n == self.name@,
                sum == name_checksum(n.take(i as int)),
            decreases self.name.len() - i,
        {
            let rot: u32 = sum as u32 / 2 + if sum % 2 == 1 {
                128
            } else {
                0
            };
            sum = ((rot + self.name[i] as u32) % 256) as u8;
            assert(n.take(i + 1).drop_last() =~= n.take(i as int));
            i = i + 1;
        }
        assert(n.take(n.len() as int) =~= n);
        sum
    }

    /// What this entry says of its file.
    pub fn to_file(&self) -> (r: File)
        requires
            self.wf(),
        ensures
            r@ == file_of(self@),
    {
        File {
            name: self.fat_name_to_string(),
            kind: if self.is_directory() {
                FileKind::Directory
            } else {
                FileKind::File
            },
            size: self.file_size as u64,
            attrs: FileAttrs {
                readonly: self.is_readonly(),
                hidden: self.is_hidden(),
                system: self.is_system(),
                archive: self.is_archive(),
            },
            created: Some(
                FileTime {
                    date: self.creation_date,
                    time: self.creation_time,
                    tenth: self.creation_time_tenth,
                },
            ),
            accessed: Some(FileTime { date: self.last_access_date, time: 0, tenth: 0 }),
            modified: Some(FileTime { date: self.write_date, time: self.write_time, tenth: 0 }),
        }
    }
}

/// An entry of zeros.
pub open spec fn zero_entry() -> EntryView {
    EntryView {
        name: bytes::zeros(11),
        attributes: 0,
        nt_reserved: 0,
        creation_time_tenth: 0,
        creation_time: 0,
        creation_date: 0,
        last_access_date: 0,
        first_cluster_high: 0,
        write_time: 0,
        write_date: 0,
        first_cluster_low: 0,
        file_size: 0,
    }
}

/// What an entry says of its file.
pub open spec fn file_of(e: EntryView) -> FileView {
    FileView {
        name: entry_name(e),
        kind: if has_attr(e, ATTR_DIRECTORY) {
            FileKind::Directory
        } else {
            FileKind::File
        },
        size: e.file_size as u64,
        attrs: FileAttrs {
            readonly: has_attr(e, ATTR_READ_ONLY),
            hidden: has_attr(e, ATTR_HIDDEN),
            system: has_attr(e, ATTR_SYSTEM),
            archive: has_attr(e, ATTR_ARCHIVE),
        },
        created: Some(
            FileTime { date: e.creation_date, time: e.creation_time, tenth: e.creation_time_tenth },
        ),
        accessed: Some(FileTime { date: e.last_access_date, time: 0, tenth: 0 }),
        modified: Some(FileTime { date: e.write_date, time: e.write_time, tenth: 0 }),
    }
}

// ---- Long names -----------------------------------------------------------------------

/// A long name entry: thirteen UTF-16 units of a name.
pub struct LongFilenameEntry {
    pub order: u8,
    pub attributes: u8,
    pub entry_type: u8,
    pub checksum: u8,
    pub first_cluster_low: u16,
}

impl LongFilenameEntry {
    /// Decodes the fixed fields of the long name entry at `off`.
    pub fn decode(s: &[u8], off: usize) -> (e: LongFilenameEntry)
        requires
            off + 32 <= s.len(),
        ensures
            e.order == s@[off as int],
            e.attributes == s@[off + 11],
            e.entry_type == s@[off + 12],
            e.checksum == s@[off + 13],
            e.first_cluster_low == bytes::le16(s@, off + 26),
    {
        LongFilenameEntry {
            order: s[off],
            attributes: s[off + 11],
            entry_type: s[off + 12],
            checksum: s[off + 13],
            first_cluster_low: get_u16(s, off + 26),
        }
    }
}

/// The units of a long name, ended by a zero and filled up with ones to a multiple of
/// thirteen.
pub open spec fn lfn_units(name: Seq<char>) -> Seq<u16> {
    let u = text::utf16(name).push(0u16);
    Seq::new(
        lfn_count(name) * 13,
        |i: int|
            if i < u.len() {
                u[i]
            } else {
                0xFFFFu16
            },
    )
}

/// How many long name entries a name takes.
pub open spec fn lfn_count(name: Seq<char>) -> nat {
    ((text::utf16(name).len() + 13) / 13) as nat
}

/// The bytes of units `from..to`.
pub open spec fn unit_bytes(u: Seq<u16>, from: int, to: int) -> Seq<u8>
    decreases to - from,
{
    if from >= to {
        Seq::empty()
    } else {
        unit_bytes(u, from, to - 1) + bytes::bytes16(u[to - 1])
    }
}

/// The long name entry number `idx`, counted from the front of the name.
#[verifier::opaque]
pub open spec fn lfn_entry(name: Seq<char>, checksum: u8, idx: int) -> Seq<u8> {
    let u = lfn_units(name);
    let last = idx + 1 == lfn_count(name);
    let order = ((idx + 1) % 256) as u8;
    seq![if last {
        order | 0x40
    } else {
        order
    }] + unit_bytes(u, 13 * idx, 13 * idx + 5) + seq![ATTR_LONG_NAME, 0u8, checksum] + unit_bytes(
        u,
        13 * idx + 5,
        13 * idx + 11,
    ) + bytes::bytes16(0) + unit_bytes(u, 13 * idx + 11, 13 * idx + 13)
}

/// The long name entries of a name in the order in which they are stored: the end of
/// the name first.
pub open spec fn lfn_entries(name: Seq<char>, checksum: u8) -> Seq<Seq<u8>> {
    Seq::new(lfn_count(name), |i: int| lfn_entry(name, checksum, lfn_count(name) - 1 - i))
}

fn push_units(out: &mut Vec<u8>, u: &Vec<u16>, from: usize, to: usize)
    requires
        from <= to <= u.len(),
    ensures
        final(out)@ == old(out)@ + unit_bytes(u@, from as int, to as int),
        final(out)@.len() == old(out)@.len() + 2 * (to - from),
{
    let mut i: usize = from;
    assert(out@ =~= old(out)@ + unit_bytes(u@, from as int, from as int));
    while i < to
        invariant
            from <= i <= to <= u.len(),
            out@ == old(out)@ + unit_bytes(u@, from as int, i as int),
            out@.len() == old(out)@.len() + 2 * (i - from),
        decreases to - i,
    {
        let ghost before = out@;
        push_u16(out, u[i]);
        assert(out@ =~= old(out)@ + unit_bytes(u@, from as int, i + 1));
        i = i + 1;
    }
}

/// Builds the long name entries of a name.
pub fn build_lfn_entries(name: &str, checksum: u8) -> (r: Vec<Vec<u8>>)
    ensures
        crate::block_page_cache::home(r@) == lfn_entries(name@, checksum),
        forall|i: int| 0 <= i < r@.len() ==> (#[trigger] r@[i])@.len() == 32,
        r@.len() == lfn_count(name@),
{
    let mut units = encode_utf16(name);
    let ghost u0 = units@;
    units.push(0);
    while units.len() % 13 != 0
        invariant
            units@.len() >= u0.len() + 1,
            units@.len() <= (u0.len() + 13) / 13 * 13,
            forall|i: int|
                0 <= i < units@.len() ==> #[trigger] units@[i] == (if i < u0.len() {
                    u0[i]
                } else if i == u0.len() {
                    0
                } else {
                    0xFFFF
                }),
        decreases (u0.len() + 13) / 13 * 13 - units@.len(),
    {
        units.push(0xFFFF);
    }
    let total: usize = units.len() / 13;
    proof {
        assert(units@.len() == total * 13);
        assert(total == lfn_count(name@));
        assert(units@ =~= lfn_units(name@));
    }
    let mut out: Vec<Vec<u8>> = Vec::new();
    let mut i: usize = 0;
    while i < total
        invariant
            i <= total,
            total == lfn_count(name@),
            units@ == lfn_units(name@),
            units@.len() == total * 13,
            units@.len() == units.len(),
            out@.len() == i,
            forall|k: int|
                0 <= k < i ==> (#[trigger] out@[k])@ == lfn_entry(
                    name@,
                    checksum,
                    total - 1 - k,
                ) && out@[k]@.len() == 32,
        decreases total - i,
    {
        reveal(lfn_entry);
        let idx: usize = total - 1 - i;
        assert(13 * idx + 13 <= units.len());
        let order: u8 = ((idx + 1) % 256) as u8;
        let mut e: Vec<u8> = Vec::new();
        e.push(if idx + 1 == total {
            order | 0x40
        } else {
            order
        });
        let ghost head = e@;
        push_units(&mut e, &units, 13 * idx, 13 * idx + 5);
        let mid: Vec<u8> = vec![ATTR_LONG_NAME, 0, checksum];
        assert(mid@ =~= seq![ATTR_LONG_NAME, 0u8, checksum]);
        push_slice(&mut e, mid.as_slice());
        push_units(&mut e, &units, 13 * idx + 5, 13 * idx + 11);
        push_u16(&mut e, 0);
        push_units(&mut e, &units, 13 * idx + 11, 13 * idx + 13);
        assert(head =~= seq![head[0]]);
        assert(e@ =~= lfn_entry(name@, checksum, idx as int));
        out.push(e);
        i = i + 1;
    }
    assert(crate::block_page_cache::home(out@) =~= lfn_entries(name@, checksum));
    out
}

} // verus!
