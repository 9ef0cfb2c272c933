//! Directory contents: a tiling of variable-length records, each a 12-byte
//! header followed by the entry's name.
use vstd::prelude::*;
use crate::bytes;
use crate::bytes::{bytes_eq, get_u16, get_u64, push_slice, push_u16, push_u64, put_u16, sub_vec, write_at, zero_vec};
use crate::text::string_from_utf8;
use super::layout::{BLOCK_SIZE, FT_DIR};

verus! {

/// Bytes of a directory record that precede the name.
pub const DIR_ENTRY_HEADER_SIZE: usize = 12;

/// The inode number of the record at `off`, 0 for a deleted one.
pub open spec fn rec_ino(d: Seq<u8>, off: int) -> u64 {
    bytes::le64(d, off)
}

/// The length of the record at `off`.
pub open spec fn rec_len(d: Seq<u8>, off: int) -> int {
    bytes::le16(d, off + 8) as int
}

/// The name of the record at `off`.
pub open spec fn rec_name(d: Seq<u8>, off: int) -> Seq<u8> {
    d.subrange(off + 12, off + 12 + d[off + 10])
}

/// Bytes a live record with a name of `n` bytes needs: header and name, rounded
/// up to a multiple of four.
pub open spec fn min_size(n: int) -> int {
    (12 + n + 3) / 4 * 4
}

/// Bytes the record at `off` itself needs.
pub open spec fn rec_min(d: Seq<u8>, off: int) -> int {
    if rec_ino(d, off) != 0 {
        min_size(d[off + 10] as int)
    } else {
        0
    }
}

/// A directory entry as it is listed.
#[verifier::ext_equal]
pub struct EntryView {
    pub name: Seq<char>,
    pub ino: u64,
    pub file_type: u8,
}

/// The entries listed from `off` on: the live records with a valid name, up to
/// the first malformed record.
pub open spec fn list_from(d: Seq<u8>, off: int) -> Seq<EntryView>
    decreases d.len() - off,
{
    if off < 0 || off + 12 > d.len() || rec_len(d, off) < 12 || off + rec_len(d, off) > d.len() {
        Seq::empty()
    } else {
        let rest = list_from(d, off + rec_len(d, off));
        if rec_ino(d, off) != 0 && off + 12 + d[off + 10] <= d.len() && vstd::utf8::valid_utf8(
            rec_name(d, off),
        ) {
            seq![
                EntryView {
                    name: vstd::utf8::decode_utf8(rec_name(d, off)),
                    ino: rec_ino(d, off),
                    file_type: d[off + 11],
                },
            ] + rest
        } else {
            rest
        }
    }
}

/// What looking `name` up from `off` on finds: inode number and entry type.
pub open spec fn lookup_from(d: Seq<u8>, off: int, name: Seq<u8>) -> Option<(u64, u8)>
    decreases d.len() - off,
{
    if off < 0 || off + 12 > d.len() || rec_len(d, off) < 12 || off + rec_len(d, off) > d.len() {
        None
    } else if rec_ino(d, off) != 0 && off + 12 + d[off + 10] <= d.len() && rec_name(d, off)
        == name {
        Some((rec_ino(d, off), d[off + 11]))
    } else {
        lookup_from(d, off + rec_len(d, off), name)
    }
}

/// How often a name is entered from `off` on.
pub open spec fn times(d: Seq<u8>, off: int, name: Seq<u8>) -> int
    decreases d.len() - off,
{
    if off < 0 || off + 12 > d.len() || rec_len(d, off) < 12 || off + rec_len(d, off) > d.len() {
        0
    } else if rec_ino(d, off) != 0 && off + 12 + d[off + 10] <= d.len() && rec_name(d, off)
        == name {
        1 + times(d, off + rec_len(d, off), name)
    } else {
        times(d, off + rec_len(d, off), name)
    }
}

/// The first record from `off` on with at least `needed` bytes to spare.
pub open spec fn slot_from(d: Seq<u8>, off: int, needed: int) -> Option<int>
    decreases d.len() + 0x1_0000 - off,
{
    if off < 0 || off + 12 > d.len() || rec_len(d, off) < 12 {
        None
    } else if rec_len(d, off) - rec_min(d, off) >= needed {
        Some(off)
    } else {
        slot_from(d, off + rec_len(d, off), needed)
    }
}

/// The bytes of a record, up to the end of its name.
pub open spec fn enc_dirent(ino: u64, len: int, file_type: u8, name: Seq<u8>) -> Seq<u8> {
    bytes::bytes64(ino) + bytes::bytes16(len as u16) + seq![name.len() as u8, file_type] + name
}

/// `d` with an entry placed in the spare room of the record at `off`: a live
/// record is cut down to what it needs and the new one follows it, a deleted one
/// is replaced. Nothing when the record runs past the end of `d`.
pub open spec fn place(
    d: Seq<u8>,
    off: int,
    ino: u64,
    file_type: u8,
    name: Seq<u8>,
) -> Option<Seq<u8>> {
    let m = rec_min(d, off);
    let rest = rec_len(d, off) - m;
    if off + m + rest > d.len() {
        None
    } else {
        let d1 = if rec_ino(d, off) != 0 {
            bytes::splice(d, off + 8, bytes::bytes16(m as u16))
        } else {
            d
        };
        Some(bytes::splice(d1, off + m, enc_dirent(ino, rest, file_type, name)))
    }
}

/// The record to remove for `name`, looking from `off` on, together with the end
/// of the record before it (`prev`, 0 when there is none).
pub open spec fn find_from(d: Seq<u8>, off: int, prev: int, name: Seq<u8>) -> Option<(int, int)>
    decreases d.len() + 0x1_0000 - off,
{
    if off < 0 || off + 12 > d.len() || rec_len(d, off) < 12 {
        None
    } else if rec_ino(d, off) != 0 && off + 12 + d[off + 10] <= d.len() && rec_name(d, off)
        == name {
        Some((off, prev))
    } else {
        find_from(d, off + rec_len(d, off), off + rec_len(d, off), name)
    }
}

/// The length of the record that ends at `end`, walking from `off`; 0 when none
/// does.
pub open spec fn prev_len_from(d: Seq<u8>, off: int, end: int) -> int
    decreases end + 0x1_0000 - off,
{
    if off < 0 || off >= end || off + 12 > d.len() || rec_len(d, off) < 12 {
        0
    } else if off + rec_len(d, off) == end {
        rec_len(d, off)
    } else {
        prev_len_from(d, off + rec_len(d, off), end)
    }
}

/// `d` with the record at `off` deleted and, when a record of the same block ends
/// where it starts, that record extended over it.
pub open spec fn removed(d: Seq<u8>, off: int, prev: int) -> Seq<u8> {
    let d1 = bytes::splice(d, off, bytes::zeros(8));
    let l = prev_len_from(d1, prev / 4096 * 4096, prev);
    if prev > 0 && l > 0 {
        bytes::splice(
            d1,
            prev - l + 8,
            bytes::bytes16(((l + rec_len(d, off)) % 0x1_0000) as u16),
        )
    } else {
        d1
    }
}

/// The `..` record from `off` on.
pub open spec fn dotdot_from(d: Seq<u8>, off: int) -> Option<int>
    decreases d.len() + 0x1_0000 - off,
{
    if off < 0 || off + 12 > d.len() || rec_len(d, off) < 12 {
        None
    } else if rec_ino(d, off) != 0 && d[off + 10] == 2 && off + 14 <= d.len() && d[off + 12]
        == 0x2E && d[off + 13] == 0x2E {
        Some(off)
    } else {
        dotdot_from(d, off + rec_len(d, off))
    }
}

/// The first block of a new directory: `.` and `..`.
#[verifier::opaque]
pub open spec fn new_dir_block(ino: u64, parent: u64) -> Seq<u8> {
    bytes::splice(
        bytes::splice(
            bytes::zeros(BLOCK_SIZE as int),
            0,
            enc_dirent(ino, min_size(1), FT_DIR, seq![0x2Eu8]),
        ),
        min_size(1),
        enc_dirent(parent, BLOCK_SIZE - min_size(1), FT_DIR, seq![0x2Eu8, 0x2Eu8]),
    )
}

// ---- Laws -----------------------------------------------------------------------

/// A well-formed directory from `off` on: records tile it to the end, none
/// crosses a block boundary, and each live one holds its name.
pub open spec fn tiled(d: Seq<u8>, off: int) -> bool
    decreases d.len() - off,
{
    off == d.len() || (0 <= off && off + 12 <= d.len() && rec_len(d, off) >= 12 && off + rec_len(
        d,
        off,
    ) <= d.len() && off / 4096 == (off + rec_len(d, off) - 1) / 4096 && rec_min(d, off) <= rec_len(
        d,
        off,
    ) && tiled(d, off + rec_len(d, off)))
}

/// The listing of an entry.
pub open spec fn listed(ino: u64, file_type: u8, name: Seq<u8>) -> EntryView {
    EntryView { name: vstd::utf8::decode_utf8(name), ino, file_type }
}

/// Whether listing `b` is listing `a` with `e` put in at place `k`.
pub open spec fn put_in(a: Seq<EntryView>, b: Seq<EntryView>, e: EntryView, k: int) -> bool {
    0 <= k <= a.len() && b == a.insert(k, e)
}

/// Whether listing `b` is listing `a` with `e` put in at some place.
pub open spec fn one_more(a: Seq<EntryView>, b: Seq<EntryView>, e: EntryView) -> bool {
    exists|k: int| put_in(a, b, e, k)
}

/// What precedes both listings alike changes nothing.
proof fn lemma_one_more(a: Seq<EntryView>, b: Seq<EntryView>, e: EntryView, pre: Seq<EntryView>)
    requires
        one_more(a, b, e),
    ensures
        one_more(pre + a, pre + b, e),
{
    let k = choose|k: int| put_in(a, b, e, k);
    assert(pre + b =~= (pre + a).insert(pre.len() + k, e));
    assert(put_in(pre + a, pre + b, e, pre.len() + k));
}

/// What the record at `off` contributes to a listing.
pub open spec fn record_listing(d: Seq<u8>, off: int) -> Seq<EntryView> {
    if rec_ino(d, off) != 0 && off + 12 + d[off + 10] <= d.len() && vstd::utf8::valid_utf8(
        rec_name(d, off),
    ) {
        seq![listed(rec_ino(d, off), d[off + 11], rec_name(d, off))]
    } else {
        Seq::empty()
    }
}

proof fn lemma_list_step(d: Seq<u8>, off: int)
    requires
        0 <= off,
        off + 12 <= d.len(),
        12 <= rec_len(d, off),
        off + rec_len(d, off) <= d.len(),
    ensures
        list_from(d, off) == record_listing(d, off) + list_from(d, off + rec_len(d, off)),
{
    assert(Seq::<EntryView>::empty() + list_from(d, off + rec_len(d, off)) =~= list_from(
        d,
        off + rec_len(d, off),
    ));
}

proof fn lemma_same_tail(d: Seq<u8>, e: Seq<u8>, off: int, name: Seq<u8>)
    requires
        d.len() == e.len(),
        0 <= off,
        forall|i: int| off <= i < d.len() ==> d[i] == e[i],
    ensures
        lookup_from(d, off, name) == lookup_from(e, off, name),
        times(d, off, name) == times(e, off, name),
        list_from(d, off) == list_from(e, off),
        tiled(d, off) == tiled(e, off),
    decreases d.len() - off,
{
    if off + 12 <= d.len() {
        lemma_same_record(d, e, off);
        if rec_len(d, off) >= 12 && off + rec_len(d, off) <= d.len() {
            lemma_same_tail(d, e, off + rec_len(d, off), name);
        }
        if off + 12 + d[off + 10] <= d.len() {
            assert(rec_name(d, off) =~= rec_name(e, off));
        }
    }
}

proof fn lemma_same_record(d: Seq<u8>, e: Seq<u8>, off: int)
    requires
        0 <= off,
        off + 12 <= d.len(),
        off + 12 <= e.len(),
        forall|i: int| off <= i < off + 12 ==> d[i] == e[i],
    ensures
        rec_ino(d, off) == rec_ino(e, off),
        rec_len(d, off) == rec_len(e, off),
        d[off + 10] == e[off + 10],
        d[off + 11] == e[off + 11],
        rec_min(d, off) == rec_min(e, off),
{
    assert(d.subrange(off, off + 12) =~= e.subrange(off, off + 12));
    assert(d.subrange(off, off + 8) =~= e.subrange(off, off + 8));
    assert(d.subrange(off + 8, off + 10) =~= e.subrange(off + 8, off + 10));
    bytes::lemma_le_same(d, off, e, off, 8);
    bytes::lemma_le_same(d, off + 8, e, off + 8, 2);
}

/// What a freshly placed record reads back as.
proof fn lemma_dirent(d: Seq<u8>, off: int, ino: u64, len: int, file_type: u8, name: Seq<u8>)
    requires
        0 <= off,
        name.len() <= 255,
        off + 12 + name.len() <= d.len(),
        0 <= len < 0x1_0000,
    ensures
        ({
            let e = bytes::splice(d, off, enc_dirent(ino, len, file_type, name));
            &&& rec_ino(e, off) == ino
            &&& rec_len(e, off) == len
            &&& e[off + 10] == name.len()
            &&& e[off + 11] == file_type
            &&& rec_name(e, off) == name
            &&& e.len() == d.len()
        }),
{
    let r = enc_dirent(ino, len, file_type, name);
    let e = bytes::splice(d, off, r);
    assert(r.len() == 12 + name.len());
    bytes::splice_reads_back(d, off, r);
    assert(r.subrange(0, 8) =~= bytes::bytes64(ino));
    assert(r.subrange(8, 10) =~= bytes::bytes16(len as u16));
    bytes::field64(e, off, r, 0, ino);
    bytes::field16(e, off, r, 8, len as u16);
    assert(r[10] == name.len() as u8);
    assert(r[11] == file_type);
    assert(e[off + 10] == r[10]);
    assert(e[off + 11] == r[11]);
    assert(rec_name(e, off) =~= name) by {
        assert forall|i: int| 0 <= i < name.len() implies rec_name(e, off)[i] == name[i] by {
            assert(e[off + 12 + i] == r[12 + i]);
        }
    }
}

#[verifier::spinoff_prover]
#[verifier::rlimit(40)]
proof fn lemma_place_here(
    d: Seq<u8>,
    off: int,
    ino: u64,
    file_type: u8,
    name: Seq<u8>,
    other: Seq<u8>,
)
    requires
        tiled(d, off),
        0 <= off < d.len(),
        ino != 0,
        name.len() <= 255,
        rec_len(d, off) - rec_min(d, off) >= min_size(name.len() as int),
    ensures
        place(d, off, ino, file_type, name) matches Some(e) && e.len() == d.len() && tiled(e, off)
            && lookup_from(e, off, other) == (if other == name && lookup_from(d, off, name) is None {
            Some((ino, file_type))
        } else if other == name && !(rec_ino(d, off) != 0 && rec_name(d, off) == name) {
            Some((ino, file_type))
        } else {
            lookup_from(d, off, other)
        }),
        times(place(d, off, ino, file_type, name)->Some_0, off, other) == times(d, off, other) + (
        if other == name {
            1int
        } else {
            0
        }),
        vstd::utf8::valid_utf8(name) ==> one_more(
            list_from(d, off),
            list_from(place(d, off, ino, file_type, name)->Some_0, off),
            listed(ino, file_type, name),
        ),
        forall|i: int|
            0 <= i < off ==> (#[trigger] place(d, off, ino, file_type, name)->Some_0[i]) == d[i],
{
    let m = rec_min(d, off);
    let rl = rec_len(d, off);
    let rest = rl - m;
    let d1 = if rec_ino(d, off) != 0 {
        bytes::splice(d, off + 8, bytes::bytes16(m as u16))
    } else {
        d
    };
    let r = enc_dirent(ino, rest, file_type, name);
    let e = bytes::splice(d1, off + m, r);
    assert(r.len() == 12 + name.len());
    lemma_dirent(d1, off + m, ino, rest, file_type, name);
    assert(forall|i: int| off + rl <= i < d.len() ==> e[i] == d[i]);
    lemma_same_tail(d, e, off + rl, other);
    lemma_same_tail(d, e, off + rl, name);
    if rec_ino(d, off) != 0 {
        // The old record keeps everything but its length.
        let nl = d[off + 10] as int;
        assert(12 <= m && 12 + nl <= m);
        assert(e[off + 10] == d[off + 10] && e[off + 11] == d[off + 11]);
        assert(e.subrange(off, off + 8) =~= d.subrange(off, off + 8));
        bytes::lemma_le_same(e, off, d, off, 8);
        assert(rec_ino(e, off) == rec_ino(d, off));
        assert(e.subrange(off + 8, off + 10) =~= bytes::bytes16(m as u16));
        bytes::le16_round_trip(e, off + 8, m as u16);
        assert(rec_len(e, off) == m);
        assert(rec_name(e, off) =~= rec_name(d, off));
        assert(rec_min(e, off) == m);
        assert(off / 4096 == (off + m) / 4096 && (off + m) / 4096 == (off + rl - 1) / 4096);
        assert(rec_min(e, off + m) == min_size(name.len() as int));
        assert(tiled(e, off + m));
        assert(off / 4096 == (off + m - 1) / 4096);
        assert(tiled(e, off));
        assert(lookup_from(e, off + m, other) == (if name == other {
            Some((ino, file_type))
        } else {
            lookup_from(e, off + rl, other)
        }));
        assert(times(e, off + m, other) == times(e, off + rl, other) + (if name == other {
            1int
        } else {
            0
        }));
    }
    if vstd::utf8::valid_utf8(name) {
        let fresh = listed(ino, file_type, name);
        let tail = list_from(d, off + rl);
        lemma_list_step(d, off);
        lemma_list_step(e, off + m);
        assert(list_from(e, off + m) == seq![fresh] + tail);
        assert(seq![fresh] + tail =~= tail.insert(0, fresh));
        assert(put_in(tail, list_from(e, off + m), fresh, 0));
        if rec_ino(d, off) != 0 {
            lemma_list_step(e, off);
            assert(record_listing(e, off) == record_listing(d, off));
            lemma_one_more(tail, list_from(e, off + m), fresh, record_listing(d, off));
        } else {
            assert(list_from(d, off) =~= tail);
        }
    }
}

proof fn lemma_place_walk(
    d: Seq<u8>,
    from: int,
    ino: u64,
    file_type: u8,
    name: Seq<u8>,
    other: Seq<u8>,
)
    requires
        0 <= from,
        tiled(d, from),
        ino != 0,
        name.len() <= 255,
        slot_from(d, from, min_size(name.len() as int)) is Some,
        lookup_from(d, from, name) is None,
    ensures
        ({
            let off = slot_from(d, from, min_size(name.len() as int))->Some_0;
            &&& from <= off
            &&& place(d, off, ino, file_type, name) matches Some(e) && e.len() == d.len() && tiled(
                e,
                from,
            ) && lookup_from(e, from, other) == (if other == name {
                Some((ino, file_type))
            } else {
                lookup_from(d, from, other)
            }) && times(e, from, other) == times(d, from, other) + (if other == name {
                1int
            } else {
                0
            }) && (vstd::utf8::valid_utf8(name) ==> one_more(
                list_from(d, from),
                list_from(e, from),
                listed(ino, file_type, name),
            )) && (forall|i: int| 0 <= i < off ==> #[trigger] e[i] == d[i])
        }),
    decreases d.len() - from,
{
    let needed = min_size(name.len() as int);
    let off = slot_from(d, from, needed)->Some_0;
    if rec_len(d, from) - rec_min(d, from) >= needed {
        lemma_place_here(d, from, ino, file_type, name, other);
    } else {
        let nx = from + rec_len(d, from);
        lemma_place_walk(d, nx, ino, file_type, name, other);
        let e = place(d, off, ino, file_type, name)->Some_0;
        lemma_same_record(d, e, from);
        if rec_ino(d, from) != 0 {
            assert(rec_name(d, from) =~= rec_name(e, from));
        }
        if vstd::utf8::valid_utf8(name) {
            lemma_list_step(d, from);
            lemma_list_step(e, from);
            lemma_one_more(
                list_from(d, nx),
                list_from(e, nx),
                listed(ino, file_type, name),
                record_listing(d, from),
            );
        }
    }
}

/// Adding an entry to a well-formed directory that lacks the name leaves a
/// well-formed directory in which the name finds the new entry and every other
/// name finds what it found before. The listing has the new entry more.
pub proof fn insert_then_lookup(
    d: Seq<u8>,
    ino: u64,
    file_type: u8,
    name: Seq<u8>,
    other: Seq<u8>,
)
    requires
        tiled(d, 0),
        ino != 0,
        name.len() <= 255,
        slot_from(d, 0, min_size(name.len() as int)) is Some,
        lookup_from(d, 0, name) is None,
    ensures
        place(
            d,
            slot_from(d, 0, min_size(name.len() as int))->Some_0,
            ino,
            file_type,
            name,
        ) matches Some(e) && tiled(e, 0) && lookup_from(e, 0, name) == Some((ino, file_type))
            && times(e, 0, name) == times(d, 0, name) + 1 && (other != name ==> lookup_from(
            e,
            0,
            other,
        ) == lookup_from(d, 0, other) && times(e, 0, other) == times(d, 0, other)) && (
        vstd::utf8::valid_utf8(name) ==> one_more(
            list_from(d, 0),
            list_from(e, 0),
            listed(ino, file_type, name),
        )),
{
    lemma_place_walk(d, 0, ino, file_type, name, name);
    lemma_place_walk(d, 0, ino, file_type, name, other);
}

/// A block that holds a single entry.
pub open spec fn entry_block(ino: u64, file_type: u8, name: Seq<u8>) -> Seq<u8> {
    bytes::splice(bytes::zeros(BLOCK_SIZE as int), 0, enc_dirent(ino, 4096, file_type, name))
}

proof fn lemma_append_walk(
    d: Seq<u8>,
    off: int,
    ino: u64,
    file_type: u8,
    name: Seq<u8>,
    other: Seq<u8>,
)
    requires
        0 <= off,
        tiled(d, off),
        d.len() % 4096 == 0,
        ino != 0,
        name.len() <= 255,
    ensures
        ({
            let e = d + entry_block(ino, file_type, name);
            &&& tiled(e, off)
            &&& lookup_from(e, off, other) == (match lookup_from(d, off, other) {
                Some(x) => Some(x),
                None => if other == name {
                    Some((ino, file_type))
                } else {
                    None
                },
            })
            &&& times(e, off, other) == times(d, off, other) + (if other == name {
                1int
            } else {
                0
            })
            &&& vstd::utf8::valid_utf8(name) ==> one_more(
                list_from(d, off),
                list_from(e, off),
                listed(ino, file_type, name),
            )
        }),
    decreases d.len() - off,
{
    let b = entry_block(ino, file_type, name);
    let e = d + b;
    if off == d.len() {
        let r = enc_dirent(ino, 4096, file_type, name);
        assert(r.len() == 12 + name.len());
        let base = d + bytes::zeros(BLOCK_SIZE as int);
        assert(bytes::splice(base, off, r) =~= e);
        lemma_dirent(base, off, ino, 4096, file_type, name);
        assert(rec_len(e, off) == 4096);
        assert(tiled(e, off + 4096));
        assert(rec_min(e, off) == min_size(name.len() as int));
        assert(lookup_from(e, off + 4096, other) is None);
        assert(lookup_from(d, off, other) is None);
        assert(times(e, off + 4096, other) == 0);
        if vstd::utf8::valid_utf8(name) {
            lemma_list_step(e, off);
            assert(list_from(e, off) =~= list_from(d, off).insert(0, listed(ino, file_type, name)));
            assert(put_in(list_from(d, off), list_from(e, off), listed(ino, file_type, name), 0));
        }
    } else {
        let nx = off + rec_len(d, off);
        lemma_append_walk(d, nx, ino, file_type, name, other);
        assert(forall|k: int| 0 <= k < d.len() ==> e[k] == d[k]);
        lemma_same_record(d, e, off);
        if rec_ino(d, off) != 0 {
            assert(rec_name(d, off) =~= rec_name(e, off));
        }
        if vstd::utf8::valid_utf8(name) {
            lemma_list_step(d, off);
            lemma_list_step(e, off);
            lemma_one_more(
                list_from(d, nx),
                list_from(e, nx),
                listed(ino, file_type, name),
                record_listing(d, off),
            );
        }
    }
}

/// Appending a block with a single entry to a well-formed directory that lacks the name
/// leaves a well-formed directory in which the name finds the new entry and every other
/// name finds what it found before. The listing has the new entry more.
pub proof fn append_then_lookup(
    d: Seq<u8>,
    ino: u64,
    file_type: u8,
    name: Seq<u8>,
    other: Seq<u8>,
)
    requires
        tiled(d, 0),
        d.len() % 4096 == 0,
        ino != 0,
        name.len() <= 255,
        lookup_from(d, 0, name) is None,
    ensures
        ({
            let e = d + entry_block(ino, file_type, name);
            &&& tiled(e, 0)
            &&& lookup_from(e, 0, name) == Some((ino, file_type))
            &&& times(e, 0, name) == times(d, 0, name) + 1
            &&& other != name ==> lookup_from(e, 0, other) == lookup_from(d, 0, other) && times(
                e,
                0,
                other,
            ) == times(d, 0, other)
            &&& vstd::utf8::valid_utf8(name) ==> one_more(
                list_from(d, 0),
                list_from(e, 0),
                listed(ino, file_type, name),
            )
        }),
{
    lemma_append_walk(d, 0, ino, file_type, name, name);
    lemma_append_walk(d, 0, ino, file_type, name, other);
}

/// A name is found exactly if it is entered.
pub proof fn entered_is_found(d: Seq<u8>, off: int, name: Seq<u8>)
    ensures
        times(d, off, name) >= 0,
        lookup_from(d, off, name) is Some <==> times(d, off, name) > 0,
    decreases d.len() - off,
{
    if !(off < 0 || off + 12 > d.len() || rec_len(d, off) < 12 || off + rec_len(d, off)
        > d.len()) {
        entered_is_found(d, off + rec_len(d, off), name);
    }
}

proof fn lemma_find(d: Seq<u8>, from: int, prev: int, name: Seq<u8>)
    requires
        0 <= from,
        0 <= prev <= from,
        tiled(d, from),
    ensures
        find_from(d, from, prev, name) is Some <==> lookup_from(d, from, name) is Some,
        find_from(d, from, prev, name) matches Some((off, p)) ==> from <= off && off + 12 <= d.len()
            && (off == from ==> p == prev) && (off > from ==> p == off) && rec_ino(d, off) != 0
            && rec_name(d, off) == name && lookup_from(d, from, name) == Some(
            (rec_ino(d, off), d[off + 11]),
        ),
    decreases d.len() - from,
{
    if from < d.len() {
        let nx = from + rec_len(d, from);
        if !(rec_ino(d, from) != 0 && rec_name(d, from) == name) {
            lemma_find(d, nx, nx, name);
        }
    }
}

/// Whether a walk from `from` visits a record at `off`.
pub open spec fn visits(d: Seq<u8>, from: int, off: int) -> bool
    decreases d.len() - from,
{
    from == off || (0 <= from && from + 12 <= d.len() && rec_len(d, from) >= 12 && from + rec_len(
        d,
        from,
    ) <= d.len() && visits(d, from + rec_len(d, from), off))
}

proof fn lemma_visits_tiled(d: Seq<u8>, from: int, off: int)
    requires
        tiled(d, from),
        visits(d, from, off),
    ensures
        tiled(d, off),
        from <= off,
    decreases d.len() - from,
{
    if from != off {
        lemma_visits_tiled(d, from + rec_len(d, from), off);
    }
}

proof fn lemma_find_visits(d: Seq<u8>, from: int, prev: int, name: Seq<u8>)
    requires
        0 <= from,
        tiled(d, from),
    ensures
        find_from(d, from, prev, name) matches Some((off, p)) ==> visits(d, from, off),
    decreases d.len() - from,
{
    if from < d.len() && !(rec_ino(d, from) != 0 && rec_name(d, from) == name) {
        let nx = from + rec_len(d, from);
        lemma_find_visits(d, nx, nx, name);
    }
}

/// Deleting a visited record: names other than its own are found as before, and
/// the name itself is found as it would be after the record.
proof fn lemma_cleared(d: Seq<u8>, from: int, off: int, other: Seq<u8>)
    requires
        0 <= from <= off,
        off + 12 <= d.len(),
        tiled(d, from),
        visits(d, from, off),
    ensures
        ({
            let e = bytes::splice(d, off, bytes::zeros(8));
            &&& e.len() == d.len()
            &&& tiled(e, from)
            &&& visits(e, from, off)
            &&& rec_len(e, off) == rec_len(d, off)
            &&& rec_ino(e, off) == 0
            &&& rec_name(d, off) != other ==> lookup_from(e, from, other) == lookup_from(
                d,
                from,
                other,
            ) && times(e, from, other) == times(d, from, other)
            &&& rec_ino(d, off) != 0 && rec_name(d, off) == other ==> times(e, from, other)
                == times(d, from, other) - 1
            &&& (find_from(d, from, off, other) is Some && find_from(d, from, off, other)->Some_0.0
                == off) ==> lookup_from(e, from, other) == lookup_from(
                d,
                off + rec_len(d, off),
                other,
            )
            &&& rec_ino(d, off) != 0 && vstd::utf8::valid_utf8(rec_name(d, off)) ==> one_more(
                list_from(e, from),
                list_from(d, from),
                listed(rec_ino(d, off), d[off + 11], rec_name(d, off)),
            )
        }),
    decreases d.len() - from,
{
    let e = bytes::splice(d, off, bytes::zeros(8));
    if from == off {
        let nx = off + rec_len(d, off);
        assert(e.subrange(off + 8, off + 10) =~= d.subrange(off + 8, off + 10));
        bytes::lemma_le_same(d, off + 8, e, off + 8, 2);
        lemma_same_tail(d, e, nx, other);
        assert(rec_ino(e, off) == 0);
        if rec_ino(d, off) != 0 && vstd::utf8::valid_utf8(rec_name(d, off)) {
            let gone = listed(rec_ino(d, off), d[off + 11], rec_name(d, off));
            lemma_list_step(d, off);
            lemma_list_step(e, off);
            assert(list_from(e, off) =~= list_from(d, nx));
            assert(list_from(d, off) =~= list_from(e, off).insert(0, gone));
            assert(put_in(list_from(e, off), list_from(d, off), gone, 0));
        }
    } else {
        let nx = from + rec_len(d, from);
        lemma_visits_tiled(d, nx, off);
        lemma_cleared(d, nx, off, other);
        lemma_same_record(d, e, from);
        if rec_ino(d, from) != 0 {
            assert(rec_name(d, from) =~= rec_name(e, from));
        }
        lemma_find_prev_irrelevant(d, nx, nx, off, other);
        if rec_ino(d, off) != 0 && vstd::utf8::valid_utf8(rec_name(d, off)) {
            lemma_list_step(d, from);
            lemma_list_step(e, from);
            lemma_one_more(
                list_from(e, nx),
                list_from(d, nx),
                listed(rec_ino(d, off), d[off + 11], rec_name(d, off)),
                record_listing(d, from),
            );
        }
    }
}

proof fn lemma_find_prev_irrelevant(d: Seq<u8>, from: int, p1: int, p2: int, name: Seq<u8>)
    ensures
        find_from(d, from, p1, name) is Some == find_from(d, from, p2, name) is Some,
        find_from(d, from, p1, name) matches Some((o, p)) ==> find_from(d, from, p2, name)->Some_0.0
            == o,
{
}

/// A walk over a well-formed directory visits the start of every block.
proof fn lemma_visits_block(d: Seq<u8>, from: int, b: int)
    requires
        tiled(d, from),
        0 <= from <= b < d.len(),
        b % 4096 == 0,
    ensures
        visits(d, from, b),
    decreases d.len() - from,
{
    if from < b {
        let nx = from + rec_len(d, from);
        assert(nx <= b) by {
            assert(from / 4096 < b / 4096);
            assert((nx - 1) / 4096 < b / 4096);
        }
        lemma_visits_block(d, nx, b);
    }
}

proof fn lemma_visits_trans(d: Seq<u8>, a: int, b: int, c: int)
    requires
        visits(d, a, b),
        visits(d, b, c),
    ensures
        visits(d, a, c),
    decreases d.len() - a,
{
    if a != b {
        lemma_visits_trans(d, a + rec_len(d, a), b, c);
    }
}

/// The record [`prev_len_from`] reports is one the walk visits.
proof fn lemma_prev(d: Seq<u8>, from: int, end: int)
    requires
        0 <= from,
        end <= d.len(),
        prev_len_from(d, from, end) > 0,
    ensures
        ({
            let p = end - prev_len_from(d, from, end);
            from <= p && p + 12 <= end && visits(d, from, p) && rec_len(d, p) == end - p
        }),
    decreases end + 0x1_0000 - from,
{
    if from + rec_len(d, from) != end {
        lemma_prev(d, from + rec_len(d, from), end);
    }
}

/// Extending a record over the deleted one that follows it changes no lookup.
#[verifier::spinoff_prover]
#[verifier::rlimit(40)]
proof fn lemma_merged(d: Seq<u8>, from: int, p: int, off: int, other: Seq<u8>)
    requires
        0 <= from <= p,
        tiled(d, from),
        visits(d, from, p),
        p + 12 <= off,
        off + 12 <= d.len(),
        p + rec_len(d, p) == off,
        rec_ino(d, off) == 0,
        p / 4096 == off / 4096,
    ensures
        ({
            let e = bytes::splice(
                d,
                p + 8,
                bytes::bytes16((rec_len(d, p) + rec_len(d, off)) as u16),
            );
            tiled(e, from) && lookup_from(e, from, other) == lookup_from(d, from, other) && times(
                e,
                from,
                other,
            ) == times(d, from, other) && list_from(e, from) == list_from(d, from)
        }),
    decreases d.len() - from,
{
    lemma_visits_tiled(d, from, p);
    let sum = rec_len(d, p) + rec_len(d, off);
    let e = bytes::splice(d, p + 8, bytes::bytes16(sum as u16));
    assert(tiled(d, off));
    assert(sum <= 4096);
    if from == p {
        assert(e.subrange(p, p + 8) =~= d.subrange(p, p + 8));
        bytes::lemma_le_same(e, p, d, p, 8);
        assert(e.subrange(p + 8, p + 10) =~= bytes::bytes16(sum as u16));
        bytes::le16_round_trip(e, p + 8, sum as u16);
        assert(rec_len(e, p) == sum);
        lemma_same_tail(d, e, off + rec_len(d, off), other);
        assert(times(d, off, other) == times(d, off + rec_len(d, off), other));
        if rec_ino(d, p) != 0 {
            assert(rec_name(d, p) =~= rec_name(e, p));
        }
        assert(list_from(d, off) == list_from(d, off + rec_len(d, off)));
    } else {
        let nx = from + rec_len(d, from);
        lemma_visits_tiled(d, nx, p);
        lemma_merged(d, nx, p, off, other);
        lemma_same_record(d, e, from);
        if rec_ino(d, from) != 0 {
            assert(rec_name(d, from) =~= rec_name(e, from));
        }
    }
}

/// [`lemma_merged`] for the record that [`prev_len_from`] reports.
#[verifier::spinoff_prover]
#[verifier::rlimit(80)]
proof fn lemma_merge_prev(c: Seq<u8>, off: int, other: Seq<u8>)
    requires
        tiled(c, 0),
        visits(c, 0, off),
        0 < off,
        off + 12 <= c.len(),
        rec_ino(c, off) == 0,
        prev_len_from(c, off / 4096 * 4096, off) > 0,
    ensures
        ({
            let l = prev_len_from(c, off / 4096 * 4096, off);
            let e = bytes::splice(
                c,
                off - l + 8,
                bytes::bytes16(((l + rec_len(c, off)) % 0x1_0000) as u16),
            );
            tiled(e, 0) && lookup_from(e, 0, other) == lookup_from(c, 0, other) && times(
                e,
                0,
                other,
            ) == times(c, 0, other) && list_from(e, 0) == list_from(c, 0)
        }),
{
    let b = off / 4096 * 4096;
    lemma_prev(c, b, off);
    let p = off - prev_len_from(c, b, off);
    lemma_visits_block(c, 0, b);
    lemma_visits_trans(c, 0, b, p);
    lemma_visits_tiled(c, 0, off);
    lemma_visits_tiled(c, 0, p);
    assert(rec_len(c, p) <= 4096);
    assert(rec_len(c, off) <= 4096);
    lemma_merged(c, 0, p, off, other);
}

proof fn lemma_dotdot_after(d: Seq<u8>, from: int)
    requires
        0 <= from,
        tiled(d, from),
    ensures
        dotdot_from(d, from) matches Some(off) ==> from <= off && off + 14 <= d.len() && rec_ino(d, off)
            != 0 && rec_name(d, off) == seq![0x2Eu8, 0x2Eu8] && visits(d, from, off),
    decreases d.len() - from,
{
    if from < d.len() {
        if rec_ino(d, from) != 0 && d[from + 10] == 2 && from + 14 <= d.len() && d[from + 12] == 0x2E
            && d[from + 13] == 0x2E {
            assert(rec_name(d, from) =~= seq![0x2Eu8, 0x2Eu8]);
        } else {
            lemma_dotdot_after(d, from + rec_len(d, from));
        }
    }
}

/// Making the entry of the directory above name another one: it is found under two full stops
/// then, and every other name finds what it found before.
#[verifier::spinoff_prover]
#[verifier::rlimit(40)]
pub proof fn above_then_lookup(d: Seq<u8>, from: int, parent: u64, other: Seq<u8>)
    requires
        0 <= from,
        tiled(d, from),
        dotdot_from(d, from) is Some,
        parent != 0,
    ensures
        ({
            let off = dotdot_from(d, from)->Some_0;
            let e = bytes::splice(d, off, bytes::bytes64(parent));
            &&& e.len() == d.len()
            &&& tiled(e, from)
            &&& lookup_from(e, from, seq![0x2Eu8, 0x2Eu8]) == Some((parent, d[off + 11]))
            &&& other != seq![0x2Eu8, 0x2Eu8] ==> lookup_from(e, from, other) == lookup_from(
                d,
                from,
                other,
            )
        }),
    decreases d.len() - from,
{
    let dd = seq![0x2Eu8, 0x2Eu8];
    lemma_dotdot_after(d, from);
    let off = dotdot_from(d, from)->Some_0;
    let v = bytes::bytes64(parent);
    let e = bytes::splice(d, off, v);
    assert(v.len() == 8);
    if rec_ino(d, from) != 0 && d[from + 10] == 2 && from + 14 <= d.len() && d[from + 12] == 0x2E
        && d[from + 13] == 0x2E {
        assert(off == from);
        let nx = from + rec_len(d, from);
        assert(e.subrange(from, from + 8) =~= v);
        bytes::le64_round_trip(e, from, parent);
        assert(e.subrange(from + 8, from + 10) =~= d.subrange(from + 8, from + 10));
        bytes::lemma_le_same(d, from + 8, e, from + 8, 2);
        assert(rec_name(d, from) =~= dd);
        assert(rec_name(e, from) =~= rec_name(d, from));
        lemma_same_tail(d, e, nx, other);
        lemma_same_tail(d, e, nx, dd);
    } else {
        let nx = from + rec_len(d, from);
        lemma_dotdot_after(d, nx);
        above_then_lookup(d, nx, parent, other);
        lemma_same_record(d, e, from);
        if rec_ino(d, from) != 0 {
            assert(rec_name(d, from) =~= rec_name(e, from));
            if rec_name(e, from) == dd {
                assert(d[from + 10] == 2);
                assert(rec_name(e, from)[0] == e[from + 12] && rec_name(e, from)[1] == e[from + 13]);
                assert(false);
            }
        }
    }
}

/// Removing a name from a well-formed directory leaves a well-formed directory in
/// which every other name finds what it found before, and the name itself finds
/// only what stood after the removed record.
pub proof fn remove_then_lookup(d: Seq<u8>, name: Seq<u8>, other: Seq<u8>)
    requires
        tiled(d, 0),
        find_from(d, 0, 0, name) is Some,
    ensures
        ({
            let (off, prev) = find_from(d, 0, 0, name)->Some_0;
            let e = removed(d, off, prev);
            &&& tiled(e, 0)
            &&& other != name ==> lookup_from(e, 0, other) == lookup_from(d, 0, other) && times(
                e,
                0,
                other,
            ) == times(d, 0, other)
            &&& lookup_from(e, 0, name) == lookup_from(d, off + rec_len(d, off), name)
            &&& times(e, 0, name) == times(d, 0, name) - 1
            &&& vstd::utf8::valid_utf8(name) ==> one_more(
                list_from(e, 0),
                list_from(d, 0),
                listed(rec_ino(d, off), d[off + 11], name),
            )
        }),
{
    let (off, prev) = find_from(d, 0, 0, name)->Some_0;
    lemma_find(d, 0, 0, name);
    lemma_find_visits(d, 0, 0, name);
    lemma_find_prev_irrelevant(d, 0, 0, off, name);
    lemma_visits_tiled(d, 0, off);
    assert(rec_len(d, off) <= 4096);
    lemma_cleared(d, 0, off, name);
    lemma_cleared(d, 0, off, other);
    let c = bytes::splice(d, off, bytes::zeros(8));
    if prev > 0 && prev_len_from(c, prev / 4096 * 4096, prev) > 0 {
        assert(prev == off);
        lemma_merge_prev(c, off, name);
        lemma_merge_prev(c, off, other);
    }
}

// ---- Operations -----------------------------------------------------------------

/// A directory entry.
pub struct DirEntry {
    pub name: String,
    pub ino: u64,
    pub file_type: u8,
}

impl View for DirEntry {
    type V = EntryView;

    open spec fn view(&self) -> EntryView {
        EntryView { name: self.name@, ino: self.ino, file_type: self.file_type }
    }
}

/// The views of several entries.
pub open spec fn views(es: Seq<DirEntry>) -> Seq<EntryView> {
    es.map_values(|e: DirEntry| e@)
}

/// Bytes a record with a name of `name_len` bytes needs.
pub fn dir_entry_min_size(name_len: u8) -> (n: u16)
    ensures
        n == min_size(name_len as int),
{
    (12 + name_len as u16 + 3) / 4 * 4
}

/// Every live entry with a valid name, up to the first malformed record.
pub fn parse_dir_entries_from_bytes(d: &[u8]) -> (r: Vec<DirEntry>)
    ensures
        views(r@) == list_from(d@, 0),
{
    let mut out: Vec<DirEntry> = Vec::new();
    let mut off: usize = 0;
    assert(views(out@) =~= Seq::empty());
    while d.len() - off >= DIR_ENTRY_HEADER_SIZE
        invariant_except_break
            off <= d.len(),
            views(out@) + list_from(d@, off as int) == list_from(d@, 0),
        ensures
            views(out@) == list_from(d@, 0),
        decreases d.len() - off,
    {
        let rl: usize = get_u16(d, off + 8) as usize;
        if rl < DIR_ENTRY_HEADER_SIZE || rl > d.len() - off {
            assert(views(out@) + list_from(d@, off as int) =~= views(out@));
            break;
        }
        let ino: u64 = get_u64(d, off);
        let nl: usize = d[off + 10] as usize;
        let ghost before = out@;
        if ino != 0 && nl <= d.len() - off - 12 {
            let nm = sub_vec(d, off + 12, off + 12 + nl);
            match string_from_utf8(nm) {
                Some(name) => {
                    let e = DirEntry { name, ino, file_type: d[off + 11] };
                    out.push(e);
                    assert(views(out@) =~= views(before) + seq![e@]);
                    assert(views(out@) + list_from(d@, off + rl) =~= views(before) + (seq![e@]
                        + list_from(d@, off + rl)));
                },
                None => {},
            }
        }
        off = off + rl;
        if d.len() - off < DIR_ENTRY_HEADER_SIZE {
            assert(views(out@) + list_from(d@, off as int) =~= views(out@));
        }
    }
    out
}

/// Looks `name` up: inode number and entry type.
pub fn lookup_entry(d: &[u8], name: &[u8]) -> (r: Option<(u64, u8)>)
    ensures
        r == lookup_from(d@, 0, name@),
{
    let mut off: usize = 0;
    while d.len() - off >= DIR_ENTRY_HEADER_SIZE
        invariant
            off <= d.len(),
            lookup_from(d@, off as int, name@) == lookup_from(d@, 0, name@),
        decreases d.len() - off,
    {
        let rl: usize = get_u16(d, off + 8) as usize;
        if rl < DIR_ENTRY_HEADER_SIZE || rl > d.len() - off {
            return None;
        }
        let ino: u64 = get_u64(d, off);
        let nl: usize = d[off + 10] as usize;
        if ino != 0 && nl <= d.len() - off - 12 {
            let nm = sub_vec(d, off + 12, off + 12 + nl);
            if bytes_eq(nm.as_slice(), name) {
                return Some((ino, d[off + 11]));
            }
        }
        off = off + rl;
    }
    None
}

/// The first record with at least `needed` bytes to spare.
pub fn find_slot(d: &[u8], needed: usize) -> (r: Option<usize>)
    ensures
        match r {
            Some(o) => slot_from(d@, 0, needed as int) == Some(o as int) && o + 12 <= d.len()
                && rec_len(d@, o as int) - rec_min(d@, o as int) >= needed,
            None => slot_from(d@, 0, needed as int) is None,
        },
{
    let mut off: usize = 0;
    while d.len() - off >= DIR_ENTRY_HEADER_SIZE
        invariant
            off <= d.len(),
            slot_from(d@, off as int, needed as int) == slot_from(d@, 0, needed as int),
        decreases d.len() - off,
    {
        let rl: usize = get_u16(d, off + 8) as usize;
        if rl < DIR_ENTRY_HEADER_SIZE {
            return None;
        }
        let min: usize = if get_u64(d, off) != 0 {
            dir_entry_min_size(d[off + 10]) as usize
        } else {
            0
        };
        if rl >= min && rl - min >= needed {
            return Some(off);
        }
        if rl > d.len() - off {
            assert(slot_from(d@, off + rl, needed as int) is None);
            return None;
        }
        off = off + rl;
    }
    None
}

/// Writes a record header and name at `off`.
pub fn write_dir_entry(
    buf: &mut Vec<u8>,
    off: usize,
    ino: u64,
    rec_len: u16,
    file_type: u8,
    name: &[u8],
)
    requires
        name.len() <= 255,
        off + 12 + name.len() <= old(buf).len(),
    ensures
        final(buf)@ == bytes::splice(
            old(buf)@,
            off as int,
            enc_dirent(ino, rec_len as int, file_type, name@),
        ),
{
    let mut r: Vec<u8> = Vec::new();
    push_u64(&mut r, ino);
    push_u16(&mut r, rec_len);
    r.push(name.len() as u8);
    r.push(file_type);
    push_slice(&mut r, name);
    assert(r@ =~= enc_dirent(ino, rec_len as int, file_type, name@));
    write_at(buf, off, r.as_slice());
}

/// Places an entry in the spare room of the record at `off`, as [`place`] says.
/// Returns false, changing nothing, when that record runs past the end.
pub fn place_entry(d: &mut Vec<u8>, off: usize, ino: u64, file_type: u8, name: &[u8]) -> (ok: bool)
    requires
        off + 12 <= old(d).len(),
        name.len() <= 255,
        rec_len(old(d)@, off as int) - rec_min(old(d)@, off as int) >= min_size(name@.len() as int),
    ensures
        ok ==> place(old(d)@, off as int, ino, file_type, name@) == Some(final(d)@),
        !ok ==> place(old(d)@, off as int, ino, file_type, name@) is None && final(d)@ == old(d)@,
        final(d)@.len() == old(d)@.len(),
{
    let rl: usize = get_u16(d.as_slice(), off + 8) as usize;
    let live: bool = get_u64(d.as_slice(), off) != 0;
    let min: usize = if live {
        dir_entry_min_size(d[off + 10]) as usize
    } else {
        0
    };
    if rl > d.len() - off {
        return false;
    }
    if live {
        put_u16(d, off + 8, min as u16);
    }
    write_dir_entry(d, off + min, ino, (rl - min) as u16, file_type, name);
    true
}

/// The record for `name`, together with the end of the record before it (0 when
/// there is none).
pub fn find_entry(d: &[u8], name: &[u8]) -> (r: Option<(usize, usize)>)
    ensures
        match r {
            Some((o, p)) => find_from(d@, 0, 0, name@) == Some((o as int, p as int)) && o + 12
                <= d.len() && p <= o,
            None => find_from(d@, 0, 0, name@) is None,
        },
{
    let mut off: usize = 0;
    let mut prev: usize = 0;
    while d.len() - off >= DIR_ENTRY_HEADER_SIZE
        invariant
            prev <= off <= d.len(),
            find_from(d@, off as int, prev as int, name@) == find_from(d@, 0, 0, name@),
        decreases d.len() - off,
    {
        let rl: usize = get_u16(d, off + 8) as usize;
        if rl < DIR_ENTRY_HEADER_SIZE {
            return None;
        }
        let nl: usize = d[off + 10] as usize;
        if get_u64(d, off) != 0 && nl <= d.len() - off - 12 {
            let nm = sub_vec(d, off + 12, off + 12 + nl);
            if bytes_eq(nm.as_slice(), name) {
                return Some((off, prev));
            }
        }
        if rl > d.len() - off {
            assert(find_from(d@, off + rl, off + rl, name@) is None);
            return None;
        }
        off = off + rl;
        prev = off;
    }
    None
}

/// The start of the block that a record which ends at `end` lies in.
pub open spec fn start_of_block(end: int, block_size: int) -> int {
    if end <= 0 {
        0
    } else {
        (end - 1) / block_size * block_size
    }
}

/// The length of the record that ends at `end`, walking from the start of the
/// block of `block_size` bytes that such a record lies in; 0 when none does.
pub fn find_prev_entry_len(d: &[u8], end: usize, block_size: usize) -> (l: usize)
    requires
        end <= d.len(),
        block_size > 0,
    ensures
        l == prev_len_from(
            d@,
            start_of_block(end as int, block_size as int),
            end as int,
        ),
        l <= end,
        l <= 0xFFFF,
        l > 0 ==> end - l + 12 <= d.len(),
{
    if end == 0 {
        return 0;
    }
    assert(0 <= (end - 1) as int / block_size as int * block_size as int <= end - 1)
        by (nonlinear_arith)
        requires
            block_size > 0,
            end >= 1,
    ;
    let mut off: usize = (end - 1) / block_size * block_size;
    let ghost start = off as int;
    while off < end && d.len() - off >= DIR_ENTRY_HEADER_SIZE
        invariant
            off <= end <= d.len(),
            start == start_of_block(end as int, block_size as int),
            prev_len_from(d@, off as int, end as int) == prev_len_from(d@, start, end as int),
        decreases end - off,
    {
        let rl: usize = get_u16(d, off + 8) as usize;
        if rl < DIR_ENTRY_HEADER_SIZE {
            return 0;
        }
        if rl == end - off {
            return rl;
        }
        if rl > end - off {
            assert(prev_len_from(d@, off + rl, end as int) == 0);
            return 0;
        }
        off = off + rl;
    }
    0
}

/// Deletes the record at `off`, extending the one before it over its room when
/// that one lies in the same block.
pub fn remove_entry(d: &mut Vec<u8>, off: usize, prev: usize)
    requires
        off + 12 <= old(d).len(),
        prev <= off,
    ensures
        final(d)@ == removed(old(d)@, off as int, prev as int),
        final(d)@.len() == old(d)@.len(),
{
    let rl: usize = get_u16(d.as_slice(), off + 8) as usize;
    let z = zero_vec(8);
    write_at(d, off, z.as_slice());
    if prev % BLOCK_SIZE != 0 {
        let l: usize = find_prev_entry_len(d.as_slice(), prev, BLOCK_SIZE);
        assert(start_of_block(prev as int, 4096) == prev as int / 4096 * 4096);
        if l > 0 {
            put_u16(d, prev - l + 8, ((l + rl) % 0x1_0000) as u16);
        }
    }
}

/// The `..` record.
pub fn find_dotdot(d: &[u8]) -> (r: Option<usize>)
    ensures
        match r {
            Some(o) => dotdot_from(d@, 0) == Some(o as int) && o + 12 <= d.len(),
            None => dotdot_from(d@, 0) is None,
        },
{
    let mut off: usize = 0;
    while d.len() - off >= DIR_ENTRY_HEADER_SIZE
        invariant
            off <= d.len(),
            dotdot_from(d@, off as int) == dotdot_from(d@, 0),
        decreases d.len() - off,
    {
        let rl: usize = get_u16(d, off + 8) as usize;
        if rl < DIR_ENTRY_HEADER_SIZE {
            return None;
        }
        if get_u64(d, off) != 0 && d[off + 10] == 2 && d.len() - off >= 14 && d[off + 12] == 0x2E
            && d[off + 13] == 0x2E {
            return Some(off);
        }
        if rl > d.len() - off {
            assert(dotdot_from(d@, off + rl) is None);
            return None;
        }
        off = off + rl;
    }
    None
}

/// Builds the first block of a new directory.
pub fn build_dir_block(ino: u64, parent: u64) -> (b: Vec<u8>)
    ensures
        b@ == new_dir_block(ino, parent),
        b@.len() == BLOCK_SIZE,
{
    let mut b = zero_vec(BLOCK_SIZE);
    let dot: Vec<u8> = vec![0x2Eu8];
    let mut dotdot: Vec<u8> = Vec::new();
    dotdot.push(0x2E);
    dotdot.push(0x2E);
    assert(dot@ =~= seq![0x2Eu8]);
    assert(dotdot@ =~= seq![0x2Eu8, 0x2Eu8]);
    let n: u16 = dir_entry_min_size(1);
    write_dir_entry(&mut b, 0, ino, n, FT_DIR, dot.as_slice());
    write_dir_entry(
        &mut b,
        n as usize,
        parent,
        BLOCK_SIZE as u16 - n,
        FT_DIR,
        dotdot.as_slice(),
    );
    proof {
        reveal(new_dir_block);
    }
    b
}

proof fn lemma_two_records(d: Seq<u8>, ino: u64, parent: u64, one: Seq<u8>, two: Seq<u8>)
    requires
        d.len() == 4096,
        ino != 0,
        parent != 0,
        one.len() == 1,
        two.len() == 2,
        rec_ino(d, 0) == ino,
        rec_len(d, 0) == 16,
        d[10] == 1,
        d[11] == FT_DIR,
        rec_name(d, 0) == one,
        rec_ino(d, 16) == parent,
        rec_len(d, 16) == 4080,
        d[26] == 2,
        d[27] == FT_DIR,
        rec_name(d, 16) == two,
    ensures
        tiled(d, 0),
        lookup_from(d, 0, one) == Some((ino, FT_DIR)),
        lookup_from(d, 0, two) == Some((parent, FT_DIR)),
        forall|n: Seq<u8>|
            #[trigger] times(d, 0, n) == (if n == one || n == two {
                1int
            } else {
                0
            }),
{
    assert forall|n: Seq<u8>|
        #[trigger] times(d, 0, n) == (if n == one || n == two {
            1int
        } else {
            0
        }) by {
        assert(times(d, 4096, n) == 0);
        assert(times(d, 16, n) == (if n == two {
            1int
        } else {
            0
        }));
        assert(one.len() != two.len());
    }
    assert(tiled(d, 4096));
    assert(tiled(d, 16));
    assert(lookup_from(d, 16, two) == Some((parent, FT_DIR)));
}

/// A new directory is well formed and finds itself and its parent; no other name is entered.
pub proof fn new_directory_lookup(ino: u64, parent: u64)
    requires
        ino != 0,
        parent != 0,
    ensures
        tiled(new_dir_block(ino, parent), 0),
        lookup_from(new_dir_block(ino, parent), 0, seq![0x2Eu8]) == Some((ino, FT_DIR)),
        lookup_from(new_dir_block(ino, parent), 0, seq![0x2Eu8, 0x2Eu8]) == Some((parent, FT_DIR)),
        forall|n: Seq<u8>|
            #[trigger] times(new_dir_block(ino, parent), 0, n) == (if n == seq![0x2Eu8] || n
                == seq![0x2Eu8, 0x2Eu8] {
                1int
            } else {
                0
            }),
{
    let one = seq![0x2Eu8];
    let two = seq![0x2Eu8, 0x2Eu8];
    let d = new_dir_block(ino, parent);
    assert(d == bytes::splice(
        bytes::splice(bytes::zeros(4096), 0, enc_dirent(ino, 16, FT_DIR, one)),
        16,
        enc_dirent(parent, 4080, FT_DIR, two),
    )) by {
        reveal(new_dir_block);
    }
    lemma_new_dir(bytes::zeros(4096), ino, parent, one, two);
}

proof fn lemma_new_dir(z: Seq<u8>, ino: u64, parent: u64, one: Seq<u8>, two: Seq<u8>)
    requires
        z.len() == 4096,
        ino != 0,
        parent != 0,
        one.len() == 1,
        two.len() == 2,
    ensures
        ({
            let d = bytes::splice(
                bytes::splice(z, 0, enc_dirent(ino, 16, FT_DIR, one)),
                16,
                enc_dirent(parent, 4080, FT_DIR, two),
            );
            &&& tiled(d, 0)
            &&& lookup_from(d, 0, one) == Some((ino, FT_DIR))
            &&& lookup_from(d, 0, two) == Some((parent, FT_DIR))
            &&& forall|n: Seq<u8>|
                #[trigger] times(d, 0, n) == (if n == one || n == two {
                    1int
                } else {
                    0
                })
        }),
{
    let a = bytes::splice(z, 0, enc_dirent(ino, 16, FT_DIR, one));
    let r = enc_dirent(parent, 4080, FT_DIR, two);
    let d = bytes::splice(a, 16, r);
    lemma_dirent(z, 0, ino, 16, FT_DIR, one);
    lemma_dirent(a, 16, parent, 4080, FT_DIR, two);
    assert(forall|i: int| 0 <= i < 16 ==> d[i] == a[i]);
    lemma_same_record(a, d, 0);
    assert(rec_name(d, 0) =~= rec_name(a, 0));
    lemma_two_records(d, ino, parent, one, two);
}

} // verus!
