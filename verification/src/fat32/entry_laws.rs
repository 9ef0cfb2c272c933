//! What a directory entry says of a file after the file has been written to.
use vstd::prelude::*;
use crate::bytes;
use crate::error::Error;
use crate::types;
use super::chains;
use super::contents;
use super::driver;
use super::entry;
use super::entry::EntryView;
use super::model;
use super::model::{Change, FatState};
use super::ops;
use super::read;
use super::structures::ATTR_DIRECTORY;

verus! {

// ---- Entries on the device --------------------------------------------------------------------

/// Whether a directory cluster, or the fixed root directory, is on the device and in use.
pub open spec fn dir_in_order(st: FatState, c: u32) -> bool {
    if model::fixed_root(st, c) {
        model::data_lba(st) * 512 <= st.disk.len()
    } else {
        contents::used(st, c)
    }
}

/// First byte of a directory cluster, or of the fixed root directory.
pub open spec fn dir_spot(st: FatState, c: u32) -> int {
    model::region(st, c).0 * 512
}

/// The entry at offset `off` of a directory cluster.
pub open spec fn entry_in_dir(st: FatState, c: u32, off: int) -> EntryView {
    entry::dec_entry(model::dir_data(st, c)->Ok_0, off)
}

pub(crate) proof fn lemma_dir(st: FatState, c: u32)
    requires
        chains::fats_fit(st),
        dir_in_order(st, c),
    ensures
        chains::fat_end(st) * 512 <= dir_spot(st, c),
        dir_spot(st, c) + model::region(st, c).1 * 512 <= st.disk.len(),
        model::region(st, c).1 >= 0,
        model::fixed_root(st, c) ==> dir_spot(st, c) + model::region(st, c).1 * 512
            <= model::data_lba(st) * 512,
        !model::fixed_root(st, c) ==> dir_spot(st, c) == contents::spot(st, c) && model::region(
            st,
            c,
        ).1 * 512 == model::bpc(st),
        model::dir_data(st, c) is Ok,
        model::dir_data(st, c)->Ok_0 == st.disk.subrange(
            dir_spot(st, c),
            dir_spot(st, c) + model::region(st, c).1 * 512,
        ),
{
    chains::lemma_fats(st);
    if model::fixed_root(st, c) {
        if model::root_len(st) == 0 {
            assert(st.disk.subrange(dir_spot(st, c), dir_spot(st, c)) =~= Seq::<u8>::empty());
        }
    } else {
        contents::lemma_spot(st, c);
    }
}

/// An entry is made of its 32 bytes.
#[verifier::spinoff_prover]
#[verifier::rlimit(40)]
pub(crate) proof fn lemma_entry_same(s: Seq<u8>, i: int, t: Seq<u8>, j: int)
    requires
        0 <= i,
        i + 32 <= s.len(),
        0 <= j,
        j + 32 <= t.len(),
        s.subrange(i, i + 32) == t.subrange(j, j + 32),
    ensures
        entry::dec_entry(s, i) == entry::dec_entry(t, j),
{
    assert forall|k: int| 0 <= k < 32 implies #[trigger] s[i + k] == t[j + k] by {
        let a = s.subrange(i, i + 32);
        let b = t.subrange(j, j + 32);
        assert(a[k] == s[i + k]);
        assert(b[k] == t[j + k]);
    }
    assert(s.subrange(i, i + 11) =~= t.subrange(j, j + 11));
    assert(s[i + 11] == t[j + 11] && s[i + 12] == t[j + 12] && s[i + 13] == t[j + 13]);
    assert(s[i + 14] == t[j + 14] && s[i + 15] == t[j + 15]);
    assert(s[i + 16] == t[j + 16] && s[i + 17] == t[j + 17]);
    assert(s[i + 18] == t[j + 18] && s[i + 19] == t[j + 19]);
    assert(s[i + 20] == t[j + 20] && s[i + 21] == t[j + 21]);
    assert(s[i + 22] == t[j + 22] && s[i + 23] == t[j + 23]);
    assert(s[i + 24] == t[j + 24] && s[i + 25] == t[j + 25]);
    assert(s[i + 26] == t[j + 26] && s[i + 27] == t[j + 27]);
    assert(s[i + 28] == t[j + 28] && s[i + 29] == t[j + 29]);
    assert(s[i + 30] == t[j + 30] && s[i + 31] == t[j + 31]);
}

/// What holds after the entry at offset `off` of a directory cluster has been changed.
pub open spec fn entry_changed(st: FatState, z: FatState, c: u32, off: int, ch: Change) -> bool {
    let at = dir_spot(st, c) + off;
    &&& chains::in_order(z)
    &&& driver::same_layout(z, st)
    &&& z == (FatState { disk: z.disk, ..st })
    &&& chains::same_but(z, st, Set::empty())
    &&& entry_in_dir(z, c, off) == model::changed(entry_in_dir(st, c, off), ch)
    &&& forall|k: int|
        0 <= k < st.disk.len() && !(at <= k < at + 32) ==> #[trigger] z.disk[k] == st.disk[k]
}

/// A change of an entry is found in the directory afterwards, and nothing else changes.
#[verifier::spinoff_prover]
#[verifier::rlimit(40)]
pub proof fn change_is_stored(st: FatState, c: u32, off: int, ch: Change)
    requires
        chains::in_order(st),
        dir_in_order(st, c),
        0 <= off,
        off + 32 <= model::region(st, c).1 * 512,
        ch matches Change::Name(n) ==> n.len() == 11,
    ensures
        model::patch(st, c, off, ch).1 == Ok::<(), Error>(()),
        entry_changed(st, model::patch(st, c, off, ch).0, c, off, ch),
{
    reveal(model::patch);
    lemma_dir(st, c);
    let d = model::dir_data(st, c)->Ok_0;
    let e = model::changed(entry::dec_entry(d, off), ch);
    entry::entry_round_trip(e);
    let b = entry::enc_entry(e);
    let new = bytes::splice(d, off, b);
    let l = model::region(st, c).0;
    driver::lemma_geometry(st, c);
    chains::lemma_write(st, l, new);
    let z = model::write(st, l, new).0;
    let at = dir_spot(st, c) + off;
    assert forall|k: int| 0 <= k < st.disk.len() && !(at <= k < at + 32) implies
        #[trigger] z.disk[k] == st.disk[k] by {
        let o = k - dir_spot(st, c);
        if 0 <= o < d.len() {
            assert(z.disk[k] == new[o]);
            assert(new[o] == d[o]);
        }
    }
    chains::lemma_same_fat(z, st);
    chains::lemma_keeps_order(z, st, Set::empty());
    assert(dir_in_order(z, c)) by {
        if !model::fixed_root(st, c) {
            assert(model::fat_value(z, c) == model::fat_value(st, c));
        }
    }
    lemma_dir(z, c);
    let n = model::dir_data(z, c)->Ok_0;
    assert(n.subrange(off, off + 32) =~= b.subrange(0, 32));
    lemma_entry_same(n, off, b, 0);
}

/// A chain apart from a directory cluster does not notice a change of an entry in it.
#[verifier::spinoff_prover]
#[verifier::rlimit(40)]
pub(crate) proof fn lemma_chain_apart(st: FatState, z: FatState, c: u32, off: int, ch: Change, cs: Seq<u32>)
    requires
        chains::in_order(st),
        dir_in_order(st, c),
        0 <= off,
        off + 32 <= model::region(st, c).1 * 512,
        entry_changed(st, z, c, off, ch),
        contents::holds(st, cs),
        model::fixed_root(st, c) || !cs.contains(c),
    ensures
        contents::holds(z, cs),
        forall|p: int|
            0 <= p < cs.len() * model::bpc(st) ==> #[trigger] contents::byte_at(z, cs, p)
                == contents::byte_at(st, cs, p),
{
    contents::lemma_holds_kept(z, st, cs, Set::empty());
    lemma_dir(st, c);
    let b = model::bpc(st);
    assert forall|p: int| 0 <= p < cs.len() * b implies #[trigger] contents::byte_at(z, cs, p)
        == contents::byte_at(st, cs, p) by {
        contents::lemma_place(st, cs, p);
        contents::lemma_place_in(st, cs, p);
        let x = cs[p / b];
        assert(contents::used(st, x));
        contents::lemma_spot(st, x);
        if !model::fixed_root(st, c) {
            assert(x != c);
            contents::lemma_spots(st, x, c);
        }
    }
}

/// Nothing on the device depends on what is remembered of files.
pub(crate) proof fn lemma_remembered(st: FatState, z: FatState, cs: Seq<u32>)
    requires
        chains::in_order(st),
        contents::holds(st, cs),
        driver::same_layout(z, st),
        z.disk == st.disk,
        z.info == st.info,
    ensures
        chains::in_order(z),
        contents::holds(z, cs),
        forall|p: int| #[trigger] contents::byte_at(z, cs, p) == contents::byte_at(st, cs, p),
        forall|c: u32, off: int| #[trigger] entry_in_dir(z, c, off) == entry_in_dir(st, c, off),
{
    chains::lemma_same_fat(z, st);
    chains::lemma_keeps_order(z, st, Set::empty());
    contents::lemma_holds_kept(z, st, cs, Set::empty());
}

/// A directory that is apart from a chain is what it was when only the chain has changed.
pub(crate) proof fn lemma_dir_kept(st: FatState, z: FatState, c: u32, cs: Seq<u32>)
    requires
        chains::in_order(st),
        chains::in_order(z),
        driver::same_layout(z, st),
        dir_in_order(st, c),
        model::fixed_root(st, c) || !cs.contains(c),
        contents::rest_kept(z, st, cs),
    ensures
        dir_in_order(z, c),
        model::dir_data(z, c) == model::dir_data(st, c),
{
    lemma_dir(st, c);
    if !model::fixed_root(st, c) {
        assert(contents::untouched(z, st, c));
    }
    lemma_dir(z, c);
    let n = model::region(st, c).1 * 512;
    let at = dir_spot(st, c);
    assert(z.disk.subrange(at, at + n) =~= st.disk.subrange(at, at + n));
}

// ---- Files without data -----------------------------------------------------------------------

/// Clusters put behind a chain.
#[verifier::spinoff_prover]
#[verifier::rlimit(40)]
pub(crate) proof fn lemma_extended(st: FatState, cs: Seq<u32>, n: int) -> (more: Seq<u32>)
    requires
        chains::in_order(st),
        contents::holds(st, cs),
        0 <= n,
    ensures
        ({
            let (z, r) = crate::fat32::write::extended(st, cs.last(), n);
            match r {
                Err(e) => e == Error::NoSpace,
                Ok(c) => contents::lengthened(st, z, cs, more) && more.len() == cs.len() + n && c
                    == more.last(),
            }
        }),
    decreases n,
{
    if n == 0 {
        contents::lemma_lengthened_itself(st, cs);
        cs
    } else {
        contents::lemma_new_lengthens(st, cs);
        let (s1, r1) = model::take_cluster(st);
        if r1 is Ok {
            let x = r1->Ok_0;
            let s2 = model::link(s1, cs.last(), x).0;
            let some = cs.push(x);
            assert(some.last() == x);
            let more = lemma_extended(s2, some, n - 1);
            let (z, r) = crate::fat32::write::extended(s2, x, n - 1);
            if r is Ok {
                contents::lemma_lengthened_twice(st, s2, z, cs, some, more);
            }
            more
        } else {
            cs
        }
    }
}

/// A cluster that has been taken is a chain by itself.
pub(crate) proof fn lemma_chain_of_one(st: FatState, z: FatState, c: u32)
    requires
        chains::in_order(st),
        chains::taken(st, z, c),
    ensures
        contents::holds(z, seq![c]),
        contents::rest_kept(z, st, Seq::empty()),
{
    let cs = seq![c];
    assert forall|i: int| 0 <= i < cs.len() implies #[trigger] contents::follows(z, cs, i) by {}
    assert(contents::used(z, c));
    chains::lemma_fats(st);
    assert forall|d: u32| contents::used(st, d) implies #[trigger] contents::untouched(z, st, d) by {
        contents::lemma_spot(st, d);
        assert(!set![c].contains(d));
        assert(model::fat_value(z, d) == model::fat_value(st, d));
    }
}

/// What a file without data is given before it is written to: clusters up to the one that
/// the write starts in, and an entry that says so.
#[verifier::spinoff_prover]
#[verifier::rlimit(40)]
proof fn lemma_prepared(st: FatState, e: EntryView, c: u32, off: int, target: int) -> (some: Seq<u32>)
    requires
        chains::in_order(st),
        entry::first_cluster(e) < 2,
        dir_in_order(st, c),
        0 <= off,
        off + 32 <= model::region(st, c).1 * 512,
        0 <= target,
    ensures
        ({
            let (z, r) = crate::fat32::write::prepared(st, e, Some((c, off)), target);
            match r {
                Err(x) => x == Error::NoSpace,
                Ok((h, new)) => {
                    &&& new
                    &&& chains::in_order(z)
                    &&& driver::same_layout(z, st)
                    &&& z.inodes == st.inodes
                    &&& contents::holds(z, some)
                    &&& some.len() == target + 1
                    &&& some[0] == h
                    &&& dir_in_order(z, c)
                    &&& model::fixed_root(st, c) || !some.contains(c)
                    &&& entry_in_dir(z, c, off) == model::changed(
                        entry_in_dir(st, c, off),
                        Change::Cluster(h),
                    )
                },
            }
        }),
{
    reveal(crate::fat32::write::prepared);
    chains::take_gives_a_free_cluster(st);
    let (s1, r1) = model::take_cluster(st);
    if r1 is Err {
        seq![]
    } else {
        let h = r1->Ok_0;
        let one = seq![h];
        lemma_chain_of_one(st, s1, h);
        assert(one.last() == h);
        let some = lemma_extended(s1, one, target);
        let (s2, r2) = crate::fat32::write::extended(s1, h, target);
        if r2 is Ok {
            lemma_dir_kept(st, s1, c, Seq::empty());
            reveal(contents::lengthened);
            assert(model::fixed_root(st, c) || !one.contains(c));
            lemma_dir_kept(s1, s2, c, one);
            assert(some.take(1)[0] == some[0]);
            change_is_stored(s2, c, off, Change::Cluster(h));
            let z = model::patch(s2, c, off, Change::Cluster(h)).0;
            lemma_chain_apart(s2, z, c, off, Change::Cluster(h), some);
            if !model::fixed_root(st, c) {
                assert(model::fat_value(z, c) == model::fat_value(s2, c));
            }
        }
        some
    }
}

// ---- Writing through a path -------------------------------------------------------------------

/// An entry that a search finds is in the directory cluster that it names.
#[verifier::spinoff_prover]
#[verifier::rlimit(40)]
proof fn lemma_slot(st: FatState, c: u32, name: Seq<char>, fuel: int)
    ensures
        model::find_slot(st, c, name, fuel) matches Ok(Some(f)) ==> {
            &&& model::dir_data(st, f.1) is Ok
            &&& 0 <= f.2
            &&& f.2 + 32 <= model::dir_data(st, f.1)->Ok_0.len()
            &&& f.0 == entry_in_dir(st, f.1, f.2)
        },
    decreases fuel,
{
    if fuel > 0 {
        match model::dir_data(st, c) {
            Ok(d) => {
                lemma_scan(d, 0, name);
                if !model::fixed_root(st, c) {
                    match model::fat_next(st, c) {
                        Ok(Some(n)) => lemma_slot(st, n, name, fuel - 1),
                        _ => {},
                    }
                }
            },
            Err(_) => {},
        }
    }
}

proof fn lemma_scan(d: Seq<u8>, off: int, name: Seq<char>)
    requires
        0 <= off,
    ensures
        model::scan(d, off, name) matches model::Scan::Hit(o) ==> off <= o && o + 32 <= d.len(),
    decreases d.len() - off,
{
    if off + 32 <= d.len() {
        lemma_scan(d, off + 32, name);
    }
}

/// What holds after `data` has been written through the path of a file: the entry says where
/// the file is and how long, the data is read back, and the rest of the file is what it was.
pub open spec fn stored_at(
    st: FatState,
    z: FatState,
    f: (EntryView, u32, int),
    cs: Seq<u32>,
    more: Seq<u32>,
    offset: int,
    data: Seq<u8>,
) -> bool {
    let after = entry_in_dir(z, f.1, f.2);
    &&& chains::in_order(z)
    &&& driver::same_layout(z, st)
    &&& contents::file_in(z, after, more)
    &&& after.file_size == (if f.0.file_size > offset + data.len() {
        f.0.file_size as int
    } else {
        offset + data.len()
    })
    &&& read::file_slice(z, after, offset, data.len() as int) == Ok::<Seq<u8>, Error>(data)
    &&& forall|p: int|
        0 <= p < f.0.file_size && !(offset <= p < offset + data.len())
            ==> #[trigger] contents::byte_at(z, more, p) == contents::byte_at(st, cs, p)
}

/// The state of a volume with the bytes of a file in place, before its entry says so.
spec fn placed_in(
    st: FatState,
    s1: FatState,
    f: (EntryView, u32, int),
    cs: Seq<u32>,
    more: Seq<u32>,
    offset: int,
    data: Seq<u8>,
) -> bool {
    &&& chains::in_order(s1)
    &&& driver::same_layout(s1, st)
    &&& contents::holds(s1, more)
    &&& offset + data.len() <= more.len() * model::bpc(st)
    &&& f.0.file_size <= more.len() * model::bpc(st)
    &&& dir_in_order(s1, f.1)
    &&& model::fixed_root(st, f.1) || !more.contains(f.1)
    &&& entry::first_cluster(entry_in_dir(s1, f.1, f.2)) == more[0]
    &&& entry_in_dir(s1, f.1, f.2).attributes == f.0.attributes
    &&& forall|p: int|
        offset <= p < offset + data.len() ==> #[trigger] contents::byte_at(s1, more, p) == data[p
            - offset]
    &&& forall|p: int|
        0 <= p < f.0.file_size && !(offset <= p < offset + data.len())
            ==> #[trigger] contents::byte_at(s1, more, p) == contents::byte_at(st, cs, p)
}

proof fn lemma_attr(a: u8)
    ensures
        (a | 0x20u8) & 0x10u8 == a & 0x10u8,
{
    assert((a | 0x20u8) & 0x10u8 == a & 0x10u8) by (bit_vector);
}

/// The entry brought up to date.
#[verifier::spinoff_prover]
#[verifier::rlimit(40)]
proof fn lemma_entry_grown(
    st: FatState,
    s1: FatState,
    f: (EntryView, u32, int),
    cs: Seq<u32>,
    more: Seq<u32>,
    offset: int,
    data: Seq<u8>,
    size: u32,
    t: types::FileTime,
    z: FatState,
)
    requires
        placed_in(st, s1, f, cs, more, offset, data),
        !entry::has_attr(f.0, ATTR_DIRECTORY),
        offset >= 0,
        data.len() > 0,
        0 <= f.2,
        f.2 + 32 <= model::region(st, f.1).1 * 512,
        size == (if f.0.file_size > offset + data.len() {
            f.0.file_size as int
        } else {
            offset + data.len()
        }),
        driver::same_layout(z, st),
        z.disk == model::patch(s1, f.1, f.2, Change::Grown(size, t)).0.disk,
        z.info == s1.info,
    ensures
        model::patch(s1, f.1, f.2, Change::Grown(size, t)).1 is Ok,
        model::patch(s1, f.1, f.2, Change::Grown(size, t)).0 == (FatState {
            disk: z.disk,
            ..s1
        }),
        stored_at(st, z, f, cs, more, offset, data),
{
    let ch = Change::Grown(size, t);
    let s2 = model::patch(s1, f.1, f.2, ch).0;
    change_is_stored(s1, f.1, f.2, ch);
    lemma_chain_apart(s1, s2, f.1, f.2, ch, more);
    lemma_remembered(s2, z, more);
    let after = entry_in_dir(z, f.1, f.2);
    assert(after == model::changed(entry_in_dir(s1, f.1, f.2), ch));
    lemma_attr(f.0.attributes);
    assert(!entry::has_attr(after, ATTR_DIRECTORY));
    assert(contents::file_in(z, after, more));
    contents::read_gives_contents(z, after, more, offset, data.len() as int);
    let got = contents::bytes_at(z, more, offset, data.len() as int);
    assert forall|o: int| 0 <= o < data.len() implies #[trigger] got[o] == data[o] by {
        assert(got[o] == contents::byte_at(z, more, offset + o));
        assert(contents::byte_at(z, more, offset + o) == contents::byte_at(
            s2,
            more,
            offset + o,
        ));
        assert(contents::byte_at(s2, more, offset + o) == contents::byte_at(
            s1,
            more,
            offset + o,
        ));
    }
    assert(got =~= data);
    assert forall|p: int|
        0 <= p < f.0.file_size && !(offset <= p < offset + data.len()) implies
        #[trigger] contents::byte_at(z, more, p) == contents::byte_at(st, cs, p) by {
        assert(contents::byte_at(z, more, p) == contents::byte_at(s2, more, p));
        assert(contents::byte_at(s2, more, p) == contents::byte_at(s1, more, p));
    }
}

/// The bytes of a file that has data in place.
#[verifier::spinoff_prover]
#[verifier::rlimit(40)]
proof fn lemma_data_placed(
    st: FatState,
    f: (EntryView, u32, int),
    cs: Seq<u32>,
    offset: int,
    data: Seq<u8>,
) -> (more: Seq<u32>)
    requires
        chains::in_order(st),
        contents::file_in(st, f.0, cs),
        dir_in_order(st, f.1),
        model::fixed_root(st, f.1) || !cs.contains(f.1),
        f.0 == entry_in_dir(st, f.1, f.2),
        offset >= 0,
        data.len() > 0,
    ensures
        ({
            let (s1, r1) = crate::fat32::write::write_file(
                st,
                f.0,
                Some((f.1, f.2)),
                offset,
                data,
            );
            match r1 {
                Err(x) => x == Error::NoSpace,
                Ok(_) => placed_in(st, s1, f, cs, more, offset, data),
            }
        }),
{
    let pos = Some((f.1, f.2));
    let more = contents::write_changes_contents(st, f.0, cs, pos, offset, data);
    let (s1, r1) = crate::fat32::write::write_file(st, f.0, pos, offset, data);
    if r1 is Ok {
        lemma_dir_kept(st, s1, f.1, cs);
        assert(more.take(cs.len() as int)[0] == more[0]);
        contents::lemma_longer(cs.len() as int, more.len() as int, model::bpc(st));
        if !model::fixed_root(st, f.1) && more.contains(f.1) {
            assert(!chains::busy(st, f.1));
        }
    }
    more
}

/// The bytes of a file that had no data in place.
#[verifier::spinoff_prover]
#[verifier::rlimit(40)]
proof fn lemma_first_data_placed(
    st: FatState,
    f: (EntryView, u32, int),
    offset: int,
    data: Seq<u8>,
) -> (more: Seq<u32>)
    requires
        chains::in_order(st),
        !entry::has_attr(f.0, ATTR_DIRECTORY),
        entry::first_cluster(f.0) < 2,
        f.0.file_size == 0,
        dir_in_order(st, f.1),
        0 <= f.2,
        f.2 + 32 <= model::region(st, f.1).1 * 512,
        f.0 == entry_in_dir(st, f.1, f.2),
        offset >= 0,
        data.len() > 0,
    ensures
        ({
            let (s1, r1) = crate::fat32::write::write_file(
                st,
                f.0,
                Some((f.1, f.2)),
                offset,
                data,
            );
            match r1 {
                Err(x) => x == Error::NoSpace,
                Ok(_) => placed_in(st, s1, f, Seq::empty(), more, offset, data),
            }
        }),
{
    reveal(crate::fat32::write::write_file);
    let pos = Some((f.1, f.2));
    let b = model::bpc(st);
    let target = offset / b;
    let inner = offset % b;
    assert(target >= 0 && 0 <= inner < b && offset == target * b + inner) by (nonlinear_arith)
        requires
            b >= 1,
            offset >= 0,
            target == offset / b,
            inner == offset % b,
    ;
    let some = lemma_prepared(st, f.0, f.1, f.2, target);
    let (s1, r1) = crate::fat32::write::prepared(st, f.0, pos, target);
    if r1 is Ok {
        let h = r1->Ok_0.0;
        contents::lemma_step(s1, some, 0, target);
        let more = contents::lemma_write_chain(s1, some, target, inner, data, true);
        let (z, r) = crate::fat32::write::write_chain(s1, some[target], inner, data, true);
        if r is Ok {
            reveal(contents::chain_written);
            lemma_dir_kept(s1, z, f.1, some);
            assert(more.take(some.len() as int)[0] == more[0]);
            entry::cluster_round_trip(f.0, h);
            contents::lemma_longer(0, more.len() as int, b);
            if !model::fixed_root(st, f.1) && more.contains(f.1) {
                assert(!chains::busy(s1, f.1));
            }
        }
        more
    } else {
        some
    }
}

/// What is written through a path is stored: the directory entry that the path leads to says
/// where the file is and how long, a read by that entry gives the data back, and the other
/// bytes of the file are what they were. A want of space is the only way to fail.
pub proof fn written_through_path(
    st: FatState,
    path: Seq<Seq<char>>,
    f: (EntryView, u32, int),
    cs: Seq<u32>,
    offset: int,
    data: Seq<u8>,
    now: u64,
) -> (more: Seq<u32>)
    requires
        chains::in_order(st),
        ops::file_at(st, path) == Ok::<(EntryView, u32, int), Error>(f),
        dir_in_order(st, f.1),
        entry::first_cluster(f.0) >= 2 ==> contents::file_in(st, f.0, cs) && (model::fixed_root(
            st,
            f.1,
        ) || !cs.contains(f.1)),
        entry::first_cluster(f.0) < 2 ==> f.0.file_size == 0 && cs.len() == 0,
        offset >= 0,
        data.len() > 0,
        offset + data.len() <= u32::MAX,
    ensures
        match ops::write_at_path(st, path, offset, data, now).1 {
            Err(x) => x == Error::NoSpace,
            Ok(n) => n == data.len() && stored_at(
                st,
                ops::write_at_path(st, path, offset, data, now).0,
                f,
                cs,
                more,
                offset,
                data,
            ),
        },
{
    lemma_path_entry(st, path, f);
    let more = if entry::first_cluster(f.0) >= 2 {
        lemma_data_placed(st, f, cs, offset, data)
    } else {
        assert(cs =~= Seq::<u32>::empty());
        lemma_first_data_placed(st, f, offset, data)
    };
    lemma_path_end(st, path, f, cs, more, offset, data, now);
    more
}

/// A path leads to an entry of a directory cluster.
pub(crate) proof fn lemma_path_entry(st: FatState, path: Seq<Seq<char>>, f: (EntryView, u32, int))
    requires
        chains::in_order(st),
        ops::file_at(st, path) == Ok::<(EntryView, u32, int), Error>(f),
        dir_in_order(st, f.1),
    ensures
        0 <= f.2,
        f.2 + 32 <= model::region(st, f.1).1 * 512,
        f.0 == entry_in_dir(st, f.1, f.2),
        !entry::has_attr(f.0, ATTR_DIRECTORY),
{
    reveal(model::find);
    lemma_dir(st, f.1);
    match model::walk(st, path, 0, path.len() - 1, model::root_cluster(st)) {
        Ok(Some(c)) => lemma_slot(st, c, path.last(), model::chain_limit(st)),
        _ => {},
    }
}

/// The end of a write through a path, after the bytes are in place.
#[verifier::spinoff_prover]
#[verifier::rlimit(40)]
proof fn lemma_path_end(
    st: FatState,
    path: Seq<Seq<char>>,
    f: (EntryView, u32, int),
    cs: Seq<u32>,
    more: Seq<u32>,
    offset: int,
    data: Seq<u8>,
    now: u64,
)
    requires
        ops::file_at(st, path) == Ok::<(EntryView, u32, int), Error>(f),
        !entry::has_attr(f.0, ATTR_DIRECTORY),
        0 <= f.2,
        f.2 + 32 <= model::region(st, f.1).1 * 512,
        offset >= 0,
        data.len() > 0,
        offset + data.len() <= u32::MAX,
        ({
            let (s1, r1) = crate::fat32::write::write_file(
                st,
                f.0,
                Some((f.1, f.2)),
                offset,
                data,
            );
            match r1 {
                Err(x) => x == Error::NoSpace,
                Ok(_) => placed_in(st, s1, f, cs, more, offset, data),
            }
        }),
    ensures
        match ops::write_at_path(st, path, offset, data, now).1 {
            Err(x) => x == Error::NoSpace,
            Ok(n) => n == data.len() && stored_at(
                st,
                ops::write_at_path(st, path, offset, data, now).0,
                f,
                cs,
                more,
                offset,
                data,
            ),
        },
{
    let (s1, r1) = crate::fat32::write::write_file(st, f.0, Some((f.1, f.2)), offset, data);
    let size = (if f.0.file_size > offset + data.len() {
        f.0.file_size as int
    } else {
        offset + data.len()
    }) as u32;
    let t = types::file_time_of(now);
    lemma_path_steps(st, path, f, offset, data, now, size);
    if r1 is Ok {
        lemma_path_patch(s1, f.1, f.2, size, t);
        let s2 = model::patch(s1, f.1, f.2, Change::Grown(size, t)).0;
        let z = ops::remember(s2, f.1, f.2, r1->Ok_0, size);
        lemma_entry_grown(st, s1, f, cs, more, offset, data, size, t, z);
    }
}

/// The steps of a write through a path.
proof fn lemma_path_steps(
    st: FatState,
    path: Seq<Seq<char>>,
    f: (EntryView, u32, int),
    offset: int,
    data: Seq<u8>,
    now: u64,
    size: u32,
)
    requires
        ops::file_at(st, path) == Ok::<(EntryView, u32, int), Error>(f),
        offset >= 0,
        data.len() > 0,
        offset + data.len() <= u32::MAX,
        size == (if f.0.file_size > offset + data.len() {
            f.0.file_size as int
        } else {
            offset + data.len()
        }),
    ensures
        ({
            let (s1, r1) = crate::fat32::write::write_file(
                st,
                f.0,
                Some((f.1, f.2)),
                offset,
                data,
            );
            let (s2, r2) = model::patch(
                s1,
                f.1,
                f.2,
                Change::Grown(size, types::file_time_of(now)),
            );
            ops::write_at_path(st, path, offset, data, now) == (match r1 {
                Err(x) => (s1, Err::<u64, Error>(x)),
                Ok(head) => match r2 {
                    Err(x) => (s2, Err::<u64, Error>(x)),
                    Ok(_) => (
                        ops::remember(s2, f.1, f.2, head, size),
                        Ok::<u64, Error>(data.len() as u64),
                    ),
                },
            })
        }),
{
    reveal(ops::write_at_path);
}

proof fn lemma_path_patch(st: FatState, c: u32, off: int, size: u32, t: types::FileTime)
    requires
        chains::in_order(st),
        dir_in_order(st, c),
        0 <= off,
        off + 32 <= model::region(st, c).1 * 512,
    ensures
        ({
            let (z, r) = model::patch(st, c, off, Change::Grown(size, t));
            &&& r == Ok::<(), Error>(())
            &&& driver::same_layout(z, st)
            &&& z.info == st.info
        }),
{
    change_is_stored(st, c, off, Change::Grown(size, t));
}

} // verus!
