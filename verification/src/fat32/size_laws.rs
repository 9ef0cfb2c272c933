//! What setting the size of a file does: the clusters stay with the file, and what lies below
//! the new end stays what it was; a file that is emptied gives its clusters back.
use vstd::prelude::*;
use crate::error::Error;
use super::chains;
use super::contents;
use super::driver;
use super::entry;
use super::entry::EntryView;
use super::entry_laws;
use super::free_laws;
use super::model;
use super::model::{Change, FatState};
use super::ops;

verus! {

/// A file whose size is set to something has that size, and keeps its clusters and what it
/// holds in them. No longer than its clusters reach, it lies in them as before.
#[verifier::spinoff_prover]
#[verifier::rlimit(40)]
pub proof fn cut_through_path(
    st: FatState,
    path: Seq<Seq<char>>,
    f: (EntryView, u32, int),
    cs: Seq<u32>,
    size: u64,
)
    requires
        chains::in_order(st),
        ops::file_at(st, path) == Ok::<(EntryView, u32, int), Error>(f),
        entry_laws::dir_in_order(st, f.1),
        contents::file_in(st, f.0, cs),
        model::fixed_root(st, f.1) || !cs.contains(f.1),
        0 < size <= u32::MAX,
    ensures
        ({
            let (z, r) = ops::truncate_at(st, path, size);
            let e = EntryView { file_size: size as u32, ..f.0 };
            &&& r == Ok::<(), Error>(())
            &&& chains::in_order(z)
            &&& entry_laws::entry_in_dir(z, f.1, f.2) == e
            &&& size <= cs.len() * model::bpc(st) ==> contents::file_in(z, e, cs)
            &&& forall|p: int|
                0 <= p < cs.len() * model::bpc(st) ==> #[trigger] contents::byte_at(z, cs, p)
                    == contents::byte_at(st, cs, p)
        }),
{
    reveal(ops::truncate_at);
    let ch = Change::Size(size as u32);
    entry_laws::lemma_path_entry(st, path, f);
    entry_laws::change_is_stored(st, f.1, f.2, ch);
    let s1 = model::patch(st, f.1, f.2, ch).0;
    entry_laws::lemma_chain_apart(st, s1, f.1, f.2, ch, cs);
    let z = ops::amend(s1, f.1, f.2, None, size as u32);
    entry_laws::lemma_remembered(s1, z, cs);
    assert(ops::truncate_at(st, path, size).0 == z);
    let e = EntryView { file_size: size as u32, ..f.0 };
    assert(entry_laws::entry_in_dir(z, f.1, f.2) == entry_laws::entry_in_dir(s1, f.1, f.2));
    assert forall|p: int| 0 <= p < cs.len() * model::bpc(st) implies
        #[trigger] contents::byte_at(z, cs, p) == contents::byte_at(st, cs, p) by {
        assert(contents::byte_at(s1, cs, p) == contents::byte_at(st, cs, p));
    }
}

/// A file that is emptied has no clusters and no bytes, and its clusters are free.
#[verifier::spinoff_prover]
#[verifier::rlimit(40)]
pub proof fn emptied_through_path(
    st: FatState,
    path: Seq<Seq<char>>,
    f: (EntryView, u32, int),
    cs: Seq<u32>,
)
    requires
        chains::in_order(st),
        ops::file_at(st, path) == Ok::<(EntryView, u32, int), Error>(f),
        entry_laws::dir_in_order(st, f.1),
        contents::file_in(st, f.0, cs),
        cs.len() <= model::free_limit(st),
        model::fixed_root(st, f.1) || !cs.contains(f.1),
    ensures
        ({
            let (z, r) = ops::truncate_at(st, path, 0);
            let e = entry_laws::entry_in_dir(z, f.1, f.2);
            &&& r == Ok::<(), Error>(())
            &&& chains::in_order(z)
            &&& e.file_size == 0
            &&& entry::first_cluster(e) == 0
            &&& e.name == f.0.name
            &&& forall|i: int| 0 <= i < cs.len() ==> !chains::busy(z, #[trigger] cs[i])
        }),
{
    reveal(ops::truncate_at);
    entry_laws::lemma_path_entry(st, path, f);
    assert(contents::used(st, cs[0]));
    free_laws::freed_is_free(st, cs);
    let s1 = model::free_chain(st, cs[0]).0;
    assert(ops::free_data(st, entry::first_cluster(f.0)).0 == s1);
    lemma_dir_left(st, s1, f.1, cs);
    entry_laws::change_is_stored(s1, f.1, f.2, Change::Emptied);
    let s2 = model::patch(s1, f.1, f.2, Change::Emptied).0;
    let z = ops::amend(s2, f.1, f.2, Some(0), 0);
    chains::lemma_same_fat(z, s2);
    chains::lemma_keeps_order(z, s2, Set::empty());
    assert(ops::truncate_at(st, path, 0).0 == z);
    assert(entry_laws::entry_in_dir(z, f.1, f.2) == entry_laws::entry_in_dir(s2, f.1, f.2));
    assert forall|i: int| 0 <= i < cs.len() implies !chains::busy(z, #[trigger] cs[i]) by {
        assert(cs.contains(cs[i]));
        assert(!chains::busy(s1, cs[i]));
        assert(model::fat_value(s2, cs[i]) == model::fat_value(s1, cs[i]));
        assert(model::fat_value(z, cs[i]) == model::fat_value(s2, cs[i]));
    }
}

/// A directory apart from a chain is what it was when the chain has been freed.
proof fn lemma_dir_left(st: FatState, z: FatState, c: u32, cs: Seq<u32>)
    requires
        chains::in_order(st),
        entry_laws::dir_in_order(st, c),
        model::fixed_root(st, c) || !cs.contains(c),
        free_laws::freed(st, z, cs),
    ensures
        entry_laws::dir_in_order(z, c),
        model::dir_data(z, c) == model::dir_data(st, c),
        chains::in_order(z),
        driver::same_layout(z, st),
{
    entry_laws::lemma_dir(st, c);
    assert(entry_laws::dir_in_order(z, c)) by {
        if !model::fixed_root(st, c) {
            assert(model::fat_value(z, c) == model::fat_value(st, c));
        }
    }
    entry_laws::lemma_dir(z, c);
    let n = model::region(st, c).1 * 512;
    let at = entry_laws::dir_spot(st, c);
    assert(z.disk.subrange(at, at + n) =~= st.disk.subrange(at, at + n));
}

} // verus!
