//! What the operations on paths come to: what was made is in the directory that the path leads to
//! and in no other, and what cannot be done is refused.
use vstd::prelude::*;
use crate::bytes;
use crate::error::Error;
use crate::path;
use crate::text;
use crate::types;
use crate::types::FileTime;
use super::chains;
use super::contents;
use super::dir_laws;
use super::driver;
use super::entry;
use super::entry::EntryView;
use super::entry_laws;
use super::model;
use super::model::FatState;
use super::names;
use super::ops;
use super::path_laws;
use super::structures::ATTR_DIRECTORY;

verus! {

// ---- What is remembered of files --------------------------------------------------------------

/// Whether two states differ in what is remembered of files alone.
pub open spec fn same_volume(a: FatState, z: FatState) -> bool {
    z == (FatState { inodes: z.inodes, ..a })
}

proof fn lemma_same_volume(a: FatState, z: FatState, c: u32, name: Seq<char>, fuel: int)
    requires
        same_volume(a, z),
    ensures
        model::dir_data(z, c) == model::dir_data(a, c),
        model::fat_next(z, c) == model::fat_next(a, c),
        model::find_slot(z, c, name, fuel) == model::find_slot(a, c, name, fuel),
    decreases fuel,
{
    reveal(model::fat_next);
    assert(model::fat_value(z, c) == model::fat_value(a, c));
    if fuel > 0 {
        match model::fat_next(a, c) {
            Ok(Some(n)) => lemma_same_volume(a, z, n, name, fuel - 1),
            _ => {},
        }
    }
}

// ---- Making -----------------------------------------------------------------------------------

/// Whether a name can be kept as a short one: an entry with it is shown under it, and does not
/// look like a free slot.
pub open spec fn keeps(name: Seq<char>) -> bool {
    let n = entry::fat_name(name);
    &&& entry::valid_short(vstd::utf8::encode_utf8(name))
    &&& n.len() == 11 && n[0] != 0 && n[0] != 0xE5
    &&& path_laws::named(EntryView { name: n, ..entry::zero_entry() }, name)
}

/// Whether the path leads to directory `ds[0]`, which is made up of the clusters `ds`.
pub open spec fn leads_to(st: FatState, dirs: Seq<Seq<char>>, ds: Seq<u32>) -> bool {
    &&& chains::in_order(st)
    &&& dir_laws::dir_holds(st, ds)
    &&& ds.len() > 0
    &&& ds.len() < model::chain_limit(st)
    &&& path_laws::led_to(st, dirs) == Ok::<Option<u32>, Error>(Some(ds[0]))
}

#[verifier::spinoff_prover]
#[verifier::rlimit(40)]
proof fn lemma_entered(
    st: FatState,
    ds: Seq<u32>,
    name: Seq<char>,
    attributes: u8,
    c: u32,
    t: FileTime,
    tenth: u8,
)
    requires
        chains::in_order(st),
        dir_laws::dir_holds(st, ds),
        ds.len() > 0,
        ds.len() < model::chain_limit(st),
        keeps(name),
        model::dir_entries(st, ds[0]) matches Ok(es) ==> !names::taken(es, entry::fat_name(name)),
        model::find_slot(st, ds[0], name, model::chain_limit(st)) == Ok::<
            Option<(EntryView, u32, int)>,
            Error,
        >(None),
        ops::add_entry(st, ds[0], name, attributes, c, t, tenth).1 is Ok,
    ensures
        ({
            let (z, r) = ops::add_entry(st, ds[0], name, attributes, c, t, tenth);
            let e = ops::stamped(entry::fat_name(name), attributes, c, t, tenth);
            &&& model::find_slot(z, ds[0], name, model::chain_limit(z)) == Ok::<
                Option<(EntryView, u32, int)>,
                Error,
            >(Some((e, r->Ok_0.0, r->Ok_0.1)))
            &&& path_laws::named(e, name)
            &&& driver::same_layout(z, st)
            &&& dir_laws::others_same(st, z, ds)
        }),
{
    reveal(ops::add_entry);
    reveal(names::short_for);
    let e = ops::stamped(entry::fat_name(name), attributes, c, t, tenth);
    let e0 = EntryView { name: entry::fat_name(name), ..entry::zero_entry() };
    assert(entry::entry_name(e) == entry::entry_name(e0));
    assert(dir_laws::live(e));
    dir_laws::short_entry_always_has_room(st, ds, e, name);
    dir_laws::appended_is_found(st, ds, e, None, name, model::chain_limit(st));
}

/// A file that is made through a path is in the directory that the path without its last name
/// leads to: found there under the name, empty, and no directory. Every other directory is what
/// it was. Its name is taken to be one that can be kept as a short one.
#[verifier::spinoff_prover]
#[verifier::rlimit(40)]
pub proof fn file_is_made_in_its_directory(
    st: FatState,
    dirs: Seq<Seq<char>>,
    name: Seq<char>,
    ds: Seq<u32>,
    now: u64,
)
    requires
        leads_to(st, dirs, ds),
        keeps(name),
        model::dir_entries(st, ds[0]) matches Ok(es) ==> !names::taken(es, entry::fat_name(name)),
        ops::create_file_at(st, dirs.push(name), now).1 is Ok,
    ensures
        ({
            let z = ops::create_file_at(st, dirs.push(name), now).0;
            &&& model::find_slot(z, ds[0], name, model::chain_limit(z)) matches Ok(Some(f)) && {
                &&& path_laws::named(f.0, name)
                &&& f.0.file_size == 0
                &&& entry::first_cluster(f.0) == 0
                &&& !entry::has_attr(f.0, ATTR_DIRECTORY)
            }
            &&& forall|x: u32|
                entry_laws::dir_in_order(st, x) && !ds.contains(x) ==> #[trigger] model::dir_data(
                    z,
                    x,
                ) == model::dir_data(st, x)
        }),
{
    reveal(ops::create_file_at);
    path_laws::path_leads_on(st, dirs, name);
    let t = types::file_time_of(now);
    assert(dirs.push(name).last() == name);
    lemma_entered(st, ds, name, 0x20, 0, t, t.tenth);
    let (s, r) = ops::add_entry(st, ds[0], name, 0x20, 0, t, t.tenth);
    let z = ops::create_file_at(st, dirs.push(name), now).0;
    assert(same_volume(s, z));
    lemma_same_volume(s, z, ds[0], name, model::chain_limit(s));
    assert(0x20u8 & 0x10 == 0) by (bit_vector);
    assert forall|x: u32| entry_laws::dir_in_order(st, x) && !ds.contains(x) implies
        #[trigger] model::dir_data(z, x) == model::dir_data(st, x) by {
        assert(dir_laws::same_member(s, st, x));
        lemma_same_volume(s, z, x, name, 0);
    }
}

/// What the first cluster of a new directory lists: the directory itself and the one it is in.
#[verifier::spinoff_prover]
#[verifier::rlimit(40)]
pub proof fn new_directory_lists_itself(size: int, own: u32, up: u32, t: FileTime)
    requires
        size >= 512,
        size % 32 == 0,
    ensures
        ({
            let d = ops::fresh_dir(size, own, up, t);
            let (es, ended) = model::listed(d, 0, size);
            &&& d.len() == size
            &&& es.len() == 2
            &&& ended
            &&& entry::first_cluster(es[0]) == own && entry::has_attr(es[0], ATTR_DIRECTORY)
            &&& entry::first_cluster(es[1]) == up && entry::has_attr(es[1], ATTR_DIRECTORY)
            &&& es[0].name == entry::fat_name(seq!['.'])
            &&& es[1].name == entry::fat_name(seq!['.', '.'])
        }),
{
    let a = ops::stamped(entry::fat_name(seq!['.']), 0x10, own, t, 0);
    let b = ops::stamped(entry::fat_name(seq!['.', '.']), 0x10, up, t, 0);
    assert(seq!['.'].len() != seq!['.', '.'].len());
    assert(entry::fat_name(seq!['.']).len() == 11 && entry::fat_name(seq!['.'])[0] == 0x2E);
    assert(entry::fat_name(seq!['.', '.']).len() == 11 && entry::fat_name(seq!['.', '.'])[0]
        == 0x2E);
    entry::entry_round_trip(a);
    entry::entry_round_trip(b);
    entry::cluster_round_trip(entry::zero_entry(), own);
    entry::cluster_round_trip(entry::zero_entry(), up);
    let ea = entry::enc_entry(a);
    let eb = entry::enc_entry(b);
    let d = ops::fresh_dir(size, own, up, t);
    assert(d.subrange(0, 32) =~= ea);
    assert(d.subrange(32, 64) =~= eb);
    assert(ea.subrange(0, 32) =~= ea);
    assert(eb.subrange(0, 32) =~= eb);
    entry_laws::lemma_entry_same(d, 0, ea, 0);
    entry_laws::lemma_entry_same(d, 32, eb, 0);
    assert(d[0] == d.subrange(0, 11)[0]);
    assert(d[32] == d.subrange(32, 43)[0]);
    assert(d[64] == 0);
    assert(0x10u8 & 0x10 != 0 && 0x10u8 & 0x08 == 0) by (bit_vector);
    let e = Seq::<EntryView>::empty();
    reveal_with_fuel(model::listed, 4);
    assert(seq![b] + e =~= seq![b]);
    let l = model::listed(d, 0, size).0;
    assert(l =~= seq![a] + seq![b]);
}

/// A cluster that is taken leaves directories alone.
#[verifier::spinoff_prover]
#[verifier::rlimit(40)]
proof fn lemma_taken_beside(st: FatState, s1: FatState, c: u32, x: u32)
    requires
        chains::in_order(st),
        chains::taken(st, s1, c),
        entry_laws::dir_in_order(st, x),
    ensures
        entry_laws::dir_in_order(s1, x),
        dir_laws::same_member(s1, st, x),
        x != c,
{
    entry_laws::lemma_dir(st, x);
    if !model::fixed_root(st, x) {
        assert(x != c);
        assert(model::fat_value(s1, x) == model::fat_value(st, x));
        contents::lemma_spot(st, x);
        assert(model::fat_next(s1, x) == model::fat_next(st, x)) by {
            reveal(model::fat_next);
        }
    } else {
        assert(c >= 2);
    }
    entry_laws::lemma_dir(s1, x);
    let b = entry_laws::dir_spot(st, x);
    let m = model::region(st, x).1 * 512;
    assert(s1.disk.subrange(b, b + m) =~= st.disk.subrange(b, b + m));
}

/// The entries of a directory that is the same.
proof fn lemma_entries_same(z: FatState, st: FatState, ds: Seq<u32>, i: int, fuel: int)
    requires
        driver::same_layout(z, st),
        chains::fats_fit(st),
        contents::holds(st, ds),
        0 <= i < ds.len(),
        forall|j: int| 0 <= j < ds.len() ==> dir_laws::same_member(z, st, #[trigger] ds[j]),
    ensures
        model::cluster_entries(z, ds[i], fuel) == model::cluster_entries(st, ds[i], fuel),
    decreases fuel,
{
    if fuel > 0 {
        assert(contents::used(st, ds[i]));
        assert(contents::follows(st, ds, i));
        assert(dir_laws::same_member(z, st, ds[i]));
        if i + 1 < ds.len() {
            lemma_entries_same(z, st, ds, i + 1, fuel - 1);
        }
    }
}

/// A directory in order stays so, with the same entries, when a cluster is taken and filled.
#[verifier::spinoff_prover]
#[verifier::rlimit(60)]
proof fn lemma_filled_beside(
    st: FatState,
    s1: FatState,
    c: u32,
    data: Seq<u8>,
    ds: Seq<u32>,
    name: Seq<char>,
)
    requires
        chains::in_order(st),
        dir_laws::dir_holds(st, ds),
        ds.len() > 0,
        chains::taken(st, s1, c),
        data.len() == model::bpc(st),
    ensures
        ({
            let (s2, r) = model::write(s1, model::cluster_lba(s1, c), data);
            &&& r == Ok::<(), Error>(())
            &&& chains::in_order(s2)
            &&& driver::same_layout(s2, st)
            &&& contents::used(s2, c)
            &&& model::dir_data(s2, c) == Ok::<Seq<u8>, Error>(data)
            &&& model::fat_next(s2, c) == Ok::<Option<u32>, Error>(None)
            &&& !ds.contains(c)
            &&& dir_laws::dir_holds(s2, ds)
            &&& forall|x: u32|
                entry_laws::dir_in_order(st, x) ==> entry_laws::dir_in_order(s2, x)
                    && #[trigger] dir_laws::same_member(s2, st, x)
            &&& model::find_slot(s2, ds[0], name, model::chain_limit(st)) == model::find_slot(
                st,
                ds[0],
                name,
                model::chain_limit(st),
            )
            &&& model::dir_entries(s2, ds[0]) == model::dir_entries(st, ds[0])
        }),
{
    assert(entry_laws::dir_in_order(s1, c));
    contents::lemma_spot(s1, c);
    dir_laws::lemma_dir_write(s1, c, data);
    let s2 = model::write(s1, model::cluster_lba(s1, c), data).0;
    assert(model::region(s1, c) == (model::cluster_lba(s1, c), model::spc(s1)));
    assert forall|x: u32| entry_laws::dir_in_order(st, x) implies entry_laws::dir_in_order(s2, x)
        && #[trigger] dir_laws::same_member(s2, st, x) by {
        lemma_taken_beside(st, s1, c, x);
        assert(dir_laws::same_member(s2, s1, x));
        if !model::fixed_root(st, x) {
            assert(model::fat_value(s2, x) == model::fat_value(s1, x));
        }
    }
    assert forall|j: int| 0 <= j < ds.len() implies dir_laws::same_member(s2, st, #[trigger] ds[j])
        && ds[j] != c && entry_laws::dir_in_order(s2, ds[j]) by {
        dir_laws::lemma_member(st, ds, j);
        lemma_taken_beside(st, s1, c, ds[j]);
        assert(dir_laws::same_member(s2, st, ds[j]));
    }
    assert(dir_laws::same_member(s2, st, ds[0]));
    if !(ds.len() == 1 && model::fixed_root(st, ds[0])) {
        assert(contents::holds(s2, ds)) by {
            assert forall|j: int| 0 <= j < ds.len() implies #[trigger] contents::follows(
                s2,
                ds,
                j,
            ) by {
                assert(contents::follows(st, ds, j));
                assert(dir_laws::same_member(s2, st, ds[j]));
                dir_laws::lemma_member(st, ds, j);
            }
            assert forall|j: int| 0 <= j < ds.len() implies contents::used(
                s2,
                #[trigger] ds[j],
            ) by {
                dir_laws::lemma_member(st, ds, j);
                assert(entry_laws::dir_in_order(s2, ds[j]));
            }
        }
        dir_laws::lemma_member(st, ds, 0);
        lemma_entries_same(s2, st, ds, 0, model::chain_limit(st));
    } else {
        dir_laws::lemma_member(st, ds, 0);
        driver::lemma_geometry(st, 0);
        if model::root_len(st) > 0 {
            let d = model::dir_data(st, ds[0])->Ok_0;
            path_laws::lemma_root_lists(st, d, 0);
            path_laws::lemma_root_lists(s2, d, 0);
        }
    }
    dir_laws::lemma_search_same(s2, st, ds, 0, name, model::chain_limit(st));
}

/// A directory that is made through a path is in the directory that the path without its last
/// name leads to: found there under the name, as a directory that lists itself and the one it is
/// in. Every other directory is what it was.
#[verifier::spinoff_prover]
#[verifier::rlimit(60)]
pub proof fn directory_is_made_in_its_directory(
    st: FatState,
    dirs: Seq<Seq<char>>,
    name: Seq<char>,
    ds: Seq<u32>,
    now: u64,
)
    requires
        leads_to(st, dirs, ds),
        keeps(name),
        model::dir_entries(st, ds[0]) matches Ok(es) ==> !names::taken(es, entry::fat_name(name)),
        ops::create_dir_at(st, dirs.push(name), now).1 is Ok,
    ensures
        ({
            let z = ops::create_dir_at(st, dirs.push(name), now).0;
            &&& model::find_slot(z, ds[0], name, model::chain_limit(z)) matches Ok(Some(f)) && {
                let c = entry::first_cluster(f.0);
                &&& path_laws::named(f.0, name)
                &&& entry::has_attr(f.0, ATTR_DIRECTORY)
                &&& !chains::busy(st, c)
                &&& model::dir_entries(z, c) matches Ok(es) && {
                    &&& es.len() == 2
                    &&& entry::first_cluster(es[0]) == c
                    &&& entry::first_cluster(es[1]) == ds[0]
                    &&& es[0].name == entry::fat_name(seq!['.'])
                    &&& es[1].name == entry::fat_name(seq!['.', '.'])
                }
            }
            &&& forall|x: u32|
                entry_laws::dir_in_order(st, x) && !ds.contains(x) ==> #[trigger] model::dir_data(
                    z,
                    x,
                ) == model::dir_data(st, x)
        }),
{
    reveal(ops::create_dir_at);
    path_laws::path_leads_on(st, dirs, name);
    let t = types::file_time_of(now);
    let d = ds[0];
    assert(dirs.push(name).last() == name);
    chains::take_gives_a_free_cluster(st);
    let (s1, r1) = model::take_cluster(st);
    let c = r1->Ok_0;
    driver::lemma_geometry(st, c);
    contents::lemma_spot(st, c);
    let data = ops::fresh_dir(model::bpc(st), c, d, t);
    new_directory_lists_itself(model::bpc(st), c, d, t);
    lemma_filled_beside(st, s1, c, data, ds, name);
    let s2 = model::write(s1, model::cluster_lba(s1, c), data).0;
    lemma_entered(s2, ds, name, 0x10, c, t, 0);
    let (z, r) = ops::add_entry(s2, d, name, 0x10, c, t, 0);
    entry::cluster_round_trip(entry::zero_entry(), c);
    assert(0x10u8 & 0x10 != 0) by (bit_vector);
    assert(entry_laws::dir_in_order(s2, c));
    assert(dir_laws::same_member(z, s2, c));
    assert(model::dir_data(z, c) == Ok::<Seq<u8>, Error>(data));
    assert(!model::fixed_root(z, c));
    let (es, ended) = model::listed(data, 0, data.len() as int);
    assert(model::cluster_entries(z, c, model::chain_limit(z)) == Ok::<Seq<EntryView>, Error>(es));
    assert forall|x: u32| entry_laws::dir_in_order(st, x) && !ds.contains(x) implies
        #[trigger] model::dir_data(z, x) == model::dir_data(st, x) by {
        assert(dir_laws::same_member(s2, st, x));
        assert(dir_laws::same_member(z, s2, x));
    }
}

// ---- What is refused --------------------------------------------------------------------------

/// What cannot be done is refused, and nothing changes: making what is there already, making
/// anything where the path leads nowhere, removing or cutting a directory as a file, removing a
/// file as a directory or a directory that is not empty, and renaming to another directory.
pub proof fn refused(
    st: FatState,
    dirs: Seq<Seq<char>>,
    name: Seq<char>,
    to: Seq<Seq<char>>,
    f: (EntryView, u32, int),
    size: u64,
    now: u64,
)
    requires
        name != seq!['/'],
    ensures
        ({
            let cs = dirs.push(name);
            let there = model::find(st, cs) == Ok::<Option<(EntryView, u32, int)>, Error>(Some(f));
            let dir = entry::has_attr(f.0, ATTR_DIRECTORY);
            &&& there ==> ops::create_file_at(st, cs, now) == (st, Err::<(), Error>(Error::IoError))
                && ops::create_dir_at(st, cs, now) == (st, Err::<(), Error>(Error::IoError))
            &&& path_laws::led_to(st, dirs) == Ok::<Option<u32>, Error>(None)
                ==> ops::create_file_at(st, cs, now) == (st, Err::<(), Error>(Error::FileNotFound))
                && ops::create_dir_at(st, cs, now) == (st, Err::<(), Error>(Error::FileNotFound))
                && ops::remove_file_at(st, cs) == (st, Err::<(), Error>(Error::FileNotFound))
                && ops::remove_dir_at(st, cs) == (st, Err::<(), Error>(Error::FileNotFound))
            &&& there && dir ==> ops::remove_file_at(st, cs) == (
                st,
                Err::<(), Error>(Error::NotAFile),
            ) && ops::truncate_at(st, cs, size) == (st, Err::<(), Error>(Error::NotAFile))
            &&& there && !dir ==> ops::remove_dir_at(st, cs) == (
                st,
                Err::<(), Error>(Error::NotADir),
            ) && ops::list_at(st, cs) == Err::<Seq<types::FileView>, Error>(Error::NotADir)
            &&& there && dir && entry::first_cluster(f.0) >= 2 && ops::empty_dir(
                st,
                entry::first_cluster(f.0),
                model::chain_limit(st),
            ) == Ok::<bool, Error>(false) ==> ops::remove_dir_at(st, cs) == (
                st,
                Err::<(), Error>(Error::IoError),
            )
            &&& to.len() > 0 && to.drop_last() != dirs ==> ops::rename_at(st, cs, to) == (
                st,
                Err::<(), Error>(Error::Unsupported),
            )
            &&& there && !dir && size > u32::MAX ==> ops::truncate_at(st, cs, size) == (
                st,
                Err::<(), Error>(Error::IoError),
            )
        }),
{
    reveal(ops::create_file_at);
    reveal(ops::create_dir_at);
    reveal(ops::remove_file_at);
    reveal(ops::remove_dir_at);
    reveal(ops::truncate_at);
    reveal(ops::rename_at);
    reveal(ops::list_at);
    let cs = dirs.push(name);
    path_laws::path_leads_on(st, dirs, name);
    assert(cs.drop_last() =~= dirs);
    assert(!path::root_path(cs));
}

// ---- Listing ----------------------------------------------------------------------------------

/// What is listed under a path are the entries of the directory that the path leads to, each with
/// its name, its size and whether it is a directory.
pub proof fn path_lists_the_directory_it_leads_to(
    st: FatState,
    dirs: Seq<Seq<char>>,
    name: Seq<char>,
    c: u32,
    f: (EntryView, u32, int),
)
    requires
        name != seq!['/'],
        model::spc(st) > 0,
        model::root_lba(st) >= 0,
        path_laws::led_to(st, dirs) == Ok::<Option<u32>, Error>(Some(c)),
        model::dir_entries(st, c) is Ok,
        model::dir_data(st, c) is Ok,
        model::find(st, dirs.push(name)) == Ok::<Option<(EntryView, u32, int)>, Error>(Some(f)),
        entry::has_attr(f.0, ATTR_DIRECTORY),
        !entry::has_attr(f.0, super::structures::ATTR_VOLUME_ID),
        entry::first_cluster(f.0) != 0,
    ensures
        ({
            let d = entry::first_cluster(f.0);
            &&& path_laws::led_to(st, dirs.push(name)) == Ok::<Option<u32>, Error>(Some(d))
            &&& model::dir_entries(st, d) matches Err(e) ==> ops::list_at(st, dirs.push(name))
                == Err::<Seq<types::FileView>, Error>(e)
            &&& model::dir_entries(st, d) matches Ok(es) ==> (ops::list_at(
                st,
                dirs.push(name),
            ) matches Ok(fs) && fs.len() == es.len() && forall|k: int|
                0 <= k < fs.len() ==> (#[trigger] fs[k]).name == entry::entry_name(es[k])
                    && fs[k].size == es[k].file_size && (fs[k].kind is Directory
                    <==> entry::has_attr(es[k], 0x10)))
        }),
{
    reveal(ops::list_at);
    path_laws::path_leads_on(st, dirs, name);
    path_laws::found_directory_is_led_to(st, c, name, f);
    assert(!path::root_path(dirs.push(name))) by {
        assert(dirs.push(name).last() == name);
    }
}

// ---- Short names ------------------------------------------------------------------------------

proof fn lemma_first_free_is_new(es: Seq<EntryView>, s: Seq<char>, k: int)
    ensures
        names::first_free(es, s, k) matches Some(c) ==> !names::taken(es, entry::fat_name(c)),
    decreases names::MAX_SHORT_TRIES + 1 - k,
{
    if 0 <= k <= names::MAX_SHORT_TRIES {
        lemma_first_free_is_new(es, s, k + 1);
    }
}

/// The short name that a new entry gets is one that no entry of the directory has. A name that can
/// be a short one and is free is kept, and then no long name is written.
pub proof fn short_name_is_new(st: FatState, dir: u32, name: Seq<char>)
    requires
        model::dir_entries(st, dir) is Ok,
    ensures
        names::short_for(st, dir, name) matches Ok((c, long)) ==> (forall|k: int|
            0 <= k < model::dir_entries(st, dir)->Ok_0.len() ==> (#[trigger] model::dir_entries(
                st,
                dir,
            )->Ok_0[k]).name != entry::fat_name(c)),
        entry::valid_short(vstd::utf8::encode_utf8(name)) && (forall|k: int|
            0 <= k < model::dir_entries(st, dir)->Ok_0.len() ==> (#[trigger] model::dir_entries(
                st,
                dir,
            )->Ok_0[k]).name != entry::fat_name(name)) ==> names::short_for(st, dir, name) == Ok::<
            (Seq<char>, bool),
            Error,
        >((name, false)),
{
    reveal(names::short_for);
    let es = model::dir_entries(st, dir)->Ok_0;
    lemma_first_free_is_new(es, name, 1);
}

// ---- Removing ---------------------------------------------------------------------------------

/// An entry marked as deleted: one byte of one directory cluster changes.
proof fn lemma_marked(st: FatState, c: u32, off: int)
    requires
        chains::in_order(st),
        entry_laws::dir_in_order(st, c),
        0 <= off,
        off + 32 <= model::region(st, c).1 * 512,
    ensures
        ({
            let (z, r) = model::mark_deleted(st, c, off);
            &&& r == Ok::<(), Error>(())
            &&& chains::in_order(z)
            &&& driver::same_layout(z, st)
            &&& z == (FatState { disk: z.disk, ..st })
            &&& chains::same_but(z, st, Set::empty())
            &&& model::dir_data(z, c) == Ok::<Seq<u8>, Error>(
                model::dir_data(st, c)->Ok_0.update(off, 0xE5u8),
            )
            &&& forall|x: u32|
                entry_laws::dir_in_order(st, x) ==> #[trigger] entry_laws::dir_in_order(z, x)
            &&& forall|x: u32|
                x != c && entry_laws::dir_in_order(st, x) ==> #[trigger] dir_laws::same_member(
                    z,
                    st,
                    x,
                )
        }),
{
    reveal(model::mark_deleted);
    entry_laws::lemma_dir(st, c);
    let d = model::dir_data(st, c)->Ok_0;
    dir_laws::lemma_dir_write(st, c, d.update(off, 0xE5u8));
    let z = model::mark_deleted(st, c, off).0;
    assert forall|x: u32| entry_laws::dir_in_order(st, x) implies
        #[trigger] entry_laws::dir_in_order(z, x) by {
        if !model::fixed_root(st, x) {
            assert(model::fat_value(z, x) == model::fat_value(st, x));
        }
    }
}

/// An entry that is marked as deleted has no long name to be found.
proof fn lemma_no_long_name(d: Seq<u8>, off: int, c: u32, to: u32, to_off: int, p: Seq<(u32, int, u8)>)
    requires
        c == to ==> d[to_off] == 0xE5,
    ensures
        !(model::long_scan(d, off, c, to, to_off, p) is Found),
    decreases d.len() - off,
{
    if off + 32 <= d.len() {
        lemma_no_long_name(d, off + 32, c, to, to_off, Seq::empty());
        lemma_no_long_name(d, off + 32, c, to, to_off, p.push((c, off, d[off + 13])));
    }
}

proof fn lemma_nothing_deleted(
    st: FatState,
    c: u32,
    to: u32,
    to_off: int,
    sum: u8,
    p: Seq<(u32, int, u8)>,
    fuel: int,
)
    requires
        model::dir_data(st, to) matches Ok(d) && d[to_off] == 0xE5,
    ensures
        model::delete_long(st, c, to, to_off, sum, p, fuel).0 == st,
    decreases fuel,
{
    if fuel > 0 {
        if let Ok(d) = model::dir_data(st, c) {
            lemma_no_long_name(d, 0, c, to, to_off, p);
            match model::long_scan(d, 0, c, to, to_off, p) {
                model::LongScan::Past(q) => match model::fat_next(st, c) {
                    Ok(Some(n)) => lemma_nothing_deleted(st, n, to, to_off, sum, q, fuel - 1),
                    _ => {},
                },
                _ => {},
            }
        }
    }
}

/// What a search finds is in use.
proof fn lemma_found_in_use(st: FatState, c: u32, name: Seq<char>, fuel: int)
    ensures
        model::find_slot(st, c, name, fuel) matches Ok(Some(g)) ==> (model::dir_data(
            st,
            g.1,
        ) matches Ok(d) && 0 <= g.2 && g.2 + 32 <= d.len() && d[g.2] != 0xE5 && d[g.2] != 0 && g.0
            == entry::dec_entry(d, g.2)),
    decreases fuel,
{
    if fuel > 0 {
        if let Ok(d) = model::dir_data(st, c) {
            lemma_scan_in_use(d, 0, name);
            match model::fat_next(st, c) {
                Ok(Some(n)) => lemma_found_in_use(st, n, name, fuel - 1),
                _ => {},
            }
        }
    }
}

proof fn lemma_scan_in_use(d: Seq<u8>, off: int, name: Seq<char>)
    requires
        0 <= off,
    ensures
        model::scan(d, off, name) matches model::Scan::Hit(o) ==> off <= o && o + 32 <= d.len()
            && d[o] != 0 && d[o] != 0xE5,
    decreases d.len() - off,
{
    if off + 32 <= d.len() {
        lemma_scan_in_use(d, off + 32, name);
    }
}

/// Whether an entry, and nothing else of any directory, has been marked as deleted, and no search
/// for any name finds it any more. Clusters that were freed are left out.
pub open spec fn deleted_alone(
    st: FatState,
    z: FatState,
    f: (EntryView, u32, int),
    gone: Seq<u32>,
) -> bool {
    &&& model::dir_data(z, f.1) == Ok::<Seq<u8>, Error>(
        model::dir_data(st, f.1)->Ok_0.update(f.2, 0xE5u8),
    )
    &&& forall|x: u32|
        x != f.1 && entry_laws::dir_in_order(st, x) && !gone.contains(x)
            ==> #[trigger] model::dir_data(z, x) == model::dir_data(st, x)
    &&& forall|c: u32, name: Seq<char>, fuel: int|
        found_elsewhere(#[trigger] model::find_slot(z, c, name, fuel), f)
}

/// Whether a search came to another place than that of `f`, if to any.
pub open spec fn found_elsewhere(
    r: Result<Option<(EntryView, u32, int)>, Error>,
    f: (EntryView, u32, int),
) -> bool {
    r matches Ok(Some(g)) ==> !(g.1 == f.1 && g.2 == f.2)
}

/// Whether `gone` are the clusters of the file that starts at `start`, none of them a
/// directory's at `c`; none where it has none.
pub open spec fn data_of(st: FatState, start: u32, gone: Seq<u32>, c: u32) -> bool {
    if start < 2 {
        gone.len() == 0
    } else {
        contents::holds(st, gone) && gone[0] == start && gone.len() <= model::free_limit(st)
            && !gone.contains(c)
    }
}

proof fn lemma_data_freed(st: FatState, start: u32, gone: Seq<u32>, c: u32)
    requires
        chains::in_order(st),
        entry_laws::dir_in_order(st, c),
        data_of(st, start, gone, c),
    ensures
        ({
            let (s1, r1) = ops::free_data(st, start);
            &&& r1 is Ok
            &&& chains::in_order(s1)
            &&& driver::same_layout(s1, st)
            &&& forall|i: int| 0 <= i < gone.len() ==> !chains::busy(s1, #[trigger] gone[i])
            &&& forall|x: u32|
                entry_laws::dir_in_order(st, x) && !gone.contains(x)
                    ==> #[trigger] dir_laws::same_member(s1, st, x) && entry_laws::dir_in_order(
                    s1,
                    x,
                )
        }),
{
    if start >= 2 {
        super::free_laws::freed_is_free(st, gone);
        let s1 = ops::free_data(st, start).0;
        assert forall|x: u32| entry_laws::dir_in_order(st, x) && !gone.contains(x) implies
            #[trigger] dir_laws::same_member(s1, st, x) && entry_laws::dir_in_order(s1, x) by {
            entry_laws::lemma_dir(st, x);
            if !model::fixed_root(st, x) {
                assert(!gone.to_set().contains(x));
                assert(model::fat_value(s1, x) == model::fat_value(st, x));
                contents::lemma_spot(st, x);
                assert(model::fat_next(s1, x) == model::fat_next(st, x)) by {
                    reveal(model::fat_next);
                }
            }
            assert(entry_laws::dir_in_order(s1, x));
            entry_laws::lemma_dir(s1, x);
            let b = entry_laws::dir_spot(st, x);
            let m = model::region(st, x).1 * 512;
            assert(s1.disk.subrange(b, b + m) =~= st.disk.subrange(b, b + m));
        }
    }
}

#[verifier::spinoff_prover]
#[verifier::rlimit(40)]
proof fn lemma_unlinked(st: FatState, dir: u32, f: (EntryView, u32, int))
    requires
        chains::in_order(st),
        entry_laws::dir_in_order(st, f.1),
        0 <= f.2,
        f.2 + 32 <= model::region(st, f.1).1 * 512,
        ops::unlink(st, dir, f).1 is Ok,
    ensures
        deleted_alone(st, ops::unlink(st, dir, f).0, f, Seq::empty()),
        chains::same_but(ops::unlink(st, dir, f).0, st, Set::empty()),
        driver::same_layout(ops::unlink(st, dir, f).0, st),
{
    lemma_marked(st, f.1, f.2);
    let s1 = model::mark_deleted(st, f.1, f.2).0;
    entry_laws::lemma_dir(st, f.1);
    lemma_nothing_deleted(
        s1,
        dir,
        f.1,
        f.2,
        entry::name_checksum(f.0.name),
        Seq::empty(),
        model::chain_limit(s1),
    );
    assert(ops::unlink(st, dir, f).0 == s1);
    assert forall|x: u32| x != f.1 && entry_laws::dir_in_order(st, x) implies
        #[trigger] model::dir_data(s1, x) == model::dir_data(st, x) by {
        assert(dir_laws::same_member(s1, st, x));
    }
    assert forall|c: u32, name: Seq<char>, fuel: int|
        found_elsewhere(#[trigger] model::find_slot(s1, c, name, fuel), f) by {
        lemma_found_in_use(s1, c, name, fuel);
    }
}

/// A file that is removed through a path is found no more: its entry, and nothing else of any
/// directory, is marked as deleted. On FAT12 and FAT16 its clusters are free; on FAT32 they stay
/// until the last user is gone.
#[verifier::spinoff_prover]
#[verifier::rlimit(40)]
pub proof fn removed_file_is_gone(
    st: FatState,
    cs: Seq<Seq<char>>,
    f: (EntryView, u32, int),
    gone: Seq<u32>,
)
    requires
        chains::in_order(st),
        model::find(st, cs) == Ok::<Option<(EntryView, u32, int)>, Error>(Some(f)),
        entry_laws::dir_in_order(st, f.1),
        st.variant is Fat32 ==> gone.len() == 0,
        !(st.variant is Fat32) ==> data_of(st, entry::first_cluster(f.0), gone, f.1),
        ops::remove_file_at(st, cs).1 is Ok,
    ensures
        ({
            let z = ops::remove_file_at(st, cs).0;
            &&& !entry::has_attr(f.0, ATTR_DIRECTORY)
            &&& deleted_alone(st, z, f, gone)
            &&& forall|i: int| 0 <= i < gone.len() ==> !chains::busy(z, #[trigger] gone[i])
        }),
{
    reveal(ops::remove_file_at);
    lemma_found_place(st, cs, f);
    let dir = model::parent(st, cs)->Ok_0;
    let s1 = if st.variant is Fat32 {
        st
    } else {
        lemma_data_freed(st, entry::first_cluster(f.0), gone, f.1);
        ops::free_data(st, entry::first_cluster(f.0)).0
    };
    assert(dir_laws::same_member(s1, st, f.1));
    lemma_unlinked(s1, dir, f);
    let s2 = ops::unlink(s1, dir, f).0;
    let z = ops::remove_file_at(st, cs).0;
    assert(same_volume(s2, z));
    lemma_gone_so_far(st, s1, s2, z, f, gone);
}

proof fn lemma_found_place(st: FatState, cs: Seq<Seq<char>>, f: (EntryView, u32, int))
    requires
        chains::in_order(st),
        model::find(st, cs) == Ok::<Option<(EntryView, u32, int)>, Error>(Some(f)),
        entry_laws::dir_in_order(st, f.1),
    ensures
        0 <= f.2,
        f.2 + 32 <= model::region(st, f.1).1 * 512,
{
    reveal(model::find);
    entry_laws::lemma_dir(st, f.1);
    match model::walk(st, cs, 0, cs.len() - 1, model::root_cluster(st)) {
        Ok(Some(c)) => lemma_found_in_use(st, c, cs.last(), model::chain_limit(st)),
        _ => {},
    }
}

proof fn lemma_gone_so_far(
    st: FatState,
    s1: FatState,
    s2: FatState,
    z: FatState,
    f: (EntryView, u32, int),
    gone: Seq<u32>,
)
    requires
        driver::same_layout(s1, st),
        forall|x: u32|
            entry_laws::dir_in_order(st, x) && !gone.contains(x) ==> #[trigger] dir_laws::same_member(
                s1,
                st,
                x,
            ) && entry_laws::dir_in_order(s1, x),
        forall|i: int| 0 <= i < gone.len() ==> !chains::busy(s1, #[trigger] gone[i]),
        forall|i: int| 0 <= i < gone.len() ==> #[trigger] gone[i] < model::search_limit(st),
        dir_laws::same_member(s1, st, f.1),
        deleted_alone(s1, s2, f, Seq::empty()),
        chains::same_but(s2, s1, Set::empty()),
        same_volume(s2, z),
    ensures
        deleted_alone(st, z, f, gone),
        forall|i: int| 0 <= i < gone.len() ==> !chains::busy(z, #[trigger] gone[i]),
{
    lemma_same_volume(s2, z, f.1, Seq::empty(), 0);
    assert forall|x: u32|
        x != f.1 && entry_laws::dir_in_order(st, x) && !gone.contains(x) implies
        #[trigger] model::dir_data(z, x) == model::dir_data(st, x) by {
        assert(dir_laws::same_member(s1, st, x));
        lemma_same_volume(s2, z, x, Seq::empty(), 0);
        assert(!Seq::<u32>::empty().contains(x));
        assert(model::dir_data(s2, x) == model::dir_data(s1, x));
    }
    assert forall|c: u32, name: Seq<char>, fuel: int|
        found_elsewhere(#[trigger] model::find_slot(z, c, name, fuel), f) by {
        lemma_same_volume(s2, z, c, name, fuel);
        assert(model::find_slot(s2, c, name, fuel) == model::find_slot(z, c, name, fuel));
    }
    assert forall|i: int| 0 <= i < gone.len() implies !chains::busy(z, #[trigger] gone[i]) by {
        assert(model::fat_value(s2, gone[i]) == model::fat_value(s1, gone[i]));
        assert(model::fat_value(z, gone[i]) == model::fat_value(s2, gone[i]));
    }
}

/// A directory that is removed through a path was one and held nothing but itself and the one it
/// is in; it is found no more, and its clusters are free.
#[verifier::spinoff_prover]
#[verifier::rlimit(40)]
pub proof fn removed_directory_is_gone(
    st: FatState,
    cs: Seq<Seq<char>>,
    f: (EntryView, u32, int),
    gone: Seq<u32>,
)
    requires
        chains::in_order(st),
        model::find(st, cs) == Ok::<Option<(EntryView, u32, int)>, Error>(Some(f)),
        entry_laws::dir_in_order(st, f.1),
        data_of(st, entry::first_cluster(f.0), gone, f.1),
        ops::remove_dir_at(st, cs).1 is Ok,
    ensures
        ({
            let z = ops::remove_dir_at(st, cs).0;
            &&& entry::has_attr(f.0, ATTR_DIRECTORY)
            &&& forall|k: int|
                0 <= k < gone.len() ==> (model::dir_data(st, #[trigger] gone[k]) matches Ok(d)
                    && holds_none(d))
            &&& deleted_alone(st, z, f, gone)
            &&& forall|i: int| 0 <= i < gone.len() ==> !chains::busy(z, #[trigger] gone[i])
        }),
{
    reveal(ops::remove_dir_at);
    lemma_found_place(st, cs, f);
    let dir = model::parent(st, cs)->Ok_0;
    let start = entry::first_cluster(f.0);
    lemma_data_freed(st, start, gone, f.1);
    let s1 = ops::free_data(st, start).0;
    assert(dir_laws::same_member(s1, st, f.1));
    lemma_unlinked(s1, dir, f);
    let z = ops::remove_dir_at(st, cs).0;
    assert(same_volume(z, z));
    lemma_gone_so_far(st, s1, z, z, f, gone);
    if start >= 2 {
        lemma_all_bare(st, gone, 0, model::chain_limit(st));
        assert forall|k: int| 0 <= k < gone.len() implies (model::dir_data(
            st,
            #[trigger] gone[k],
        ) matches Ok(d) && holds_none(d)) by {
            assert(bare_at(st, gone[k]));
        }
    }
}

/// Whether up to the end of the directory a cluster of it has no entry in use but `.` and `..`,
/// and parts of long names.
pub open spec fn holds_none(d: Seq<u8>) -> bool {
    forall|o: int|
        0 <= o && o % 32 == 0 && #[trigger] slot(d, o) && (forall|q: int|
            0 <= q <= o && q % 32 == 0 ==> #[trigger] d[q] != 0) ==> d[o] == 0xE5 || d[o + 11] == 0x0F
            || entry::entry_name(entry::dec_entry(d, o)) == seq!['.'] || entry::entry_name(
            entry::dec_entry(d, o),
        ) == seq!['.', '.']
}

/// Whether a slot lies in a cluster.
pub open spec fn slot(d: Seq<u8>, o: int) -> bool {
    o + 32 <= d.len()
}

spec fn bare_at(st: FatState, c: u32) -> bool {
    model::dir_data(st, c) matches Ok(d) && holds_none(d)
}

proof fn lemma_bare(d: Seq<u8>, off: int, o: int)
    requires
        0 <= off <= o,
        off % 32 == 0,
        o % 32 == 0,
        o + 32 <= d.len(),
        ops::bare(d, off),
        forall|q: int| off <= q <= o && q % 32 == 0 ==> #[trigger] d[q] != 0,
    ensures
        d[o] == 0xE5 || d[o + 11] == 0x0F || entry::entry_name(entry::dec_entry(d, o)) == seq!['.']
            || entry::entry_name(entry::dec_entry(d, o)) == seq!['.', '.'],
    decreases o - off,
{
    assert(d[off] != 0);
    if off < o {
        lemma_bare(d, off + 32, o);
    }
}

proof fn lemma_all_bare(st: FatState, gone: Seq<u32>, i: int, fuel: int)
    requires
        contents::holds(st, gone),
        0 <= i < gone.len(),
        ops::empty_dir(st, gone[i], fuel) == Ok::<bool, Error>(true),
    ensures
        forall|k: int| i <= k < gone.len() ==> #[trigger] bare_at(st, gone[k]),
    decreases gone.len() - i,
{
    assert(contents::used(st, gone[i]));
    assert(contents::follows(st, gone, i));
    let d = model::dir_data(st, gone[i])->Ok_0;
    assert(holds_none(d)) by {
        assert forall|o: int|
            0 <= o && o % 32 == 0 && #[trigger] slot(d, o) && (forall|q: int|
                0 <= q <= o && q % 32 == 0 ==> #[trigger] d[q] != 0) implies d[o] == 0xE5 || d[o
            + 11] == 0x0F || entry::entry_name(entry::dec_entry(d, o)) == seq!['.']
            || entry::entry_name(entry::dec_entry(d, o)) == seq!['.', '.'] by {
            lemma_bare(d, 0, o);
        }
    }
    assert(bare_at(st, gone[i]));
    if i + 1 < gone.len() {
        lemma_all_bare(st, gone, i + 1, fuel - 1);
    }
}

// ---- Renaming ---------------------------------------------------------------------------------

/// Whether at most first bytes of slots have changed in a directory cluster.
spec fn marked_only(a: Seq<u8>, b: Seq<u8>) -> bool {
    b.len() == a.len() && forall|k: int| 0 <= k < a.len() && k % 32 != 0 ==> #[trigger] b[k] == a[k]
}

spec fn cluster_marked(st: FatState, s: FatState, x: u32) -> bool {
    &&& entry_laws::dir_in_order(s, x)
    &&& model::dir_data(st, x) is Ok
    &&& model::dir_data(s, x) is Ok
    &&& marked_only(model::dir_data(st, x)->Ok_0, model::dir_data(s, x)->Ok_0)
}

/// Whether the directory clusters of `st` are still there, marked at most.
spec fn all_marked(st: FatState, s: FatState) -> bool {
    forall|x: u32| entry_laws::dir_in_order(st, x) ==> #[trigger] cluster_marked(st, s, x)
}

/// Whether the slot of `f` holds what it held.
spec fn slot_kept(st: FatState, s: FatState, f: (EntryView, u32, int)) -> bool {
    model::dir_data(s, f.1) is Ok && model::dir_data(s, f.1)->Ok_0.subrange(f.2, f.2 + 32)
        == model::dir_data(st, f.1)->Ok_0.subrange(f.2, f.2 + 32)
}

/// Whether, since `st`, at most slots other than that of `f` have been marked as deleted.
spec fn marked_beside(st: FatState, s: FatState, f: (EntryView, u32, int)) -> bool {
    &&& chains::in_order(s)
    &&& driver::same_layout(s, st)
    &&& all_marked(st, s)
    &&& slot_kept(st, s, f)
}

/// Whether a place is that of a part of a long name.
spec fn long_at(st: FatState, p: (u32, int, u8)) -> bool {
    &&& entry_laws::dir_in_order(st, p.0)
    &&& 0 <= p.1 && p.1 % 32 == 0
    &&& model::dir_data(st, p.0) matches Ok(d) && p.1 + 32 <= d.len() && d[p.1 + 11] == 0x0F
}

spec fn all_long(st: FatState, p: Seq<(u32, int, u8)>) -> bool {
    forall|k: int| 0 <= k < p.len() ==> #[trigger] long_at(st, p[k])
}

proof fn lemma_long_scanned(
    st: FatState,
    d: Seq<u8>,
    off: int,
    c: u32,
    to: u32,
    to_off: int,
    p: Seq<(u32, int, u8)>,
)
    requires
        entry_laws::dir_in_order(st, c),
        model::dir_data(st, c) == Ok::<Seq<u8>, Error>(d),
        0 <= off,
        off % 32 == 0,
        all_long(st, p),
    ensures
        match model::long_scan(d, off, c, to, to_off, p) {
            model::LongScan::Found(q) => all_long(st, q),
            model::LongScan::Past(q) => all_long(st, q),
            model::LongScan::Stop => true,
        },
    decreases d.len() - off,
{
    if off + 32 <= d.len() {
        let none = Seq::<(u32, int, u8)>::empty();
        lemma_long_scanned(st, d, off + 32, c, to, to_off, none);
        if d[off + 11] == 0x0F {
            let q = p.push((c, off, d[off + 13]));
            assert(all_long(st, q)) by {
                assert forall|k: int| 0 <= k < q.len() implies #[trigger] long_at(st, q[k]) by {
                    if k < p.len() {
                        assert(long_at(st, p[k]));
                    }
                }
            }
            lemma_long_scanned(st, d, off + 32, c, to, to_off, q);
        }
    }
}

/// Marking the first byte of a slot.
proof fn lemma_first_byte(a: Seq<u8>, d: Seq<u8>, off: int)
    requires
        marked_only(a, d),
        0 <= off < d.len(),
        off % 32 == 0,
    ensures
        marked_only(a, d.update(off, 0xE5u8)),
        forall|o: int|
            0 <= o && o % 32 == 0 && o + 32 <= d.len() && o != off ==> #[trigger] d.update(
                off,
                0xE5u8,
            ).subrange(o, o + 32) == d.subrange(o, o + 32),
{
    let e = d.update(off, 0xE5u8);
    assert forall|k: int| 0 <= k < a.len() && k % 32 != 0 implies #[trigger] e[k] == a[k] by {
        assert(d[k] == a[k]);
    }
    assert forall|o: int| 0 <= o && o % 32 == 0 && o + 32 <= d.len() && o != off implies
        #[trigger] e.subrange(o, o + 32) == d.subrange(o, o + 32) by {
        assert(e.subrange(o, o + 32) =~= d.subrange(o, o + 32));
    }
}

/// What a mark changes: the data of one cluster.
spec fn mark_made(s: FatState, z: FatState, p: (u32, int, u8)) -> bool {
    &&& model::dir_data(s, p.0) is Ok
    &&& model::dir_data(z, p.0) == Ok::<Seq<u8>, Error>(
        model::dir_data(s, p.0)->Ok_0.update(p.1, 0xE5u8),
    )
    &&& forall|x: u32|
        entry_laws::dir_in_order(s, x) ==> #[trigger] entry_laws::dir_in_order(z, x) && (x != p.0
            ==> model::dir_data(z, x) == model::dir_data(s, x))
}

#[verifier::spinoff_prover]
proof fn lemma_mark_clusters(st: FatState, s: FatState, z: FatState, p: (u32, int, u8))
    requires
        all_marked(st, s),
        long_at(st, p),
        mark_made(s, z, p),
    ensures
        all_marked(st, z),
{
    assert forall|x: u32| entry_laws::dir_in_order(st, x) implies #[trigger] cluster_marked(
        st,
        z,
        x,
    ) by {
        assert(cluster_marked(st, s, x));
        assert(entry_laws::dir_in_order(z, x));
        if x == p.0 {
            lemma_first_byte(model::dir_data(st, x)->Ok_0, model::dir_data(s, x)->Ok_0, p.1);
        }
    }
}

#[verifier::spinoff_prover]
proof fn lemma_mark_slot(
    st: FatState,
    s: FatState,
    z: FatState,
    f: (EntryView, u32, int),
    p: (u32, int, u8),
)
    requires
        all_marked(st, s),
        slot_kept(st, s, f),
        long_at(st, p),
        mark_made(s, z, p),
        entry_laws::dir_in_order(st, f.1),
        0 <= f.2,
        f.2 % 32 == 0,
        model::dir_data(st, f.1) matches Ok(d) && f.2 + 32 <= d.len() && d[f.2 + 11] != 0x0F,
    ensures
        slot_kept(st, z, f),
{
    assert(cluster_marked(st, s, f.1));
    assert(entry_laws::dir_in_order(z, f.1));
    if f.1 == p.0 {
        let d = model::dir_data(s, f.1)->Ok_0;
        assert(f.2 != p.1);
        lemma_first_byte(model::dir_data(st, f.1)->Ok_0, d, p.1);
        assert(d.update(p.1, 0xE5u8).subrange(f.2, f.2 + 32) == d.subrange(f.2, f.2 + 32));
    }
}

proof fn lemma_mark_one(st: FatState, s: FatState, f: (EntryView, u32, int), p: (u32, int, u8))
    requires
        marked_beside(st, s, f),
        long_at(st, p),
        entry_laws::dir_in_order(st, f.1),
        0 <= f.2,
        f.2 % 32 == 0,
        model::dir_data(st, f.1) matches Ok(d) && f.2 + 32 <= d.len() && d[f.2 + 11] != 0x0F,
    ensures
        model::mark_deleted(s, p.0, p.1).1 is Ok,
        marked_beside(st, model::mark_deleted(s, p.0, p.1).0, f),
{
    let z = model::mark_deleted(s, p.0, p.1).0;
    assert(cluster_marked(st, s, p.0));
    entry_laws::lemma_dir(s, p.0);
    lemma_marked(s, p.0, p.1);
    assert(mark_made(s, z, p)) by {
        assert forall|x: u32| entry_laws::dir_in_order(s, x) implies
            #[trigger] entry_laws::dir_in_order(z, x) && (x != p.0 ==> model::dir_data(z, x)
            == model::dir_data(s, x)) by {
            if x != p.0 {
                assert(dir_laws::same_member(z, s, x));
            }
        }
    }
    lemma_mark_clusters(st, s, z, p);
    lemma_mark_slot(st, s, z, f, p);
}

proof fn lemma_mark_all(
    st: FatState,
    s: FatState,
    f: (EntryView, u32, int),
    p: Seq<(u32, int, u8)>,
    n: int,
    sum: u8,
)
    requires
        marked_beside(st, s, f),
        all_long(st, p),
        n <= p.len(),
        entry_laws::dir_in_order(st, f.1),
        0 <= f.2,
        f.2 % 32 == 0,
        model::dir_data(st, f.1) matches Ok(d) && f.2 + 32 <= d.len() && d[f.2 + 11] != 0x0F,
    ensures
        marked_beside(st, model::mark_all(s, p, n, sum).0, f),
    decreases n,
{
    if n > 0 {
        assert(long_at(st, p[n - 1]));
        if p[n - 1].2 == sum {
            lemma_mark_one(st, s, f, p[n - 1]);
            lemma_mark_all(
                st,
                model::mark_deleted(s, p[n - 1].0, p[n - 1].1).0,
                f,
                p,
                n - 1,
                sum,
            );
        } else {
            lemma_mark_all(st, s, f, p, n - 1, sum);
        }
    }
}

proof fn lemma_long_deleted(
    st: FatState,
    ds: Seq<u32>,
    i: int,
    f: (EntryView, u32, int),
    sum: u8,
    p: Seq<(u32, int, u8)>,
    fuel: int,
)
    requires
        chains::in_order(st),
        dir_laws::dir_holds(st, ds),
        0 <= i < ds.len(),
        all_long(st, p),
        marked_beside(st, st, f),
        entry_laws::dir_in_order(st, f.1),
        0 <= f.2,
        f.2 % 32 == 0,
        model::dir_data(st, f.1) matches Ok(d) && f.2 + 32 <= d.len() && d[f.2 + 11] != 0x0F,
    ensures
        marked_beside(st, model::delete_long(st, ds[i], f.1, f.2, sum, p, fuel).0, f),
    decreases ds.len() - i,
{
    if fuel > 0 {
        dir_laws::lemma_member(st, ds, i);
        let d = model::dir_data(st, ds[i])->Ok_0;
        lemma_long_scanned(st, d, 0, ds[i], f.1, f.2, p);
        match model::long_scan(d, 0, ds[i], f.1, f.2, p) {
            model::LongScan::Found(q) => lemma_mark_all(st, st, f, q, q.len() as int, sum),
            model::LongScan::Past(q) => {
                if !model::fixed_root(st, ds[i]) {
                    assert(contents::follows(st, ds, i));
                    if i + 1 < ds.len() {
                        lemma_long_deleted(st, ds, i + 1, f, sum, q, fuel - 1);
                    }
                }
            },
            model::LongScan::Stop => {},
        }
    }
}

/// A file that is renamed through paths keeps its place, its data, its size and everything else
/// that its entry says, and has the new name: the one that was asked for, where that can be kept
/// as a short one and is free.
#[verifier::spinoff_prover]
#[verifier::rlimit(60)]
pub proof fn renamed_keeps_its_entry(
    st: FatState,
    from: Seq<Seq<char>>,
    to: Seq<Seq<char>>,
    ds: Seq<u32>,
    f: (EntryView, u32, int),
)
    requires
        from.len() > 0,
        to.len() > 0,
        leads_to(st, from.drop_last(), ds),
        model::find(st, from) == Ok::<Option<(EntryView, u32, int)>, Error>(Some(f)),
        entry_laws::dir_in_order(st, f.1),
        f.2 % 32 == 0,
        f.0.attributes != 0x0F,
        names::short_for(st, f.1, to.last()) matches Ok((n, _)) ==> entry::fat_name(n).len() == 11,
        ops::rename_at(st, from, to).1 is Ok,
    ensures
        ({
            let z = ops::rename_at(st, from, to).0;
            &&& from.drop_last() == to.drop_last()
            &&& model::dir_data(z, f.1) matches Ok(d) && {
                let e = entry::dec_entry(d, f.2);
                &&& e == (EntryView { name: e.name, ..f.0 })
                &&& keeps(to.last()) && (model::dir_entries(st, f.1) matches Ok(es)
                    && !names::taken(es, entry::fat_name(to.last()))) ==> e.name == entry::fat_name(
                    to.last(),
                )
            }
        }),
{
    reveal(ops::rename_at);
    reveal(names::short_for);
    lemma_found_place(st, from, f);
    let dirs = from.drop_last();
    assert(from =~= dirs.push(from.last()));
    path_laws::path_leads_on(st, dirs, from.last());
    entry_laws::lemma_dir(st, f.1);
    let d = model::dir_data(st, f.1)->Ok_0;
    assert(f.0 == entry::dec_entry(d, f.2)) by {
        reveal(model::find);
        lemma_found_in_use(st, ds[0], from.last(), model::chain_limit(st));
    }
    assert forall|x: u32| entry_laws::dir_in_order(st, x) implies #[trigger] cluster_marked(
        st,
        st,
        x,
    ) by {
        entry_laws::lemma_dir(st, x);
    }
    let sum = entry::name_checksum(f.0.name);
    let none = Seq::<(u32, int, u8)>::empty();
    let fuel = model::chain_limit(st);
    lemma_long_deleted(st, ds, 0, f, sum, none, fuel);
    let s1 = model::delete_long(st, ds[0], f.1, f.2, sum, none, fuel).0;
    assert(cluster_marked(st, s1, f.1));
    let d1 = model::dir_data(s1, f.1)->Ok_0;
    entry_laws::lemma_entry_same(d1, f.2, d, f.2);
    let short = names::short_for(st, f.1, to.last())->Ok_0.0;
    let ch = model::Change::Name(entry::fat_name(short));
    let z = ops::rename_at(st, from, to).0;
    reveal(model::patch);
    let e = model::changed(entry::dec_entry(d1, f.2), ch);
    entry::entry_round_trip(e);
    let b = entry::enc_entry(e);
    let new = bytes::splice(d1, f.2, b);
    entry_laws::lemma_dir(s1, f.1);
    dir_laws::lemma_dir_write(s1, f.1, new);
    assert(b.subrange(0, 32) =~= b);
    assert(new.subrange(f.2, f.2 + 32) =~= b);
    entry_laws::lemma_entry_same(new, f.2, b, 0);
}

} // verus!
