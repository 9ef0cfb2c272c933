//! What a directory gives back: entries that were put in are found, entries that were deleted
//! are not.
use vstd::prelude::*;
use crate::bytes;
use crate::error::Error;
use crate::text;
use super::chains;
use super::contents;
use super::driver;
use super::entry;
use super::entry::EntryView;
use super::entry_laws;
use super::model;
use super::model::{FatState, Scan};

verus! {

// ---- Directories ------------------------------------------------------------------------------

/// Whether clusters make up a directory: a chain, or the fixed root directory alone.
pub open spec fn dir_holds(st: FatState, ds: Seq<u32>) -> bool {
    if ds.len() == 1 && model::fixed_root(st, ds[0]) {
        entry_laws::dir_in_order(st, ds[0])
    } else {
        contents::holds(st, ds)
    }
}

/// Where a search through a cluster of a directory leads on from.
pub open spec fn search_from(st: FatState, c: u32, off: int, name: Seq<char>, fuel: int) -> Result<
    Option<(EntryView, u32, int)>,
    Error,
> {
    match model::dir_data(st, c) {
        Err(e) => Err::<Option<(EntryView, u32, int)>, Error>(e),
        Ok(d) => match model::scan(d, off, name) {
            Scan::Hit(o) => Ok::<Option<(EntryView, u32, int)>, Error>(
                Some((entry::dec_entry(d, o), c, o)),
            ),
            Scan::Stop => Ok::<Option<(EntryView, u32, int)>, Error>(None),
            Scan::Past => if model::fixed_root(st, c) {
                Ok::<Option<(EntryView, u32, int)>, Error>(None)
            } else {
                match model::fat_next(st, c) {
                    Err(e) => Err::<Option<(EntryView, u32, int)>, Error>(e),
                    Ok(None) => Ok::<Option<(EntryView, u32, int)>, Error>(None),
                    Ok(Some(n)) => model::find_slot(st, n, name, fuel - 1),
                }
            },
        },
    }
}

proof fn lemma_from_start(st: FatState, c: u32, name: Seq<char>, fuel: int)
    requires
        fuel > 0,
    ensures
        model::find_slot(st, c, name, fuel) == search_from(st, c, 0, name, fuel),
{
}

/// Every cluster of a directory can be read, and is not the fixed root unless it is the only
/// one.
pub(crate) proof fn lemma_member(st: FatState, ds: Seq<u32>, i: int)
    requires
        chains::fats_fit(st),
        dir_holds(st, ds),
        0 <= i < ds.len(),
    ensures
        entry_laws::dir_in_order(st, ds[i]),
        model::dir_data(st, ds[i]) is Ok,
        model::dir_data(st, ds[i])->Ok_0.len() == model::region(st, ds[i]).1 * 512,
        model::fixed_root(st, ds[i]) ==> ds.len() == 1,
        !model::fixed_root(st, ds[i]) ==> contents::follows(st, ds, i) && contents::holds(st, ds),
{
    if !(ds.len() == 1 && model::fixed_root(st, ds[0])) {
        assert(contents::used(st, ds[i]));
        assert(contents::follows(st, ds, i));
    }
    entry_laws::lemma_dir(st, ds[i]);
}

/// A search looks at bytes from where it starts on alone.
proof fn lemma_scan_same(a: Seq<u8>, b: Seq<u8>, off: int, name: Seq<char>)
    requires
        0 <= off,
        a.len() == b.len(),
        forall|k: int| off <= k < a.len() ==> #[trigger] a[k] == b[k],
    ensures
        model::scan(a, off, name) == model::scan(b, off, name),
        model::scan(a, off, name) matches Scan::Hit(o) ==> off <= o && o + 32 <= a.len()
            && entry::dec_entry(a, o) == entry::dec_entry(b, o),
    decreases a.len() - off,
{
    if off + 32 <= a.len() {
        assert(a.subrange(off, off + 32) =~= b.subrange(off, off + 32));
        entry_laws::lemma_entry_same(a, off, b, off);
        lemma_scan_same(a, b, off + 32, name);
    }
}

/// Whether the slot at an offset is in use.
pub open spec fn in_use(d: Seq<u8>, off: int) -> bool {
    d[off] != 0 && d[off] != 0xE5
}

proof fn lemma_slot_same(a: Seq<u8>, b: Seq<u8>, off: int, upto: int)
    requires
        0 <= off,
        off + 32 <= upto,
        upto <= a.len(),
        a.len() == b.len(),
        forall|k: int| 0 <= k < upto ==> #[trigger] a[k] == b[k],
    ensures
        a[off] == b[off],
        entry::dec_entry(a, off) == entry::dec_entry(b, off),
{
    assert(a.subrange(off, off + 32) =~= b.subrange(off, off + 32));
    entry_laws::lemma_entry_same(a, off, b, off);
}

/// One step of a search past a slot that is in use and does not match.
proof fn lemma_scan_step(d: Seq<u8>, off: int, name: Seq<char>)
    requires
        0 <= off,
        off + 32 <= d.len(),
        in_use(d, off),
    ensures
        model::scan(d, off, name) == (if text::same_but_case(
            entry::entry_name(entry::dec_entry(d, off)),
            name,
        ) {
            Scan::Hit(off)
        } else {
            model::scan(d, off + 32, name)
        }),
{
}

/// A search passes over slots that are in use and do not match.
proof fn lemma_scan_to(d: Seq<u8>, new: Seq<u8>, at: int, off: int, name: Seq<char>)
    requires
        0 <= at <= off,
        at % 32 == 0,
        off % 32 == 0,
        off + 32 <= d.len(),
        new.len() == d.len(),
        forall|k: int| 0 <= k < off ==> #[trigger] new[k] == d[k],
        forall|k: int| at <= k < off && k % 32 == 0 ==> #[trigger] in_use(d, k),
        !(model::scan(d, at, name) is Hit),
    ensures
        model::scan(new, at, name) == model::scan(new, off, name),
    decreases off - at,
{
    if at < off {
        assert(at + 32 <= off);
        assert(in_use(d, at));
        lemma_slot_same(new, d, at, off);
        lemma_scan_step(d, at, name);
        lemma_scan_step(new, at, name);
        lemma_scan_to(d, new, at + 32, off, name);
    }
}

/// The first free slot, with what stands before it.
#[verifier::spinoff_prover]
#[verifier::rlimit(40)]
proof fn lemma_first_free(d: Seq<u8>, at: int)
    requires
        0 <= at,
        at % 32 == 0,
    ensures
        match model::first_run(d, at, 1) {
            Some(off) => at <= off && off % 32 == 0 && off + 32 <= d.len() && !in_use(d, off)
                && forall|k: int| at <= k < off && k % 32 == 0 ==> #[trigger] in_use(d, k),
            None => forall|k: int|
                at <= k && k + 32 <= d.len() && k % 32 == 0 ==> #[trigger] in_use(d, k),
        },
    decreases d.len() - at,
{
    if at + 32 <= d.len() {
        if model::has_run(d, at, 1) {
            assert(d[at + 32 * 0] == 0 || d[at + 32 * 0] == 0xE5);
        } else {
            let k = choose|k: int|
                0 <= k < 1 && !(#[trigger] d[at + 32 * k] == 0 || d[at + 32 * k] == 0xE5);
            assert(k == 0);
            assert(in_use(d, at));
            lemma_first_free(d, at + 32);
        }
    }
}

/// A search through slots that are all in use ends past them, or at one that matches.
proof fn lemma_scan_full(d: Seq<u8>, at: int, name: Seq<char>)
    requires
        0 <= at,
        at % 32 == 0,
        forall|k: int| at <= k && k + 32 <= d.len() && k % 32 == 0 ==> #[trigger] in_use(d, k),
    ensures
        !(model::scan(d, at, name) is Stop),
    decreases d.len() - at,
{
    if at + 32 <= d.len() {
        assert(in_use(d, at));
        lemma_scan_full(d, at + 32, name);
    }
}

/// Whether an entry can stand in a directory: its name does not begin with what marks a slot
/// as free.
pub open spec fn live(e: EntryView) -> bool {
    e.name.len() == 11 && e.name[0] != 0 && e.name[0] != 0xE5
}

/// An entry in a slot is hit.
proof fn lemma_hit(d: Seq<u8>, off: int, e: EntryView, name: Seq<char>)
    requires
        0 <= off,
        off + 32 <= d.len(),
        d.subrange(off, off + 32) == entry::enc_entry(e),
        live(e),
        text::same_but_case(entry::entry_name(e), name),
    ensures
        model::scan(d, off, name) == Scan::Hit(off),
        entry::dec_entry(d, off) == e,
{
    entry::entry_round_trip(e);
    let b = entry::enc_entry(e);
    assert(b.subrange(0, 32) =~= b);
    entry_laws::lemma_entry_same(d, off, b, 0);
    assert(d[off] == e.name[0]) by {
        assert(d.subrange(off, off + 11)[0] == d[off]);
        assert(entry::dec_entry(d, off).name[0] == e.name[0]);
    }
}

/// Whether a cluster of a directory holds the same as before and leads to the same.
pub open spec fn same_member(z: FatState, st: FatState, c: u32) -> bool {
    model::dir_data(z, c) == model::dir_data(st, c) && (model::fixed_root(st, c) || model::fat_next(
        z,
        c,
    ) == model::fat_next(st, c))
}

/// What holds after the bytes of a cluster of a directory have been replaced.
pub open spec fn dir_written(st: FatState, z: FatState, c: u32, new: Seq<u8>) -> bool {
    &&& chains::in_order(z)
    &&& driver::same_layout(z, st)
    &&& chains::same_but(z, st, Set::empty())
    &&& model::dir_data(z, c) == Ok::<Seq<u8>, Error>(new)
    &&& forall|x: u32|
        x != c && entry_laws::dir_in_order(st, x) ==> #[trigger] same_member(z, st, x)
    &&& model::fixed_root(st, c) || model::fat_next(z, c) == model::fat_next(st, c)
}

pub(crate) proof fn lemma_next_same(z: FatState, st: FatState, c: u32)
    requires
        chains::same_but(z, st, Set::empty()),
        chains::proper(st, c),
    ensures
        model::fat_next(z, c) == model::fat_next(st, c),
{
    assert(model::fat_value(z, c) == model::fat_value(st, c));
    reveal(model::fat_next);
}

/// The bytes of two clusters of directories lie apart.
proof fn lemma_dirs_apart(st: FatState, c: u32, x: u32)
    requires
        chains::fats_fit(st),
        entry_laws::dir_in_order(st, c),
        entry_laws::dir_in_order(st, x),
        c != x,
    ensures
        ({
            let a = entry_laws::dir_spot(st, c);
            let b = entry_laws::dir_spot(st, x);
            let n = model::region(st, c).1 * 512;
            let m = model::region(st, x).1 * 512;
            a + n <= b || b + m <= a
        }),
{
    entry_laws::lemma_dir(st, c);
    entry_laws::lemma_dir(st, x);
    if !model::fixed_root(st, c) && !model::fixed_root(st, x) {
        contents::lemma_spot(st, c);
        contents::lemma_spots(st, c, x);
    } else if model::fixed_root(st, c) {
        contents::lemma_spot(st, x);
    } else {
        contents::lemma_spot(st, c);
    }
}

#[verifier::spinoff_prover]
#[verifier::rlimit(40)]
pub(crate) proof fn lemma_dir_write(st: FatState, c: u32, new: Seq<u8>)
    requires
        chains::in_order(st),
        entry_laws::dir_in_order(st, c),
        new.len() == model::region(st, c).1 * 512,
    ensures
        ({
            let (z, r) = model::write(st, model::region(st, c).0, new);
            &&& r == Ok::<(), Error>(())
            &&& dir_written(st, z, c, new)
            &&& entry_laws::dir_in_order(z, c)
            &&& z == (FatState { disk: z.disk, ..st })
        }),
{
    entry_laws::lemma_dir(st, c);
    driver::lemma_geometry(st, c);
    let l = model::region(st, c).0;
    chains::lemma_write(st, l, new);
    let z = model::write(st, l, new).0;
    let at = entry_laws::dir_spot(st, c);
    chains::lemma_same_fat(z, st);
    chains::lemma_keeps_order(z, st, Set::empty());
    assert(entry_laws::dir_in_order(z, c)) by {
        if !model::fixed_root(st, c) {
            assert(model::fat_value(z, c) == model::fat_value(st, c));
        }
    }
    entry_laws::lemma_dir(z, c);
    assert(z.disk.subrange(at, at + new.len()) =~= new);
    if !model::fixed_root(st, c) {
        lemma_next_same(z, st, c);
    }
    assert forall|x: u32| x != c && entry_laws::dir_in_order(st, x) implies
        #[trigger] same_member(z, st, x) by {
        lemma_dirs_apart(st, c, x);
        entry_laws::lemma_dir(st, x);
        assert(entry_laws::dir_in_order(z, x)) by {
            if !model::fixed_root(st, x) {
                assert(model::fat_value(z, x) == model::fat_value(st, x));
            }
        }
        entry_laws::lemma_dir(z, x);
        let b = entry_laws::dir_spot(st, x);
        let m = model::region(st, x).1 * 512;
        assert(z.disk.subrange(b, b + m) =~= st.disk.subrange(b, b + m));
        if !model::fixed_root(st, x) {
            lemma_next_same(z, st, x);
        }
    }
}

// ---- Deleting ---------------------------------------------------------------------------------

/// A search through clusters that have not changed ends as before.
pub(crate) proof fn lemma_search_same(z: FatState, st: FatState, ds: Seq<u32>, i: int, name: Seq<char>, fuel: int)
    requires
        chains::fats_fit(st),
        dir_holds(st, ds),
        0 <= i < ds.len(),
        driver::same_layout(z, st),
        forall|j: int| i <= j < ds.len() ==> same_member(z, st, #[trigger] ds[j]),
    ensures
        model::find_slot(z, ds[i], name, fuel) == model::find_slot(st, ds[i], name, fuel),
    decreases ds.len() - i,
{
    if fuel > 0 {
        lemma_member(st, ds, i);
        assert(same_member(z, st, ds[i]));
        if !model::fixed_root(st, ds[i]) && i + 1 < ds.len() {
            lemma_search_same(z, st, ds, i + 1, name, fuel - 1);
        }
    }
}

/// A search over the clusters before the one that matters.
proof fn lemma_search_on(
    z: FatState,
    st: FatState,
    ds: Seq<u32>,
    i: int,
    k: int,
    name: Seq<char>,
    fuel: int,
)
    requires
        chains::fats_fit(st),
        dir_holds(st, ds),
        0 <= i <= k < ds.len(),
        fuel > k - i,
        driver::same_layout(z, st),
        forall|j: int| i <= j < k ==> same_member(z, st, #[trigger] ds[j]),
        model::find_slot(st, ds[i], name, fuel) matches Ok(Some(f)) ==> f.1 == ds[k],
        model::find_slot(st, ds[i], name, fuel) is Ok,
        model::find_slot(st, ds[i], name, fuel)->Ok_0 is Some,
    ensures
        model::find_slot(z, ds[i], name, fuel) == model::find_slot(z, ds[k], name, fuel - (k - i)),
        model::find_slot(st, ds[i], name, fuel) == model::find_slot(st, ds[k], name, fuel - (k - i)),
    decreases k - i,
{
    if i < k {
        lemma_member(st, ds, i);
        assert(contents::holds(st, ds));
        assert(ds[i] != ds[k]);
        assert(same_member(z, st, ds[i]));
        lemma_search_on(z, st, ds, i + 1, k, name, fuel - 1);
    }
}

/// A slot that has been marked deleted is passed over.
#[verifier::spinoff_prover]
#[verifier::rlimit(40)]
proof fn lemma_scan_past_deleted(d: Seq<u8>, at: int, off: int, name: Seq<char>)
    requires
        0 <= at <= off,
        model::scan(d, at, name) == Scan::Hit(off),
        off + 32 <= d.len(),
    ensures
        model::scan(d.update(off, 0xE5u8), at, name) == model::scan(d, off + 32, name),
    decreases off - at,
{
    let new = d.update(off, 0xE5u8);
    if at == off {
        lemma_scan_same(new, d, off + 32, name);
    } else if at + 32 <= d.len() {
        lemma_scan_bound(d, at + 32, name);
        if d[at] != 0 {
            assert(at + 32 <= off) by {
                if d[at] != 0xE5 && text::same_but_case(
                    entry::entry_name(entry::dec_entry(d, at)),
                    name,
                ) {
                }
            }
            lemma_slot_same(new, d, at, off);
            lemma_scan_past_deleted(d, at + 32, off, name);
        }
    }
}

proof fn lemma_scan_bound(d: Seq<u8>, off: int, name: Seq<char>)
    requires
        0 <= off,
    ensures
        model::scan(d, off, name) matches Scan::Hit(o) ==> off <= o && o + 32 <= d.len(),
    decreases d.len() - off,
{
    if off + 32 <= d.len() {
        lemma_scan_bound(d, off + 32, name);
    }
}

/// An entry that has been marked deleted is not found again: a search for its name ends where
/// a search that starts right behind it would have ended.
#[verifier::spinoff_prover]
#[verifier::rlimit(40)]
pub proof fn deleted_is_passed_over(
    st: FatState,
    ds: Seq<u32>,
    k: int,
    off: int,
    name: Seq<char>,
    fuel: int,
)
    requires
        chains::in_order(st),
        dir_holds(st, ds),
        0 <= k < ds.len(),
        fuel > k,
        model::find_slot(st, ds[0], name, fuel) is Ok,
        model::find_slot(st, ds[0], name, fuel)->Ok_0 is Some,
        model::find_slot(st, ds[0], name, fuel)->Ok_0->Some_0.1 == ds[k],
        model::find_slot(st, ds[0], name, fuel)->Ok_0->Some_0.2 == off,
    ensures
        ({
            let (z, r) = model::mark_deleted(st, ds[k], off);
            &&& r == Ok::<(), Error>(())
            &&& model::find_slot(z, ds[0], name, fuel) == search_from(
                st,
                ds[k],
                off + 32,
                name,
                fuel - k,
            )
        }),
{
    reveal(model::mark_deleted);
    let c = ds[k];
    lemma_member(st, ds, k);
    let d = model::dir_data(st, c)->Ok_0;
    lemma_search_on(st, st, ds, 0, k, name, fuel);
    lemma_from_start(st, c, name, fuel - k);
    lemma_scan_bound(d, 0, name);
    assert(model::scan(d, 0, name) == Scan::Hit(off)) by {
        lemma_hit_here(st, ds, k, name, fuel - k, off);
    }
    let new = d.update(off, 0xE5u8);
    lemma_dir_write(st, c, new);
    let z = model::mark_deleted(st, c, off).0;
    assert forall|j: int| 0 <= j < ds.len() && j != k implies same_member(z, st, #[trigger] ds[j]) by {
        lemma_member(st, ds, j);
        assert(ds[j] != c) by {
            lemma_member(st, ds, k);
            if j < k {
                assert(ds[j] != ds[k]);
            } else {
                assert(ds[k] != ds[j]);
            }
        }
    }
    lemma_search_on(z, st, ds, 0, k, name, fuel);
    lemma_from_start(z, c, name, fuel - k);
    lemma_scan_past_deleted(d, 0, off, name);
    lemma_scan_same(new, d, off + 32, name);
    if k + 1 < ds.len() {
        lemma_search_same(z, st, ds, k + 1, name, fuel - k - 1);
    }
}

/// A search that ends in the cluster it starts in ends at a slot of it.
proof fn lemma_hit_here(st: FatState, ds: Seq<u32>, k: int, name: Seq<char>, fuel: int, off: int)
    requires
        chains::fats_fit(st),
        dir_holds(st, ds),
        0 <= k < ds.len(),
        fuel > 0,
        model::find_slot(st, ds[k], name, fuel) is Ok,
        model::find_slot(st, ds[k], name, fuel)->Ok_0 is Some,
        model::find_slot(st, ds[k], name, fuel)->Ok_0->Some_0.1 == ds[k],
        model::find_slot(st, ds[k], name, fuel)->Ok_0->Some_0.2 == off,
    ensures
        model::scan(model::dir_data(st, ds[k])->Ok_0, 0, name) == Scan::Hit(off),
{
    lemma_member(st, ds, k);
    if !(model::scan(model::dir_data(st, ds[k])->Ok_0, 0, name) is Hit) && k + 1 < ds.len() {
        lemma_found_in(st, ds, k + 1, name, fuel - 1);
        let f = model::find_slot(st, ds[k + 1], name, fuel - 1)->Ok_0->Some_0;
        let j = choose|j: int| k + 1 <= j < ds.len() && f.1 == #[trigger] ds[j];
        assert(ds[k] != ds[j]);
    }
}

/// What is found is in one of the clusters that were searched.
proof fn lemma_found_in(st: FatState, ds: Seq<u32>, i: int, name: Seq<char>, fuel: int)
    requires
        chains::fats_fit(st),
        dir_holds(st, ds),
        0 <= i < ds.len(),
    ensures
        model::find_slot(st, ds[i], name, fuel) matches Ok(Some(f)) ==> exists|j: int|
            i <= j < ds.len() && f.1 == #[trigger] ds[j],
    decreases ds.len() - i,
{
    if fuel > 0 {
        lemma_member(st, ds, i);
        if model::scan(model::dir_data(st, ds[i])->Ok_0, 0, name) is Hit {
            assert(ds[i] == ds[i]);
        } else if !model::fixed_root(st, ds[i]) && i + 1 < ds.len() {
            lemma_found_in(st, ds, i + 1, name, fuel - 1);
        }
    }
}

// ---- Putting in -------------------------------------------------------------------------------

/// A new cluster with an entry in it, behind a directory.
spec fn grown_by(st: FatState, z: FatState, ds: Seq<u32>, n: u32, new: Seq<u8>) -> bool {
    &&& driver::same_layout(z, st)
    &&& forall|j: int| 0 <= j < ds.len() - 1 ==> same_member(z, st, #[trigger] ds[j])
    &&& model::dir_data(z, ds.last()) == model::dir_data(st, ds.last())
    &&& model::fat_next(z, ds.last()) == Ok::<Option<u32>, Error>(Some(n))
    &&& model::dir_data(z, n) == Ok::<Seq<u8>, Error>(new)
    &&& n >= 2
}

/// Bytes of a cluster that another write has not touched.
proof fn lemma_data_kept(z: FatState, st: FatState, c: u32)
    requires
        chains::fats_fit(st),
        driver::same_layout(z, st),
        chains::proper(st, c),
        forall|k: int|
            contents::spot(st, c) <= k < contents::spot(st, c) + model::bpc(st)
                ==> #[trigger] z.disk[k] == st.disk[k],
    ensures
        model::read(z, model::cluster_lba(z, c), model::spc(z)) == model::read(
            st,
            model::cluster_lba(st, c),
            model::spc(st),
        ),
{
    contents::lemma_spot(st, c);
    let a = contents::spot(st, c);
    let b = model::bpc(st);
    assert(z.disk.subrange(a, a + b) =~= st.disk.subrange(a, a + b));
}

/// A cluster taken and linked behind a directory.
#[verifier::spinoff_prover]
#[verifier::rlimit(40)]
proof fn lemma_grow_link(st: FatState, s2: FatState, ds: Seq<u32>, n: u32)
    requires
        chains::in_order(st),
        contents::holds(st, ds),
        contents::grown(st, s2, ds, n),
    ensures
        contents::used(s2, n),
        forall|j: int| 0 <= j < ds.len() - 1 ==> same_member(s2, st, #[trigger] ds[j]),
        model::dir_data(s2, ds.last()) == model::dir_data(st, ds.last()),
        model::fat_next(s2, ds.last()) == Ok::<Option<u32>, Error>(Some(n)),
{
    let all = ds.push(n);
    let last = ds.len() - 1;
    chains::lemma_fats(st);
    assert(all[ds.len() as int] == n);
    assert(contents::used(s2, all[ds.len() as int]));
    assert(all[last] == ds[last]);
    assert(contents::follows(s2, all, last));
    assert forall|j: int| 0 <= j < ds.len() implies model::dir_data(s2, #[trigger] ds[j])
        == model::dir_data(st, ds[j]) by {
        assert(contents::used(st, ds[j]));
        contents::lemma_spot(st, ds[j]);
        lemma_data_kept(s2, st, ds[j]);
    }
    assert(ds.last() == ds[last]);
    assert forall|j: int| 0 <= j < last implies same_member(s2, st, #[trigger] ds[j]) by {
        assert(contents::used(st, ds[j]));
        assert(ds[j] != ds[last]);
        assert(contents::follows(st, ds, j));
        assert(all[j] == ds[j] && all[j + 1] == ds[j + 1]);
        assert(contents::follows(s2, all, j));
    }
}

/// The new cluster filled.
#[verifier::spinoff_prover]
#[verifier::rlimit(40)]
proof fn lemma_grow_fill(st: FatState, s2: FatState, z: FatState, ds: Seq<u32>, n: u32, slots: Seq<u8>)
    requires
        chains::in_order(st),
        contents::holds(st, ds),
        contents::grown(st, s2, ds, n),
        contents::cluster_written(s2, z, n, 0, slots, true),
        slots.len() <= model::bpc(st),
    ensures
        grown_by(st, z, ds, n, bytes::splice(bytes::zeros(model::bpc(st)), 0, slots)),
{
    lemma_grow_link(st, s2, ds, n);
    contents::lemma_spot(s2, n);
    chains::lemma_same_fat(z, s2);
    let all = ds.push(n);
    assert forall|j: int| 0 <= j < ds.len() implies model::dir_data(z, #[trigger] ds[j])
        == model::dir_data(s2, ds[j]) && model::fat_next(z, ds[j]) == model::fat_next(s2, ds[j]) by {
        assert(all[j] == ds[j]);
        assert(all[ds.len() as int] == n);
        assert(all[j] != all[ds.len() as int]);
        assert(contents::used(s2, all[j]));
        contents::lemma_spot(s2, ds[j]);
        contents::lemma_spots(s2, n, ds[j]);
        lemma_data_kept(z, s2, ds[j]);
        lemma_next_same(z, s2, ds[j]);
    }
    assert(ds.last() == ds[ds.len() - 1]);
    assert forall|j: int| 0 <= j < ds.len() - 1 implies same_member(z, st, #[trigger] ds[j]) by {
        assert(same_member(s2, st, ds[j]));
    }
    let new = bytes::splice(bytes::zeros(model::bpc(st)), 0, slots);
    let a = contents::spot(st, n);
    let b = model::bpc(st);
    assert(z.disk.subrange(a, a + b) =~= new);
}

/// Whether every directory cluster other than these is what it was.
pub open spec fn others_same(st: FatState, z: FatState, ds: Seq<u32>) -> bool {
    forall|x: u32|
        entry_laws::dir_in_order(st, x) && !ds.contains(x) ==> #[trigger] same_member(z, st, x)
}

/// A directory that grows leaves the others alone.
#[verifier::spinoff_prover]
#[verifier::rlimit(40)]
proof fn lemma_grow_others(
    st: FatState,
    s2: FatState,
    z: FatState,
    ds: Seq<u32>,
    n: u32,
    slots: Seq<u8>,
)
    requires
        chains::in_order(st),
        contents::holds(st, ds),
        contents::grown(st, s2, ds, n),
        contents::cluster_written(s2, z, n, 0, slots, true),
        slots.len() <= model::bpc(st),
    ensures
        others_same(st, z, ds),
{
    lemma_grow_link(st, s2, ds, n);
    contents::lemma_spot(s2, n);
    chains::lemma_same_fat(z, s2);
    assert(ds.contains(ds.last()));
    assert forall|x: u32| entry_laws::dir_in_order(st, x) && !ds.contains(x) implies
        #[trigger] same_member(z, st, x) by {
        entry_laws::lemma_dir(st, x);
        if model::fixed_root(st, x) {
            assert(entry_laws::dir_in_order(z, x));
        } else {
            assert(x != n && x != ds.last());
            assert(model::fat_value(s2, x) == model::fat_value(st, x));
            assert(model::fat_value(z, x) == model::fat_value(s2, x));
            contents::lemma_spot(st, x);
            contents::lemma_spots(st, n, x);
            assert(model::fat_next(z, x) == model::fat_next(st, x)) by {
                reveal(model::fat_next);
            }
            assert(contents::used(z, x));
        }
        entry_laws::lemma_dir(z, x);
        let b = entry_laws::dir_spot(st, x);
        let m = model::region(st, x).1 * 512;
        assert forall|k: int| b <= k < b + m implies z.disk[k] == st.disk[k] by {
            assert(z.disk[k] == s2.disk[k]);
            assert(s2.disk[k] == st.disk[k]);
        }
        assert(z.disk.subrange(b, b + m) =~= st.disk.subrange(b, b + m));
    }
}

/// A directory that has no free slot grows by a cluster.
proof fn lemma_grow(st: FatState, ds: Seq<u32>, slots: Seq<u8>) -> (n: u32)
    requires
        chains::in_order(st),
        contents::holds(st, ds),
        model::grow(st, ds.last(), slots).1 is Ok,
        slots.len() >= 32,
    ensures
        slots.len() <= model::bpc(st),
        model::grow(st, ds.last(), slots).1 == Ok::<(u32, int), Error>((n, slots.len() - 32)),
        grown_by(
            st,
            model::grow(st, ds.last(), slots).0,
            ds,
            n,
            bytes::splice(bytes::zeros(model::bpc(st)), 0, slots),
        ),
        others_same(st, model::grow(st, ds.last(), slots).0, ds),
{
    reveal(model::grow);
    contents::lemma_grown(st, ds);
    let (s1, r1) = model::take_cluster(st);
    let n = r1->Ok_0;
    let s2 = model::link(s1, ds.last(), n).0;
    lemma_grow_link(st, s2, ds, n);
    contents::lemma_write_cluster(s2, n, 0, slots, true);
    let z = model::grow(st, ds.last(), slots).0;
    lemma_grow_fill(st, s2, z, ds, n, slots);
    lemma_grow_others(st, s2, z, ds, n, slots);
    n
}

/// Whether the slots of an entry with a long name are what they should be: the entry comes
/// last, and the slots before it are in use and do not match the name by themselves.
pub open spec fn slots_for(slots: Seq<u8>, e: EntryView, name: Seq<char>) -> bool {
    &&& slots.len() >= 32
    &&& slots.len() % 32 == 0
    &&& slots.skip(slots.len() - 32) == entry::enc_entry(e)
    &&& forall|o: int|
        0 <= o < slots.len() - 32 && o % 32 == 0 ==> in_use(slots, o) && !text::same_but_case(
            entry::entry_name(#[trigger] entry::dec_entry(slots, o)),
            name,
        )
}

/// Whether the first free slot of a directory, from cluster `i` on, is also the first of
/// `need` free slots in a row.
pub open spec fn room_first(st: FatState, ds: Seq<u32>, i: int, need: int) -> bool
    decreases ds.len() - i,
{
    0 <= i < ds.len() ==> {
        let d = model::dir_data(st, ds[i])->Ok_0;
        &&& model::first_run(d, 0, need) == model::first_run(d, 0, 1)
        &&& model::first_run(d, 0, 1) is None ==> room_first(st, ds, i + 1, need)
    }
}

/// A search passes over the long name of an entry and hits the entry.
proof fn lemma_pass_long(d: Seq<u8>, off: int, slots: Seq<u8>, o: int, e: EntryView, name: Seq<char>)
    requires
        0 <= off,
        off + slots.len() <= d.len(),
        d.subrange(off, off + slots.len()) == slots,
        slots_for(slots, e, name),
        0 <= o <= slots.len() - 32,
        o % 32 == 0,
        live(e),
        text::same_but_case(entry::entry_name(e), name),
    ensures
        model::scan(d, off + o, name) == Scan::Hit(off + slots.len() - 32),
        entry::dec_entry(d, off + slots.len() - 32) == e,
    decreases slots.len() - o,
{
    let last = slots.len() - 32;
    let part = d.subrange(off, off + slots.len());
    if o == last {
        assert(d.subrange(off + last, off + last + 32) =~= slots.skip(last));
        lemma_hit(d, off + last, e, name);
    } else {
        let there = entry::dec_entry(slots, o);
        assert(in_use(slots, o));
        assert(d[off + o] == part[o]);
        assert(d.subrange(off + o, off + o + 32) =~= slots.subrange(o, o + 32));
        entry_laws::lemma_entry_same(d, off + o, slots, o);
        assert(in_use(d, off + o));
        lemma_scan_step(d, off + o, name);
        lemma_pass_long(d, off, slots, o + 32, e, name);
    }
}

/// An entry put into the first free slots of a cluster is found there.
proof fn lemma_put_here(
    st: FatState,
    z: FatState,
    c: u32,
    off: int,
    slots: Seq<u8>,
    e: EntryView,
    name: Seq<char>,
    fuel: int,
)
    requires
        fuel > 0,
        live(e),
        text::same_but_case(entry::entry_name(e), name),
        slots_for(slots, e, name),
        model::dir_data(st, c) is Ok,
        ({
            let d = model::dir_data(st, c)->Ok_0;
            &&& model::first_run(d, 0, 1) == Some(off)
            &&& off + slots.len() <= d.len()
            &&& !(model::scan(d, 0, name) is Hit)
            &&& model::dir_data(z, c) == Ok::<Seq<u8>, Error>(bytes::splice(d, off, slots))
        }),
    ensures
        model::find_slot(z, c, name, fuel) == Ok::<Option<(EntryView, u32, int)>, Error>(
            Some((e, c, off + slots.len() - 32)),
        ),
{
    let d = model::dir_data(st, c)->Ok_0;
    let new = bytes::splice(d, off, slots);
    lemma_first_free(d, 0);
    lemma_scan_to(d, new, 0, off, name);
    assert(new.subrange(off, off + slots.len()) =~= slots);
    lemma_pass_long(new, off, slots, 0, e, name);
}

/// A run of slots that is found lies within the data.
proof fn lemma_run_fits(d: Seq<u8>, at: int, need: int)
    ensures
        model::first_run(d, at, need) matches Some(off) ==> off + 32 * need <= d.len(),
    decreases d.len() - at,
{
    if at + 32 <= d.len() && !model::has_run(d, at, need) {
        lemma_run_fits(d, at + 32, need);
    }
}

/// An entry put into a directory from cluster `i` on.
#[verifier::spinoff_prover]
#[verifier::rlimit(40)]
proof fn lemma_append(
    st: FatState,
    ds: Seq<u32>,
    i: int,
    slots: Seq<u8>,
    e: EntryView,
    name: Seq<char>,
    fuel: int,
)
    requires
        chains::in_order(st),
        dir_holds(st, ds),
        0 <= i < ds.len(),
        fuel > ds.len() - i,
        live(e),
        text::same_but_case(entry::entry_name(e), name),
        slots_for(slots, e, name),
        room_first(st, ds, i, slots.len() as int / 32),
        model::find_slot(st, ds[i], name, fuel) == Ok::<Option<(EntryView, u32, int)>, Error>(None),
        model::append(st, ds[i], slots, fuel).1 is Ok,
    ensures
        ({
            let (z, r) = model::append(st, ds[i], slots, fuel);
            let p = r->Ok_0;
            &&& driver::same_layout(z, st)
            &&& others_same(st, z, ds)
            &&& forall|j: int| 0 <= j < i ==> same_member(z, st, #[trigger] ds[j])
            &&& model::find_slot(z, ds[i], name, fuel) == Ok::<
                Option<(EntryView, u32, int)>,
                Error,
            >(Some((e, p.0, p.1)))
        }),
    decreases ds.len() - i,
{
    let c = ds[i];
    let need = slots.len() as int / 32;
    lemma_member(st, ds, i);
    let d = model::dir_data(st, c)->Ok_0;
    lemma_first_free(d, 0);
    lemma_run_fits(d, 0, need);
    assert(model::first_run(d, 0, need) == model::first_run(d, 0, 1));
    match model::first_run(d, 0, 1) {
        Some(off) => {
            let new = bytes::splice(d, off, slots);
            lemma_dir_write(st, c, new);
            let z = model::append(st, c, slots, fuel).0;
            assert forall|j: int| 0 <= j < i implies same_member(z, st, #[trigger] ds[j]) by {
                lemma_member(st, ds, j);
                assert(ds[j] != ds[i]);
            }
            assert(ds.contains(ds[i]));
            lemma_put_here(st, z, c, off, slots, e, name, fuel);
        },
        None => {
            lemma_scan_full(d, 0, name);
            assert(model::scan(d, 0, name) is Past);
            assert(contents::follows(st, ds, i));
            if i + 1 < ds.len() {
                lemma_append(st, ds, i + 1, slots, e, name, fuel - 1);
                let z = model::append(st, c, slots, fuel).0;
                assert(same_member(z, st, ds[i]));
            } else {
                assert(ds.last() == c);
                let n = lemma_grow(st, ds, slots);
                let z = model::append(st, c, slots, fuel).0;
                let new = bytes::splice(bytes::zeros(model::bpc(st)), 0, slots);
                assert(new.subrange(0, slots.len() as int) =~= slots);
                lemma_pass_long(new, 0, slots, 0, e, name);
                assert(model::find_slot(z, n, name, fuel - 1) == Ok::<
                    Option<(EntryView, u32, int)>,
                    Error,
                >(Some((e, n, slots.len() - 32))));
            }
        },
    }
}

/// An entry that has been put into a directory, with its long name if it has one, is found
/// there under its short name, if that was not there before. The free slots that the entry
/// takes have to be the first: in those behind the end of a directory nothing is found. Every
/// other directory is what it was.
pub proof fn appended_is_found(
    st: FatState,
    ds: Seq<u32>,
    e: EntryView,
    long: Option<Seq<char>>,
    name: Seq<char>,
    fuel: int,
)
    requires
        chains::in_order(st),
        dir_holds(st, ds),
        ds.len() < fuel,
        live(e),
        text::same_but_case(entry::entry_name(e), name),
        slots_for(model::slots_of(e, long), e, name),
        room_first(st, ds, 0, model::slots_of(e, long).len() as int / 32),
        model::find_slot(st, ds[0], name, fuel) == Ok::<Option<(EntryView, u32, int)>, Error>(None),
        model::append(st, ds[0], model::slots_of(e, long), fuel).1 is Ok,
    ensures
        ({
            let (z, r) = model::append(st, ds[0], model::slots_of(e, long), fuel);
            &&& model::find_slot(z, ds[0], name, fuel) == Ok::<
                Option<(EntryView, u32, int)>,
                Error,
            >(Some((e, r->Ok_0.0, r->Ok_0.1)))
            &&& driver::same_layout(z, st)
            &&& others_same(st, z, ds)
        }),
{
    lemma_append(st, ds, 0, model::slots_of(e, long), e, name, fuel);
}

/// An entry without a long name needs no more than one free slot, so that any is the first.
pub proof fn short_entry_always_has_room(st: FatState, ds: Seq<u32>, e: EntryView, name: Seq<char>)
    requires
        live(e),
    ensures
        slots_for(model::slots_of(e, None), e, name),
        room_first(st, ds, 0, model::slots_of(e, None).len() as int / 32),
{
    entry::entry_round_trip(e);
    let slots = entry::enc_entry(e);
    assert(slots.skip(0) =~= slots);
    lemma_any_room(st, ds, 0);
}

proof fn lemma_any_room(st: FatState, ds: Seq<u32>, i: int)
    requires
        0 <= i <= ds.len(),
    ensures
        room_first(st, ds, i, 1),
    decreases ds.len() - i,
{
    if i < ds.len() {
        lemma_any_room(st, ds, i + 1);
    }
}

} // verus!
