//! Where paths lead: one name further than without the last of them, and what a directory lists
//! is what a path through it finds.
use vstd::prelude::*;
use crate::error::Error;
use crate::text;
use super::entry;
use super::entry::EntryView;
use super::entry_laws;
use super::model;
use super::model::{FatState, Scan};
use super::structures::{ATTR_DIRECTORY, ATTR_VOLUME_ID};

verus! {

// ---- Directories on the way -------------------------------------------------------------------

/// The directory that a name leads to from what the names before it came to.
pub open spec fn one_further(
    st: FatState,
    so_far: Result<Option<u32>, Error>,
    name: Seq<char>,
) -> Result<Option<u32>, Error> {
    match so_far {
        Ok(Some(c)) => match model::dir_entries(st, c) {
            Err(e) => Err::<Option<u32>, Error>(e),
            Ok(es) => Ok::<Option<u32>, Error>(model::subdir(es, name)),
        },
        _ => so_far,
    }
}

proof fn lemma_walk_on(st: FatState, cs: Seq<Seq<char>>, i: int, n: int, c: u32)
    requires
        0 <= i <= n < cs.len(),
    ensures
        model::walk(st, cs, i, n + 1, c) == one_further(st, model::walk(st, cs, i, n, c), cs[n]),
    decreases n - i,
{
    if i < n {
        match model::dir_entries(st, c) {
            Ok(es) => match model::subdir(es, cs[i]) {
                Some(d) => lemma_walk_on(st, cs, i + 1, n, d),
                None => {},
            },
            Err(_) => {},
        }
    } else {
        match model::dir_entries(st, c) {
            Ok(es) => match model::subdir(es, cs[n]) {
                Some(d) => {
                    assert(model::walk(st, cs, n + 1, n + 1, d) == Ok::<Option<u32>, Error>(
                        Some(d),
                    ));
                },
                None => {},
            },
            Err(_) => {},
        }
    }
}

proof fn lemma_walk_front(st: FatState, a: Seq<Seq<char>>, b: Seq<Seq<char>>, i: int, n: int, c: u32)
    requires
        0 <= i,
        n <= a.len(),
        n <= b.len(),
        a.take(n) == b.take(n),
    ensures
        model::walk(st, a, i, n, c) == model::walk(st, b, i, n, c),
    decreases n - i,
{
    if i < n {
        assert(a.take(n)[i] == b.take(n)[i]);
        match model::dir_entries(st, c) {
            Ok(es) => match model::subdir(es, a[i]) {
                Some(d) => lemma_walk_front(st, a, b, i + 1, n, d),
                None => {},
            },
            Err(_) => {},
        }
    }
}

/// The directory that the names of a path lead to from the root.
pub open spec fn led_to(st: FatState, dirs: Seq<Seq<char>>) -> Result<Option<u32>, Error> {
    model::walk(st, dirs, 0, dirs.len() as int, model::root_cluster(st))
}

/// The directory that a path leads to is the subdirectory with the last of its names in the
/// directory that the names before lead to; the path without names leads to the root. What an
/// entry is looked for in is the directory that the path without the entry's name leads to, and
/// nothing else.
pub proof fn path_leads_on(st: FatState, dirs: Seq<Seq<char>>, name: Seq<char>)
    ensures
        led_to(st, dirs.push(name)) == one_further(st, led_to(st, dirs), name),
        led_to(st, Seq::empty()) == Ok::<Option<u32>, Error>(Some(model::root_cluster(st))),
        model::find(st, dirs.push(name)) == (match led_to(st, dirs) {
            Err(e) => Err::<Option<(EntryView, u32, int)>, Error>(e),
            Ok(None) => Ok::<Option<(EntryView, u32, int)>, Error>(None),
            Ok(Some(c)) => model::find_slot(st, c, name, model::chain_limit(st)),
        }),
        model::parent(st, dirs.push(name)) == (match led_to(st, dirs) {
            Err(e) => Err::<u32, Error>(e),
            Ok(None) => Err::<u32, Error>(Error::FileNotFound),
            Ok(Some(c)) => Ok::<u32, Error>(c),
        }),
{
    let cs = dirs.push(name);
    let n = dirs.len() as int;
    let root = model::root_cluster(st);
    assert(cs.take(n) =~= dirs.take(n));
    assert(cs.last() == name);
    lemma_walk_on(st, cs, 0, n, root);
    lemma_walk_front(st, cs, dirs, 0, n, root);
    reveal(model::find);
}

/// The subdirectory with a name is the first entry that is a directory and is shown under the
/// name, whatever the case of its letters; there is none exactly if no entry is that.
pub proof fn subdirectory_is_an_entry(es: Seq<EntryView>, name: Seq<char>)
    ensures
        match model::subdir(es, name) {
            Some(c) => exists|k: int|
                0 <= k < es.len() && named_dir(#[trigger] es[k], name) && entry::first_cluster(es[k])
                    == c && forall|j: int| 0 <= j < k ==> !named_dir(#[trigger] es[j], name),
            None => forall|j: int| 0 <= j < es.len() ==> !named_dir(#[trigger] es[j], name),
        },
    decreases es.len(),
{
    if es.len() > 0 {
        if named_dir(es[0], name) {
            assert(named_dir(es[0], name));
        } else {
            let r = es.skip(1);
            subdirectory_is_an_entry(r, name);
            match model::subdir(r, name) {
                Some(c) => {
                    let k = choose|k: int|
                        0 <= k < r.len() && named_dir(#[trigger] r[k], name)
                            && entry::first_cluster(r[k]) == c && forall|j: int|
                            0 <= j < k ==> !named_dir(#[trigger] r[j], name);
                    assert(es[k + 1] == r[k]);
                    assert forall|j: int| 0 <= j < k + 1 implies !named_dir(
                        #[trigger] es[j],
                        name,
                    ) by {
                        if j > 0 {
                            assert(es[j] == r[j - 1]);
                        }
                    }
                },
                None => {
                    assert forall|j: int| 0 <= j < es.len() implies !named_dir(
                        #[trigger] es[j],
                        name,
                    ) by {
                        if j > 0 {
                            assert(es[j] == r[j - 1]);
                        }
                    }
                },
            }
        }
    }
}

/// Whether an entry is a directory that is shown under a name.
pub open spec fn named_dir(e: EntryView, name: Seq<char>) -> bool {
    entry::has_attr(e, ATTR_DIRECTORY) && text::same_but_case(entry::entry_name(e), name)
}

// ---- What is listed and what is found ---------------------------------------------------------

/// Whether an entry is shown under a name.
pub open spec fn named(e: EntryView, name: Seq<char>) -> bool {
    text::same_but_case(entry::entry_name(e), name)
}

/// Whether `e` is among the entries, the first of its name.
pub open spec fn first_of_name(es: Seq<EntryView>, e: EntryView, name: Seq<char>) -> bool {
    exists|k: int| #[trigger] first_at(es, e, name, k)
}

/// Whether `e` is the entry at `k`, and none before it has the name.
pub open spec fn first_at(es: Seq<EntryView>, e: EntryView, name: Seq<char>, k: int) -> bool {
    0 <= k < es.len() && es[k] == e && forall|j: int| 0 <= j < k ==> !named(#[trigger] es[j], name)
}

/// Whether entries agree with a search among them: what was found is the first of them with the
/// name, and when nothing was found none has the name.
pub open spec fn agree(
    es: Seq<EntryView>,
    found: Option<EntryView>,
    name: Seq<char>,
) -> bool {
    match found {
        Some(e) => named(e, name) && (entry::has_attr(e, ATTR_VOLUME_ID) || first_of_name(
            es,
            e,
            name,
        )),
        None => forall|j: int| 0 <= j < es.len() ==> !named(#[trigger] es[j], name),
    }
}

/// One cluster: what it lists and what a search in it hits.
proof fn lemma_scan_lists(d: Seq<u8>, off: int, name: Seq<char>)
    requires
        0 <= off,
        off % 32 == 0,
        d.len() % 32 == 0,
    ensures
        ({
            let (es, ended) = model::listed(d, off, d.len() as int);
            match model::scan(d, off, name) {
                Scan::Hit(o) => off <= o && o + 32 <= d.len() && d[o] != 0 && d[o] != 0xE5 && agree(
                    es,
                    Some(entry::dec_entry(d, o)),
                    name,
                ),
                Scan::Stop => ended && agree(es, None, name),
                Scan::Past => !ended && agree(es, None, name),
            }
        }),
    decreases d.len() - off,
{
    let (es, ended) = model::listed(d, off, d.len() as int);
    if off + 32 <= d.len() {
        if d[off] != 0 {
            let e = entry::dec_entry(d, off);
            let rest = model::listed(d, off + 32, d.len() as int).0;
            lemma_scan_lists(d, off + 32, name);
            let kept = !(d[off] == 0xE5 || entry::has_attr(e, ATTR_VOLUME_ID));
            if kept {
                assert(es == seq![e] + rest);
                assert(es[0] == e);
            }
            match model::scan(d, off, name) {
                Scan::Hit(o) => {
                    let x = entry::dec_entry(d, o);
                    if o != off {
                        if first_of_name(rest, x, name) {
                            let k = choose|k: int| #[trigger] first_at(rest, x, name, k);
                            if kept {
                                assert forall|j: int| 0 <= j < k + 1 implies !named(
                                    #[trigger] es[j],
                                    name,
                                ) by {
                                    if j > 0 {
                                        assert(es[j] == rest[j - 1]);
                                    }
                                }
                                assert(first_at(es, x, name, k + 1));
                            } else {
                                assert(first_at(es, x, name, k));
                            }
                        }
                    } else if kept {
                        assert(first_at(es, x, name, 0));
                    }
                },
                _ => {
                    assert forall|j: int| 0 <= j < es.len() implies !named(#[trigger] es[j], name) by {
                        if kept {
                            if j > 0 {
                                assert(es[j] == rest[j - 1]);
                            }
                        }
                    }
                },
            }
        }
    }
}

/// A sector's share of a listing.
proof fn lemma_sector_lists(d: Seq<u8>, base: int, off: int)
    requires
        0 <= base,
        0 <= off <= 512,
        off % 32 == 0,
        base + 512 <= d.len(),
    ensures
        ({
            let a = d.subrange(base, base + 512);
            let (es, ended) = model::listed(a, off, 512);
            let (rest, end) = model::listed(d, base + 512, d.len() as int);
            model::listed(d, base + off, d.len() as int) == (if ended {
                (es, true)
            } else {
                (es + rest, end)
            })
        }),
    decreases 512 - off,
{
    let a = d.subrange(base, base + 512);
    let (es, ended) = model::listed(a, off, 512);
    let (rest, end) = model::listed(d, base + 512, d.len() as int);
    if off < 512 {
        assert(a[off] == d[base + off]);
        assert(a.subrange(off, off + 32) =~= d.subrange(base + off, base + off + 32));
        entry_laws::lemma_entry_same(a, off, d, base + off);
        lemma_sector_lists(d, base, off + 32);
        let (more, _) = model::listed(a, off + 32, 512);
        let e = entry::dec_entry(a, off);
        assert(seq![e] + (more + rest) =~= (seq![e] + more) + rest);
        assert(model::listed(d, base + off, d.len() as int).0 =~= (if ended {
            es
        } else {
            es + rest
        }));
    } else {
        assert(es + rest =~= rest);
    }
}

/// The fixed root directory is listed as a whole, although it is read by the sector.
pub(crate) proof fn lemma_root_lists(st: FatState, d: Seq<u8>, s: int)
    requires
        0 <= s <= model::root_len(st),
        model::root_len(st) > 0,
        model::root_lba(st) >= 0,
        model::read(st, model::root_lba(st), model::root_len(st)) == Ok::<Seq<u8>, Error>(d),
    ensures
        model::root_from(st, s) == Ok::<Seq<EntryView>, Error>(
            model::listed(d, 512 * s, d.len() as int).0,
        ),
    decreases model::root_len(st) - s,
{
    reveal(model::root_from);
    let l = model::root_lba(st);
    let n = model::root_len(st);
    assert(d.len() == 512 * n);
    if s < n {
        lemma_root_lists(st, d, s + 1);
        lemma_sector_lists(d, 512 * s, 0);
        assert(d.subrange(512 * s, 512 * s + 512) =~= st.disk.subrange(
            (l + s) * 512,
            (l + s + 1) * 512,
        ));
    }
}

/// The clusters of a directory: what they list and what a search through them finds.
proof fn lemma_chain_lists(st: FatState, c: u32, name: Seq<char>, fuel: int)
    requires
        !model::fixed_root(st, c),
        model::spc(st) > 0,
        model::cluster_entries(st, c, fuel) is Ok,
    ensures
        model::find_slot(st, c, name, fuel) matches Ok(f) && agree(
            model::cluster_entries(st, c, fuel)->Ok_0,
            match f {
                Some(x) => Some(x.0),
                None => None,
            },
            name,
        ),
    decreases fuel,
{
    let d = model::dir_data(st, c)->Ok_0;
    let all = model::cluster_entries(st, c, fuel)->Ok_0;
    let (es, ended) = model::listed(d, 0, d.len() as int);
    lemma_scan_lists(d, 0, name);
    match model::scan(d, 0, name) {
        Scan::Hit(o) => {
            let x = entry::dec_entry(d, o);
            if first_of_name(es, x, name) {
                let k = choose|k: int| #[trigger] first_at(es, x, name, k);
                assert forall|j: int| 0 <= j < k implies !named(#[trigger] all[j], name) by {
                    assert(all[j] == es[j]);
                }
                assert(first_at(all, x, name, k));
            }
        },
        Scan::Stop => {},
        Scan::Past => {
            match model::fat_next(st, c) {
                Ok(Some(n)) => {
                    model::next_is_not_free(st, c);
                    lemma_chain_lists(st, n, name, fuel - 1);
                    let rest = model::cluster_entries(st, n, fuel - 1)->Ok_0;
                    assert(all == es + rest);
                    match model::find_slot(st, n, name, fuel - 1)->Ok_0 {
                        Some(x) => {
                            if first_of_name(rest, x.0, name) {
                                let k = choose|k: int| #[trigger] first_at(rest, x.0, name, k);
                                assert forall|j: int| 0 <= j < es.len() + k implies !named(
                                    #[trigger] all[j],
                                    name,
                                ) by {
                                    if j < es.len() {
                                        assert(all[j] == es[j]);
                                    } else {
                                        assert(all[j] == rest[j - es.len()]);
                                    }
                                }
                                assert(first_at(all, x.0, name, es.len() + k));
                            }
                        },
                        None => {
                            assert forall|j: int| 0 <= j < all.len() implies !named(#[trigger] all[j], name) by {
                                if j < es.len() {
                                    assert(all[j] == es[j]);
                                } else {
                                    assert(all[j] == rest[j - es.len()]);
                                }
                            }
                        },
                    }
                },
                _ => {},
            }
        },
    }
}

/// What a path finds in a directory is what the directory lists: an entry that is found under a
/// name is the first of those listed that has it, unless it is a label, and when none is found
/// none that is listed has the name.
pub proof fn found_is_listed(st: FatState, c: u32, name: Seq<char>)
    requires
        model::spc(st) > 0,
        model::root_lba(st) >= 0,
        model::dir_entries(st, c) is Ok,
        model::dir_data(st, c) is Ok,
    ensures
        model::find_slot(st, c, name, model::chain_limit(st)) matches Ok(f) && agree(
            model::dir_entries(st, c)->Ok_0,
            match f {
                Some(x) => Some(x.0),
                None => None,
            },
            name,
        ),
{
    let fuel = model::chain_limit(st);
    if model::fixed_root(st, c) {
        let d = model::dir_data(st, c)->Ok_0;
        lemma_root_lists(st, d, 0);
        lemma_scan_lists(d, 0, name);
    } else {
        lemma_chain_lists(st, c, name, fuel);
    }
}

/// The directory that is found under a name is the one that paths through the name lead to.
pub proof fn found_directory_is_led_to(st: FatState, c: u32, name: Seq<char>, f: (EntryView, u32, int))
    requires
        model::spc(st) > 0,
        model::root_lba(st) >= 0,
        model::dir_entries(st, c) is Ok,
        model::dir_data(st, c) is Ok,
        model::find_slot(st, c, name, model::chain_limit(st)) == Ok::<
            Option<(EntryView, u32, int)>,
            Error,
        >(Some(f)),
        entry::has_attr(f.0, ATTR_DIRECTORY),
        !entry::has_attr(f.0, ATTR_VOLUME_ID),
    ensures
        model::subdir(model::dir_entries(st, c)->Ok_0, name) == Some(entry::first_cluster(f.0)),
{
    found_is_listed(st, c, name);
    let es = model::dir_entries(st, c)->Ok_0;
    let k = choose|k: int| #[trigger] first_at(es, f.0, name, k);
    subdirectory_is_an_entry(es, name);
    assert(named_dir(es[k], name));
    match model::subdir(es, name) {
        Some(x) => {
            let l = choose|l: int|
                0 <= l < es.len() && named_dir(#[trigger] es[l], name) && entry::first_cluster(
                    es[l],
                ) == x && forall|j: int| 0 <= j < l ==> !named_dir(#[trigger] es[j], name);
            assert(named(es[l], name));
            assert(l == k);
        },
        None => {},
    }
}

} // verus!
