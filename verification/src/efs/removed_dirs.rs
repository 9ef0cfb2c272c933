//! Directories that are removed: their names are gone, and the directory they were in is what
//! it was otherwise.
use vstd::prelude::*;
use crate::error::Error;
use super::contents;
use super::contents::{Role, Storage};
use super::dirmodel;
use super::extents;
use super::layout::{EfsExtent, InodeView};
use super::model;
use super::model::FsState;
use super::names;
use super::new_dirs;
use super::renames;

verus! {

/// Whether file `ino` has an inode and is another file than directory `dir`.
pub open spec fn aside(st: FsState, dir: u64, s: Storage, ino: u64) -> bool {
    renames::bystander(st, dir, s, ino) && model::inode_block(st, ino) is Some
}

/// Whether block `b` plays no role for directory `dir`.
pub open spec fn clear(st: FsState, dir: u64, s: Storage, b: int) -> bool {
    forall|r: Role| #[trigger] contents::at(st, dir, s, r) != Some(b)
}

/// Whether no block of an extent plays a role for directory `dir`.
pub open spec fn clear_extent(st: FsState, dir: u64, s: Storage, e: EfsExtent) -> bool {
    forall|x: int| e.phys() <= x < e.phys() + e.length ==> #[trigger] clear(st, dir, s, x)
}

/// Whether what file `ino` is stored in is no part of directory `dir`.
pub open spec fn stored_elsewhere(
    st: FsState,
    dir: u64,
    s: Storage,
    ino: u64,
    i: InodeView,
) -> bool {
    let map = model::map_or_empty(st, i);
    let leaves = model::tree_blocks(i);
    &&& aside(st, dir, s, ino)
    &&& forall|k: int| 0 <= k < map.len() ==> clear_extent(st, dir, s, #[trigger] map[k])
    &&& forall|k: int| 0 <= k < leaves.len() ==> clear(st, dir, s, #[trigger] leaves[k] as int)
}

/// What freeing blocks of others leaves of a directory: everything.
spec fn unharmed(a: FsState, z: FsState, dir: u64, i: InodeView, s: Storage, ino: u64) -> bool {
    &&& names::dir_in_order(z, dir, i, s)
    &&& names::dir_bytes(z, s.map, i.size as int) == names::dir_bytes(a, s.map, i.size as int)
    &&& aside(z, dir, s, ino)
    &&& contents::same_shape(a, z)
}

/// Nothing changes for clear blocks where the layout is the same.
proof fn lemma_clear_same(a: FsState, z: FsState, dir: u64, s: Storage)
    requires
        model::mounted(a),
        contents::same_shape(a, z),
    ensures
        forall|b: int| #[trigger] clear(a, dir, s, b) ==> clear(z, dir, s, b),
{
    contents::lemma_same_roles(a, z, dir, s);
    assert forall|b: int| #[trigger] clear(a, dir, s, b) implies clear(z, dir, s, b) by {
        assert forall|r: Role| #[trigger] contents::at(z, dir, s, r) != Some(b) by {
            assert(contents::at(z, dir, s, r) == contents::at(a, dir, s, r));
        }
    }
}

/// Changing nothing but bitmaps, and keeping what the directory uses in use, leaves it in
/// order.
#[verifier::spinoff_prover]
#[verifier::rlimit(40)]
proof fn lemma_bitmaps_only(a: FsState, z: FsState, dir: u64, i: InodeView, s: Storage)
    requires
        names::dir_in_order(a, dir, i, s),
        contents::same_shape(a, z),
        contents::untouched(a, z),
        forall|r: Role| (#[trigger] contents::at(a, dir, s, r)) matches Some(x) ==> contents::kept(
            z,
            x,
        ),
    ensures
        names::dir_in_order(z, dir, i, s),
        names::dir_bytes(z, s.map, i.size as int) == names::dir_bytes(a, s.map, i.size as int),
{
    contents::lemma_same_roles(a, z, dir, s);
    assert(contents::separate(z, dir, s)) by {
        assert forall|r: Role| (#[trigger] contents::at(z, dir, s, r)) matches Some(x) implies
            contents::kept(z, contents::at(z, dir, s, r)->Some_0) by {
            assert(contents::at(a, dir, s, r) == contents::at(z, dir, s, r));
        }
        assert forall|r: Role, q: Role|
            #![trigger contents::at(z, dir, s, r), contents::at(z, dir, s, q)]
            r != q && contents::at(z, dir, s, r) is Some && contents::at(z, dir, s, q) is Some
                implies contents::at(z, dir, s, r) != contents::at(z, dir, s, q) by {
            assert(contents::at(a, dir, s, r) == contents::at(z, dir, s, r));
            assert(contents::at(a, dir, s, q) == contents::at(z, dir, s, q));
        }
    }
    if model::inode_block(a, dir) is Some {
        assert(contents::at(a, dir, s, Role::Home) is Some);
        new_dirs::lemma_role_no_bitmap(a, dir, s, Role::Home);
    }
    renames::lemma_same_inode(a, z, dir);
    assert forall|b: u64| #[trigger]
        model::tree_blocks(i).contains(b) && model::has_block(a, b as int) implies contents::block(
        z,
        b as int,
    ) == contents::block(a, b as int) by {
        assert(contents::at(a, dir, s, Role::Leaf(b)) == Some(b as int));
        new_dirs::lemma_role_no_bitmap(a, dir, s, Role::Leaf(b));
    }
    contents::lemma_load_same(a, z, i);
    let x = names::dir_bytes(z, s.map, i.size as int);
    let y = names::dir_bytes(a, s.map, i.size as int);
    assert forall|pos: int| 0 <= pos < x.len() implies x[pos] == y[pos] by {
        let lb = model::logical_block(pos);
        match extents::map_lookup(s.map, lb) {
            Some(q) => {
                assert(contents::at(a, dir, s, Role::Data(lb)) == Some(q as int));
                new_dirs::lemma_role_no_bitmap(a, dir, s, Role::Data(lb));
                assert(model::has_block(a, q as int));
            },
            None => {},
        }
    }
    assert(x =~= y);
}

/// Freeing a block leaves the places of inodes and of their bitmaps.
proof fn lemma_tables_stay(st: FsState, b: u64, dir: u64, s: Storage, ino: u64)
    requires
        model::mounted(st),
        contents::same_shape(st, model::free_block(st, b).0),
        aside(st, dir, s, ino),
    ensures
        aside(model::free_block(st, b).0, dir, s, ino),
{
    let z = model::free_block(st, b).0;
    contents::lemma_same_roles(st, z, dir, s);
    contents::lemma_same_roles(st, z, ino, s);
    contents::lemma_split(ino - 1, st.sb.inodes_per_group as int);
    assert(renames::inode_bitmap(z, ino) == renames::inode_bitmap(st, ino)) by {
        reveal(model::free_block);
    }
}

/// Freeing one block of another file.
#[verifier::spinoff_prover]
#[verifier::rlimit(40)]
proof fn lemma_free_one(st: FsState, dir: u64, i: InodeView, s: Storage, b: u64, ino: u64)
    requires
        names::dir_in_order(st, dir, i, s),
        aside(st, dir, s, ino),
        clear(st, dir, s, b as int),
        model::free_block(st, b).1 is Ok,
    ensures
        unharmed(st, model::free_block(st, b).0, dir, i, s, ino),
{
    let z = model::free_block(st, b).0;
    contents::lemma_apart(st, dir, s);
    contents::lemma_free(st, b);
    assert forall|r: Role| (#[trigger] contents::at(st, dir, s, r)) matches Some(x) implies
        contents::kept(z, contents::at(st, dir, s, r)->Some_0) by {
        if contents::at(st, dir, s, r) is Some {
            assert(contents::kept(st, contents::at(st, dir, s, r)->Some_0));
        }
    }
    lemma_bitmaps_only(st, z, dir, i, s);
    lemma_tables_stay(st, b, dir, s, ino);
}

/// Freeing a run of blocks of another file.
#[verifier::spinoff_prover]
#[verifier::rlimit(40)]
proof fn lemma_free_some(
    st: FsState,
    dir: u64,
    i: InodeView,
    s: Storage,
    first: int,
    d: int,
    n: int,
    ino: u64,
)
    requires
        names::dir_in_order(st, dir, i, s),
        aside(st, dir, s, ino),
        0 <= first,
        0 <= d <= n,
        first + n <= u64::MAX,
        forall|x: int| first <= x < first + n ==> #[trigger] clear(st, dir, s, x),
        model::free_run(st, first, d, n).1 is Ok,
    ensures
        unharmed(st, model::free_run(st, first, d, n).0, dir, i, s, ino),
    decreases n - d,
{
    if d < n {
        let b = (first + d) as u64;
        assert(clear(st, dir, s, first + d));
        lemma_free_one(st, dir, i, s, b, ino);
        let st1 = model::free_block(st, b).0;
        lemma_clear_same(st, st1, dir, s);
        assert forall|x: int| first <= x < first + n implies #[trigger] clear(st1, dir, s, x) by {
            assert(clear(st, dir, s, x));
        }
        lemma_free_some(st1, dir, i, s, first, d + 1, n, ino);
        names::lemma_shapes(st, st1, model::free_run(st1, first, d + 1, n).0);
    } else {
        assert(contents::same_shape(st, st));
    }
}

/// Freeing the extents of another file.
#[verifier::spinoff_prover]
#[verifier::rlimit(40)]
proof fn lemma_free_map(
    st: FsState,
    dir: u64,
    i: InodeView,
    s: Storage,
    map: Seq<EfsExtent>,
    k: int,
    ino: u64,
)
    requires
        names::dir_in_order(st, dir, i, s),
        aside(st, dir, s, ino),
        0 <= k,
        forall|n: int| 0 <= n < map.len() ==> clear_extent(st, dir, s, #[trigger] map[n]),
        model::free_extents(st, map, k).1 is Ok,
    ensures
        unharmed(st, model::free_extents(st, map, k).0, dir, i, s, ino),
    decreases map.len() - k,
{
    if k < map.len() {
        let e = map[k];
        assert(clear_extent(st, dir, s, map[k]));
        lemma_free_some(st, dir, i, s, e.phys(), 0, e.length as int, ino);
        let st1 = model::free_run(st, e.phys(), 0, e.length as int).0;
        lemma_clear_same(st, st1, dir, s);
        assert forall|n: int| 0 <= n < map.len() implies clear_extent(
            st1,
            dir,
            s,
            #[trigger] map[n],
        ) by {
            assert(clear_extent(st, dir, s, map[n]));
            assert forall|x: int| map[n].phys() <= x < map[n].phys() + map[n].length implies
                #[trigger] clear(st1, dir, s, x) by {
                assert(clear(st, dir, s, x));
            }
        }
        lemma_free_map(st1, dir, i, s, map, k + 1, ino);
        names::lemma_shapes(st, st1, model::free_extents(st1, map, k + 1).0);
    } else {
        assert(contents::same_shape(st, st));
    }
}

/// Freeing blocks of another file one by one.
#[verifier::spinoff_prover]
#[verifier::rlimit(40)]
proof fn lemma_free_each(
    st: FsState,
    dir: u64,
    i: InodeView,
    s: Storage,
    list: Seq<u64>,
    k: int,
    ino: u64,
)
    requires
        names::dir_in_order(st, dir, i, s),
        aside(st, dir, s, ino),
        0 <= k,
        forall|n: int| 0 <= n < list.len() ==> clear(st, dir, s, #[trigger] list[n] as int),
        model::free_list(st, list, k).1 is Ok,
    ensures
        unharmed(st, model::free_list(st, list, k).0, dir, i, s, ino),
    decreases list.len() - k,
{
    if k < list.len() {
        assert(clear(st, dir, s, list[k] as int));
        lemma_free_one(st, dir, i, s, list[k], ino);
        let st1 = model::free_block(st, list[k]).0;
        lemma_clear_same(st, st1, dir, s);
        assert forall|n: int| 0 <= n < list.len() implies clear(
            st1,
            dir,
            s,
            #[trigger] list[n] as int,
        ) by {
            assert(clear(st, dir, s, list[n] as int));
        }
        lemma_free_each(st1, dir, i, s, list, k + 1, ino);
        names::lemma_shapes(st, st1, model::free_list(st1, list, k + 1).0);
    } else {
        assert(contents::same_shape(st, st));
    }
}

/// Freeing everything another file is stored in.
#[verifier::spinoff_prover]
#[verifier::rlimit(40)]
proof fn lemma_storage_freed(
    st: FsState,
    dir: u64,
    i: InodeView,
    s: Storage,
    ino: u64,
    v: InodeView,
)
    requires
        names::dir_in_order(st, dir, i, s),
        stored_elsewhere(st, dir, s, ino, v),
        dirmodel::free_file_storage(st, ino, v).1 is Ok,
    ensures
        ({
            let z = dirmodel::free_file_storage(st, ino, v).0;
            &&& names::dir_in_order(z, dir, i, s)
            &&& names::dir_bytes(z, s.map, i.size as int) == names::dir_bytes(
                st,
                s.map,
                i.size as int,
            )
        }),
{
    reveal(dirmodel::free_file_storage);
    let z = dirmodel::free_file_storage(st, ino, v).0;
    if v.inline() {
        renames::lemma_given_back(st, dir, s, ino);
        renames::lemma_passed_by(st, z, dir, i, s);
    } else {
        reveal(model::free_extent_storage);
        let map = model::map_or_empty(st, v);
        let leaves = model::tree_blocks(v);
        lemma_free_map(st, dir, i, s, map, 0, ino);
        let st1 = model::free_extents(st, map, 0).0;
        lemma_clear_same(st, st1, dir, s);
        assert forall|n: int| 0 <= n < leaves.len() implies clear(
            st1,
            dir,
            s,
            #[trigger] leaves[n] as int,
        ) by {
            assert(clear(st, dir, s, leaves[n] as int));
        }
        lemma_free_each(st1, dir, i, s, leaves, 0, ino);
        let st2 = model::free_list(st1, leaves, 0).0;
        renames::lemma_given_back(st2, dir, s, ino);
        renames::lemma_passed_by(st2, z, dir, i, s);
    }
}

/// The name of a directory that is removed leads nowhere, and every other name of the
/// directory it was in leads where it did. That directory has one link less.
#[verifier::spinoff_prover]
#[verifier::rlimit(40)]
pub proof fn removed_dir_is_gone(
    st: FsState,
    dir: u64,
    i: InodeView,
    s: Storage,
    ino: u64,
    v: InodeView,
    name: Seq<u8>,
    other: Seq<u8>,
    now: u64,
) -> (j: InodeView)
    requires
        names::dir_in_order(st, dir, i, s),
        names::well_named(names::dir_bytes(st, s.map, i.size as int)),
        stored_elsewhere(st, dir, s, ino, v),
        dirmodel::remove_dir(st, dir, ino, v, name, now).1 is Ok,
    ensures
        ({
            let z = dirmodel::remove_dir(st, dir, ino, v, name, now).0;
            &&& names::dir_in_order(z, dir, j, s)
            &&& names::well_named(names::dir_bytes(z, s.map, j.size as int))
            &&& i.link_count > 0 ==> j.link_count == i.link_count - 1
            &&& dirmodel::lookup_in_dir(z, dir, name) == Ok::<Option<(u64, u8)>, Error>(None)
            &&& other != name ==> dirmodel::lookup_in_dir(z, dir, other)
                == dirmodel::lookup_in_dir(st, dir, other)
        }),
{
    reveal(dirmodel::remove_dir);
    lemma_storage_freed(st, dir, i, s, ino, v);
    let st1 = dirmodel::free_file_storage(st, ino, v).0;
    let j1 = new_dirs::lemma_link_counted(st1, dir, i, s, false);
    let st2 = dirmodel::adjust_links(st1, dir, false).0;
    new_dirs::lemma_counted(st2, dir, s, ino, false);
    let st3 = dirmodel::count_dir(st2, ino, false);
    renames::lemma_passed_by(st2, st3, dir, j1, s);
    renames::lemma_same_names(st, st3, dir, i, s, j1, s, other);
    names::remove_entry_then_lookup(st3, dir, j1, s, name, other, now)
}

} // verus!
