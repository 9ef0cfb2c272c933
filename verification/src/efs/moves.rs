//! Files that move from one directory to another.
use vstd::prelude::*;
use crate::error::Error;
use super::contents;
use super::contents::{Role, Storage};
use super::dirent;
use super::dirmodel;
use super::extents;
use super::layout;
use super::layout::{EfsExtent, InodeView, S_IFDIR};
use super::model;
use super::model::FsState;
use super::names;
use super::new_dirs;
use super::orphans;
use super::renames;

verus! {

/// Whether two roles may be played by one block: the bitmaps are everybody's, and two inodes
/// may lie in one block.
pub open spec fn shared(r: Role, q: Role) -> bool {
    (r is Bitmap && q is Bitmap) || (r is Home && q is Home)
}

/// Whether two directories have nothing in common: their inodes lie apart, and no other block
/// plays a role for both.
pub open spec fn strangers(st: FsState, a: u64, sa: Storage, b: u64, sb: Storage) -> bool {
    &&& orphans::apart(st, a, b)
    &&& forall|r: Role, q: Role|
        #![trigger contents::at(st, a, sa, r), contents::at(st, b, sb, q)]
        !shared(r, q) && contents::at(st, a, sa, r) is Some && contents::at(st, b, sb, q) is Some
            ==> contents::at(st, a, sa, r) != contents::at(st, b, sb, q)
}

pub(crate) proof fn lemma_still_strangers(
    st: FsState,
    z: FsState,
    a: u64,
    sa: Storage,
    b: u64,
    sb: Storage,
)
    requires
        model::mounted(st),
        contents::same_shape(st, z),
        strangers(st, a, sa, b, sb),
    ensures
        strangers(z, a, sa, b, sb),
{
    contents::lemma_same_roles(st, z, a, sa);
    contents::lemma_same_roles(st, z, b, sb);
    assert forall|r: Role, q: Role|
        #![trigger contents::at(z, a, sa, r), contents::at(z, b, sb, q)]
        !shared(r, q) && contents::at(z, a, sa, r) is Some && contents::at(z, b, sb, q) is Some
            implies contents::at(z, a, sa, r) != contents::at(z, b, sb, q) by {
        assert(contents::at(st, a, sa, r) == contents::at(z, a, sa, r));
        assert(contents::at(st, b, sb, q) == contents::at(z, b, sb, q));
    }
}

/// Writing one directory back leaves the other alone.
#[verifier::spinoff_prover]
#[verifier::rlimit(40)]
proof fn lemma_update_beside(
    st: FsState,
    a: u64,
    ia: InodeView,
    sa: Storage,
    data: Seq<u8>,
    now: u64,
    b: u64,
    sb: Storage,
)
    requires
        names::dir_in_order(st, a, ia, sa),
        data.len() == ia.size,
        strangers(st, a, sa, b, sb),
        dirmodel::update_dir(st, a, data, now).1 is Ok,
    ensures
        renames::passes_by(st, dirmodel::update_dir(st, a, data, now).0, b, sb),
{
    reveal(dirmodel::write_dir_data);
    reveal(dirmodel::touch);
    names::lemma_put_blocks(st, a, ia, sa, data, 0);
    let st1 = dirmodel::put_dir_blocks(st, a, data, 0).0;
    let j = layout::stamped(InodeView { mtime_sec: now, ..ia });
    contents::lemma_inode_len(st, a, ia);
    let h = contents::lemma_inode_page(st1, a, j);
    let z = model::write_inode(st1, a, j).0;
    contents::lemma_same_roles(st, st1, a, sa);
    contents::lemma_same_roles(st, st1, b, sb);
    assert(contents::at(st, a, sa, Role::Home) == Some(h));
    assert forall|q: Role|
        (#[trigger] contents::at(st, b, sb, q)) is Some implies names::spared(
        sa.map,
        contents::at(st, b, sb, q)->Some_0,
    ) by {
        let x = contents::at(st, b, sb, q)->Some_0;
        assert forall|lb: u32| (#[trigger] extents::map_lookup(sa.map, lb)) matches Some(p) implies
            extents::map_lookup(sa.map, lb)->Some_0 != x by {
            if extents::map_lookup(sa.map, lb) is Some {
                assert(contents::at(st, a, sa, Role::Data(lb)) is Some);
            }
        }
    }
    if model::inode_block(st, b) is Some {
        assert(contents::at(st, b, sb, Role::Home) is Some);
    }
    renames::lemma_same_inode(st, st1, b);
    renames::lemma_beside_inode(st, st1, a, b, j);
    names::lemma_shapes(st, st1, z);
    assert forall|q: Role|
        q != Role::Home && (#[trigger] contents::at(st, b, sb, q)) is Some && model::has_block(
            st,
            contents::at(st, b, sb, q)->Some_0,
        ) implies contents::block(z, contents::at(st, b, sb, q)->Some_0) == contents::block(
        st,
        contents::at(st, b, sb, q)->Some_0,
    ) by {
        let x = contents::at(st, b, sb, q)->Some_0;
        assert(names::spared(sa.map, x));
        assert(x != h);
        assert(contents::block(st1, x) == contents::block(st, x));
    }
}

/// A directory whose blocks are what they were, and still in use, is what it was.
#[verifier::spinoff_prover]
#[verifier::rlimit(40)]
proof fn lemma_kept_in_order(st: FsState, z: FsState, a: u64, i: InodeView, s: Storage)
    requires
        names::dir_in_order(st, a, i, s),
        contents::same_shape(st, z),
        model::read_inode(z, a) == model::read_inode(st, a),
        forall|r: Role| (#[trigger] contents::at(st, a, s, r)) matches Some(x) ==> contents::kept(
            z,
            x,
        ),
        forall|r: Role|
            (r is Data || r is Leaf) && (#[trigger] contents::at(st, a, s, r)) is Some
                && model::has_block(st, contents::at(st, a, s, r)->Some_0) ==> contents::block(
                z,
                contents::at(st, a, s, r)->Some_0,
            ) == contents::block(st, contents::at(st, a, s, r)->Some_0),
    ensures
        names::dir_in_order(z, a, i, s),
        names::dir_bytes(z, s.map, i.size as int) == names::dir_bytes(st, s.map, i.size as int),
{
    contents::lemma_same_roles(st, z, a, s);
    assert(contents::separate(z, a, s)) by {
        assert forall|r: Role| (#[trigger] contents::at(z, a, s, r)) matches Some(x) implies
            contents::kept(z, contents::at(z, a, s, r)->Some_0) by {
            assert(contents::at(st, a, s, r) == contents::at(z, a, s, r));
        }
        assert forall|r: Role, q: Role|
            #![trigger contents::at(z, a, s, r), contents::at(z, a, s, q)]
            r != q && contents::at(z, a, s, r) is Some && contents::at(z, a, s, q) is Some implies
            contents::at(z, a, s, r) != contents::at(z, a, s, q) by {
            assert(contents::at(st, a, s, r) == contents::at(z, a, s, r));
            assert(contents::at(st, a, s, q) == contents::at(z, a, s, q));
        }
    }
    assert forall|b: u64| #[trigger]
        model::tree_blocks(i).contains(b) && model::has_block(st, b as int) implies contents::block(
        z,
        b as int,
    ) == contents::block(st, b as int) by {
        assert(contents::at(st, a, s, Role::Leaf(b)) == Some(b as int));
    }
    contents::lemma_load_same(st, z, i);
    let x = names::dir_bytes(z, s.map, i.size as int);
    let y = names::dir_bytes(st, s.map, i.size as int);
    assert forall|pos: int| 0 <= pos < x.len() implies x[pos] == y[pos] by {
        let lb = model::logical_block(pos);
        match extents::map_lookup(s.map, lb) {
            Some(q) => {
                assert(contents::at(st, a, s, Role::Data(lb)) == Some(q as int));
                assert(model::has_block(st, q as int));
            },
            None => {},
        }
    }
    assert(x =~= y);
}

/// Entering a name in one directory leaves the other alone.
#[verifier::spinoff_prover]
#[verifier::rlimit(40)]
pub(crate) proof fn lemma_enter_beside(
    st: FsState,
    a: u64,
    ia: InodeView,
    sa: Storage,
    b: u64,
    ib: InodeView,
    sb: Storage,
    name: Seq<u8>,
    entry: u64,
    file_type: u8,
    now: u64,
)
    requires
        names::dir_in_order(st, a, ia, sa),
        names::dir_in_order(st, b, ib, sb),
        strangers(st, a, sa, b, sb),
        ib.size + 8192 <= contents::LIMIT,
        ib.size + 12288 <= usize::MAX,
        dirent::tiled(names::dir_bytes(st, sb.map, ib.size as int), 0),
        dirmodel::lookup_in_dir(st, b, name) == Ok::<Option<(u64, u8)>, Error>(None),
        entry != 0,
        name.len() <= 255,
        dirmodel::add_dir_entry(st, b, name, entry, file_type, now).1 is Ok,
    ensures
        ({
            let z = dirmodel::add_dir_entry(st, b, name, entry, file_type, now).0;
            &&& names::dir_in_order(z, a, ia, sa)
            &&& names::dir_bytes(z, sa.map, ia.size as int) == names::dir_bytes(
                st,
                sa.map,
                ia.size as int,
            )
        }),
{
    let z = dirmodel::add_dir_entry(st, b, name, entry, file_type, now).0;
    names::read_gives_dir_bytes(st, b, ib, sb);
    assert(dirent::lookup_from(names::dir_bytes(st, sb.map, ib.size as int), 0, name) is None) by {
        reveal(dirmodel::lookup_in_dir);
    }
    let (jb, tb) = names::add_entry_then_lookup(
        st,
        b,
        ib,
        sb,
        name,
        entry,
        file_type,
        name,
        now,
    );
    contents::lemma_same_roles(st, z, b, tb);
    assert(renames::safe(st, b, sb, a)) by {
        if model::inode_block(st, a) is Some {
            let h = model::inode_block(st, a)->Some_0;
            assert(contents::at(st, a, sa, Role::Home) == Some(h));
            assert(contents::kept(st, h));
            assert forall|q: Role| q != Role::Home implies #[trigger] contents::at(st, b, sb, q)
                != Some(h) by {
                if contents::at(st, b, sb, q) == Some(h) {
                    assert(!shared(Role::Home, q));
                }
            }
        }
    }
    renames::lemma_add_beside(st, b, ib, sb, name, entry, file_type, now, a);
    assert forall|r: Role|
        (r is Data || r is Leaf || r is Home) && (#[trigger] contents::at(st, a, sa, r)) is Some
            && model::has_block(st, contents::at(st, a, sa, r)->Some_0) && !(r is Home
            && contents::at(st, a, sa, r) == model::inode_block(st, b)) implies contents::block(
        z,
        contents::at(st, a, sa, r)->Some_0,
    ) == contents::block(st, contents::at(st, a, sa, r)->Some_0) && contents::kept(
        z,
        contents::at(st, a, sa, r)->Some_0,
    ) by {
        let x = contents::at(st, a, sa, r)->Some_0;
        lemma_elsewhere(st, a, sa, b, sb, r);
        new_dirs::lemma_add_elsewhere(st, b, ib, sb, name, entry, file_type, now, x);
    }
    assert forall|r: Role| (#[trigger] contents::at(st, a, sa, r)) matches Some(x) implies
        contents::kept(z, contents::at(st, a, sa, r)->Some_0) by {
        if contents::at(st, a, sa, r) is Some {
            let x = contents::at(st, a, sa, r)->Some_0;
            if !(r is Bitmap) {
                lemma_role_present(st, a, ia, sa, r);
            }
            if r is Bitmap {
                assert(contents::at(z, b, tb, r) == contents::at(st, a, sa, r)) by {
                    assert(contents::at(z, b, tb, r) == contents::at(st, b, tb, r));
                }
            } else if r is Home && Some(x) == model::inode_block(st, b) {
                assert(contents::at(z, b, tb, Role::Home) == Some(x));
            }
        }
    }
    lemma_kept_in_order(st, z, a, ia, sa);
}

/// Leaves that could be read are on the device.
proof fn lemma_leaves_present(
    st: FsState,
    area: Seq<u8>,
    i: int,
    n: int,
    acc: Seq<EfsExtent>,
    k: int,
)
    requires
        0 <= i <= k < n,
        model::read_leaves(st, area, i, n, acc) is Ok,
    ensures
        model::has_block(st, layout::dec_extent(area, 12 + 12 * k).phys()),
    decreases n - i,
{
    match model::read_leaf(st, layout::dec_extent(area, 12 + 12 * i).phys()) {
        Ok(es) => {
            if i < k {
                lemma_leaves_present(st, area, i + 1, n, acc + es, k);
            }
        },
        Err(_) => {},
    }
}

/// What a directory in order uses, other than bitmaps, is on the device.
proof fn lemma_role_present(st: FsState, a: u64, i: InodeView, s: Storage, r: Role)
    requires
        names::dir_in_order(st, a, i, s),
        contents::at(st, a, s, r) is Some,
        !(r is Bitmap),
    ensures
        model::has_block(st, contents::at(st, a, s, r)->Some_0),
{
    match r {
        Role::Home => {
            reveal(model::read_inode);
        },
        Role::Leaf(b) => {
            reveal(model::load_map);
            let k = choose|k: int| 0 <= k < s.leaves.len() && s.leaves[k] == b;
            lemma_leaves_present(
                st,
                i.data_area,
                0,
                model::inline_entries(i.data_area),
                Seq::empty(),
                k,
            );
        },
        _ => {},
    }
}

/// What plays a role for one directory is someone else's to the other.
proof fn lemma_elsewhere(st: FsState, a: u64, sa: Storage, b: u64, sb: Storage, r: Role)
    requires
        contents::separate(st, a, sa),
        strangers(st, a, sa, b, sb),
        !(r is Bitmap),
        contents::at(st, a, sa, r) is Some,
        model::has_block(st, contents::at(st, a, sa, r)->Some_0),
        !(r is Home && contents::at(st, a, sa, r) == model::inode_block(st, b)),
    ensures
        new_dirs::elsewhere(st, b, sb, contents::at(st, a, sa, r)->Some_0),
{
    let x = contents::at(st, a, sa, r)->Some_0;
    assert(contents::kept(st, x));
    assert forall|q: Role| q != Role::Home implies #[trigger] contents::at(st, b, sb, q)
        != Some(x) by {
        if contents::at(st, b, sb, q) == Some(x) {
            assert(!shared(r, q));
        }
    }
    if model::inode_block(st, b) == Some(x) {
        assert(contents::at(st, b, sb, Role::Home) == Some(x));
        assert(!shared(r, Role::Home));
    }
}

/// A file that moves from one directory to another is found there under its new name, and its
/// old name leads nowhere; every other name of the two directories leads where it did.
#[verifier::spinoff_prover]
#[verifier::rlimit(40)]
pub proof fn moved_is_found(
    st: FsState,
    a: u64,
    ia: InodeView,
    sa: Storage,
    b: u64,
    ib: InodeView,
    sb: Storage,
    ino: u64,
    f: InodeView,
    old_name: Seq<u8>,
    new_name: Seq<u8>,
    other: Seq<u8>,
    now: u64,
)
    requires
        names::dir_in_order(st, a, ia, sa),
        names::dir_in_order(st, b, ib, sb),
        strangers(st, a, sa, b, sb),
        names::well_named(names::dir_bytes(st, sa.map, ia.size as int)),
        names::well_named(names::dir_bytes(st, sb.map, ib.size as int)),
        ib.size + 8192 <= contents::LIMIT,
        ib.size + 12288 <= usize::MAX,
        dirmodel::lookup_in_dir(st, b, new_name) == Ok::<Option<(u64, u8)>, Error>(None),
        f.kind() != S_IFDIR,
        ino != 0,
        new_name.len() <= 255,
        dirmodel::rename(st, a, b, ino, f, old_name, new_name, now).1 is Ok,
    ensures
        ({
            let z = dirmodel::rename(st, a, b, ino, f, old_name, new_name, now).0;
            &&& model::mounted(z)
            &&& dirmodel::lookup_in_dir(z, b, new_name) == Ok::<Option<(u64, u8)>, Error>(
                Some((ino, layout::dir_entry_type(f.mode))),
            )
            &&& dirmodel::lookup_in_dir(z, a, old_name) == Ok::<Option<(u64, u8)>, Error>(None)
            &&& other != old_name ==> dirmodel::lookup_in_dir(z, a, other)
                == dirmodel::lookup_in_dir(st, a, other)
            &&& other != new_name ==> dirmodel::lookup_in_dir(z, b, other)
                == dirmodel::lookup_in_dir(st, b, other)
        }),
{
    reveal(dirmodel::rename);
    let st1 = dirmodel::remove_dir_entry(st, a, old_name, now).0;
    let ja = names::remove_entry_then_lookup(st, a, ia, sa, old_name, other, now);
    lemma_remove_beside(st, a, ia, sa, old_name, now, b, sb);
    renames::lemma_passed_by(st, st1, b, ib, sb);
    renames::lemma_same_names(st, st1, b, ib, sb, ib, sb, new_name);
    renames::lemma_same_names(st, st1, b, ib, sb, ib, sb, other);
    lemma_still_strangers(st, st1, a, sa, b, sb);
    let ft = layout::dir_entry_type(f.mode);
    let z = dirmodel::add_dir_entry(st1, b, new_name, ino, ft, now).0;
    names::add_entry_then_lookup(st1, b, ib, sb, new_name, ino, ft, other, now);
    lemma_enter_beside(st1, a, ja, sa, b, ib, sb, new_name, ino, ft, now);
    renames::lemma_same_names(st1, z, a, ja, sa, ja, sa, old_name);
    renames::lemma_same_names(st1, z, a, ja, sa, ja, sa, other);
}

/// Removing an entry of one directory leaves the other alone.
pub(crate) proof fn lemma_remove_beside(
    st: FsState,
    a: u64,
    ia: InodeView,
    sa: Storage,
    name: Seq<u8>,
    now: u64,
    b: u64,
    sb: Storage,
)
    requires
        names::dir_in_order(st, a, ia, sa),
        strangers(st, a, sa, b, sb),
        dirmodel::remove_dir_entry(st, a, name, now).1 is Ok,
    ensures
        renames::passes_by(st, dirmodel::remove_dir_entry(st, a, name, now).0, b, sb),
{
    let d = names::dir_bytes(st, sa.map, ia.size as int);
    names::read_gives_dir_bytes(st, a, ia, sa);
    reveal(dirmodel::remove_dir_entry);
    let (off, prev) = dirent::find_from(d, 0, 0, name)->Some_0;
    let e = dirent::removed(d, off, prev);
    assert(e.len() == d.len());
    lemma_update_beside(st, a, ia, sa, e, now, b, sb);
}

} // verus!
