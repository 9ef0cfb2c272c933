//! Directories that are made: they are found under their names, and find themselves and the
//! directory they are in.
use vstd::prelude::*;
use crate::block_device;
use crate::error::Error;
use super::contents;
use super::contents::{Role, Storage};
use super::dirent;
use super::dirmodel;
use super::extents;
use super::layout;
use super::layout::{EfsExtent, InodeView, FT_DIR, INODE_DATA_AREA_SIZE};
use super::model;
use super::model::FsState;
use super::names;
use super::orphans;
use super::renames;

verus! {

// ---- Blocks that are someone else's -----------------------------------------------------------

/// Whether block `b` is in use, and not by directory `dir`.
pub(crate) open spec fn elsewhere(st: FsState, dir: u64, s: Storage, b: int) -> bool {
    &&& model::has_block(st, b)
    &&& contents::kept(st, b)
    &&& renames::outside(st, dir, s, b)
    &&& model::inode_block(st, dir) != Some(b)
}

/// Mapping another block of the directory leaves such a block alone.
#[verifier::spinoff_prover]
#[verifier::rlimit(40)]
proof fn lemma_ensure_elsewhere(st: FsState, dir: u64, i: InodeView, s: Storage, lb: u32, b: int)
    requires
        contents::in_order(st, dir, i, s),
        !i.inline(),
        extents::map_lookup(s.map, lb) is None,
        elsewhere(st, dir, s, b),
        model::ensure_block(st, dir, lb, false).1 is Ok,
        model::has_block(st, model::ensure_block(st, dir, lb, false).1->Ok_0 as int),
    ensures
        ({
            let (z, p) = model::ensure_block(st, dir, lb, false);
            &&& contents::block(z, b) == contents::block(st, b)
            &&& contents::kept(z, b)
            &&& p->Ok_0 != b
        }),
{
    reveal(model::ensure_block);
    let goal = extents::map_goal(s.map, lb);
    contents::lemma_alloc(st, goal);
    let (st1, bs) = model::alloc_blocks(st, 1, goal);
    let p = bs->Ok_0[0];
    contents::lemma_fresh(st, st1, dir, s, p as int);
    contents::lemma_add_data(st1, dir, s, lb, p);
    let m = extents::map_insert(s.map, lb, p);
    contents::lemma_store(st1, dir, i, m);
    let (st3, rj) = model::store_map(st1, i, m);
    let k = layout::stamped(rj->Ok_0);
    let t = Storage { map: m, leaves: model::tree_blocks(rj->Ok_0) };
    renames::lemma_no_bitmap(st, dir, s, b);
    contents::lemma_same_bitmap(st, st1, b);
    assert(contents::block(st1, b) == contents::block(st, b));
    assert(contents::kept(st1, b));
    assert(!(0 <= b <= u64::MAX && t.leaves.contains(b as u64))) by {
        if 0 <= b <= u64::MAX && t.leaves.contains(b as u64) {
            assert(s.leaves.contains(b as u64));
            assert(contents::at(st, dir, s, Role::Leaf(b as u64)) == Some(b));
        }
    }
    assert(contents::not_in(s.leaves, b)) by {
        assert forall|n: int| 0 <= n < s.leaves.len() implies #[trigger] s.leaves[n] != b by {
            assert(s.leaves.contains(s.leaves[n]));
            assert(contents::at(st, dir, s, Role::Leaf(s.leaves[n])) == Some(s.leaves[n] as int));
        }
    }
    assert(contents::block(st3, b) == contents::block(st1, b));
    names::lemma_shapes(st, st1, st3);
    contents::lemma_same_roles(st, st3, dir, s);
    lemma_home(st3, dir, t, k);
}

/// Writing the inode of a directory changes no other block, and keeps what is in use in use.
#[verifier::spinoff_prover]
#[verifier::rlimit(40)]
proof fn lemma_home(st: FsState, dir: u64, s: Storage, j: InodeView)
    requires
        model::mounted(st),
        contents::separate(st, dir, s),
        j.data_area.len() == INODE_DATA_AREA_SIZE,
        model::write_inode(st, dir, j).1 is Ok,
    ensures
        ({
            let z = model::write_inode(st, dir, j).0;
            &&& contents::same_shape(st, z)
            &&& model::mounted(z)
            &&& forall|c: int| #[trigger] contents::kept(st, c) ==> contents::kept(z, c)
            &&& forall|x: int|
                model::has_block(st, x) && model::inode_block(st, dir) != Some(x)
                    ==> #[trigger] contents::block(z, x) == contents::block(st, x)
        }),
{
    let z = model::write_inode(st, dir, j).0;
    contents::lemma_put_inode(st, dir, s, j);
    let b = contents::lemma_inode_page(st, dir, j);
    assert(contents::at(st, dir, s, Role::Home) == Some(b));
    assert forall|g: int|
        0 <= g < st.bgds.len() && model::has_block(
            st,
            contents::bitmap_of(st, g),
        ) implies contents::block(z, #[trigger] contents::bitmap_of(st, g)) == contents::block(
        st,
        contents::bitmap_of(st, g),
    ) by {
        assert(contents::at(st, dir, s, Role::Bitmap(g)) == Some(contents::bitmap_of(st, g)));
    }
    contents::lemma_kept_same(st, z);
}

/// Writing blocks of the directory's data keeps what is in use in use.
#[verifier::spinoff_prover]
#[verifier::rlimit(40)]
proof fn lemma_data_keeps(a: FsState, z: FsState, dir: u64, s: Storage)
    requires
        model::mounted(a),
        contents::separate(a, dir, s),
        contents::same_shape(a, z),
        forall|x: int|
            model::has_block(a, x) && names::spared(s.map, x) ==> #[trigger] contents::block(z, x)
                == contents::block(a, x),
    ensures
        forall|c: int| #[trigger] contents::kept(a, c) ==> contents::kept(z, c),
{
    assert forall|g: int|
        0 <= g < a.bgds.len() && model::has_block(
            a,
            contents::bitmap_of(a, g),
        ) implies contents::block(z, #[trigger] contents::bitmap_of(a, g)) == contents::block(
        a,
        contents::bitmap_of(a, g),
    ) by {
        let x = contents::bitmap_of(a, g);
        assert(contents::at(a, dir, s, Role::Bitmap(g)) == Some(x));
        assert(names::spared(s.map, x)) by {
            assert forall|lb: u32| (#[trigger] extents::map_lookup(s.map, lb)) matches Some(
                p,
            ) implies extents::map_lookup(s.map, lb)->Some_0 != x by {
                if extents::map_lookup(s.map, lb) is Some {
                    assert(contents::at(a, dir, s, Role::Data(lb)) is Some);
                }
            }
        }
    }
    contents::lemma_kept_same(a, z);
}

/// Adding an entry to the directory leaves a block that is someone else's alone.
#[verifier::spinoff_prover]
#[verifier::rlimit(40)]
pub(crate) proof fn lemma_add_elsewhere(
    st: FsState,
    dir: u64,
    i: InodeView,
    s: Storage,
    name: Seq<u8>,
    entry: u64,
    file_type: u8,
    now: u64,
    b: int,
)
    requires
        names::dir_in_order(st, dir, i, s),
        i.size + 8192 <= contents::LIMIT,
        i.size + 12288 <= usize::MAX,
        dirent::tiled(names::dir_bytes(st, s.map, i.size as int), 0),
        dirent::lookup_from(names::dir_bytes(st, s.map, i.size as int), 0, name) is None,
        entry != 0,
        name.len() <= 255,
        elsewhere(st, dir, s, b),
        dirmodel::add_dir_entry(st, dir, name, entry, file_type, now).1 is Ok,
    ensures
        ({
            let z = dirmodel::add_dir_entry(st, dir, name, entry, file_type, now).0;
            &&& contents::same_shape(st, z)
            &&& contents::block(z, b) == contents::block(st, b)
            &&& contents::kept(z, b)
        }),
{
    let size = i.size as int;
    let d = names::dir_bytes(st, s.map, size);
    names::read_gives_dir_bytes(st, dir, i, s);
    contents::lemma_inode_len(st, dir, i);
    let needed = dirent::min_size(name.len() as int);
    renames::lemma_no_bitmap(st, dir, s, b);
    reveal(dirmodel::add_dir_entry);
    if dirent::slot_from(d, 0, needed) is Some {
        let off = dirent::slot_from(d, 0, needed)->Some_0;
        dirent::insert_then_lookup(d, entry, file_type, name, name);
        let e = dirent::place(d, off, entry, file_type, name)->Some_0;
        reveal(dirmodel::write_dir_data);
        reveal(dirmodel::touch);
        names::lemma_put_blocks(st, dir, i, s, e, 0);
        let st1 = dirmodel::put_dir_blocks(st, dir, e, 0).0;
        lemma_data_keeps(st, st1, dir, s);
        contents::lemma_same_roles(st, st1, dir, s);
        let j = layout::stamped(InodeView { mtime_sec: now, ..i });
        lemma_home(st1, dir, s, j);
        names::lemma_shapes(st, st1, model::write_inode(st1, dir, j).0);
        assert(contents::kept(st1, b));
    } else {
        reveal(dirmodel::append_dir_block);
        contents::lemma_logical(size);
        let lb = model::logical_block(size);
        let page = dirent::entry_block(entry, file_type, name);
        let (st2, rp) = model::ensure_block(st, dir, lb, false);
        let p = rp->Ok_0;
        contents::lemma_size_ensure(st, dir, lb, false);
        assert(extents::map_lookup(s.map, lb) is None);
        let (j1, t) = contents::lemma_ensure(st, dir, i, s, lb, false);
        lemma_ensure_elsewhere(st, dir, i, s, lb, b);
        assert(page.len() == 4096);
        names::lemma_put_block(st2, dir, j1, t, lb, p, page);
        let st3 = model::write_block(st2, p as int, page).0;
        assert forall|x: int| model::has_block(st2, x) && names::spared(t.map, x) implies
            #[trigger] contents::block(st3, x) == contents::block(st2, x) by {
            assert(extents::map_lookup(t.map, lb) == Some(p));
        }
        lemma_data_keeps(st2, st3, dir, t);
        contents::lemma_same_roles(st, st2, dir, s);
        contents::lemma_same_roles(st2, st3, dir, t);
        contents::lemma_inode_len(st2, dir, j1);
        let j = layout::stamped(InodeView { size: (size + 4096) as u64, mtime_sec: now, ..j1 });
        lemma_home(st3, dir, t, j);
        names::lemma_shapes(st, st2, st3);
        names::lemma_shapes(st, st3, model::write_inode(st3, dir, j).0);
        assert(contents::kept(st2, b));
        assert(contents::kept(st3, b));
    }
}

// ---- Steps of making a directory --------------------------------------------------------------

/// Taking a block leaves the directory alone, and the block is nobody's yet.
#[verifier::spinoff_prover]
#[verifier::rlimit(40)]
proof fn lemma_took(
    a: FsState,
    z: FsState,
    dir: u64,
    i: InodeView,
    s: Storage,
    p: u64,
    o: u64,
)
    requires
        names::dir_in_order(a, dir, i, s),
        renames::safe(a, dir, s, o),
        contents::took(a, z, p as int),
    ensures
        names::dir_in_order(z, dir, i, s),
        names::dir_bytes(z, s.map, i.size as int) == names::dir_bytes(a, s.map, i.size as int),
        renames::safe(z, dir, s, o),
        forall|r: Role| #[trigger] contents::at(z, dir, s, r) != Some(p as int),
        model::inode_block(z, o) != Some(p as int),
{
    contents::lemma_fresh(a, z, dir, s, p as int);
    contents::lemma_same_roles(a, z, dir, s);
    contents::lemma_same_roles(a, z, o, s);
    if model::inode_block(a, dir) is Some {
        let h = model::inode_block(a, dir)->Some_0;
        assert(contents::at(a, dir, s, Role::Home) == Some(h));
        lemma_role_no_bitmap(a, dir, s, Role::Home);
    }
    renames::lemma_same_inode(a, z, dir);
    assert forall|b: u64| #[trigger]
        model::tree_blocks(i).contains(b) && model::has_block(a, b as int) implies contents::block(
        z,
        b as int,
    ) == contents::block(a, b as int) by {
        assert(contents::at(a, dir, s, Role::Leaf(b)) == Some(b as int));
        lemma_role_no_bitmap(a, dir, s, Role::Leaf(b));
    }
    contents::lemma_load_same(a, z, i);
    let x = names::dir_bytes(z, s.map, i.size as int);
    let y = names::dir_bytes(a, s.map, i.size as int);
    assert forall|pos: int| 0 <= pos < x.len() implies x[pos] == y[pos] by {
        let lb = model::logical_block(pos);
        match extents::map_lookup(s.map, lb) {
            Some(q) => {
                assert(contents::at(a, dir, s, Role::Data(lb)) == Some(q as int));
                lemma_role_no_bitmap(a, dir, s, Role::Data(lb));
                assert(model::has_block(a, q as int));
            },
            None => {},
        }
    }
    assert(x =~= y);
}

/// What plays another role is no bitmap.
pub(crate) proof fn lemma_role_no_bitmap(st: FsState, dir: u64, s: Storage, r: Role)
    requires
        contents::separate(st, dir, s),
        contents::at(st, dir, s, r) is Some,
        !(r is Bitmap),
    ensures
        !contents::is_bitmap(st, contents::at(st, dir, s, r)->Some_0),
{
    let b = contents::at(st, dir, s, r)->Some_0;
    if contents::is_bitmap(st, b) {
        let g = choose|g: int|
            0 <= g < st.bgds.len() && #[trigger] contents::bitmap_of(st, g) == b;
        assert(contents::at(st, dir, s, Role::Bitmap(g)) == Some(b));
    }
}

/// Filling a block that is nobody's leaves the directory alone.
#[verifier::spinoff_prover]
#[verifier::rlimit(40)]
proof fn lemma_filled(st: FsState, dir: u64, s: Storage, p: u64, data: Seq<u8>)
    requires
        model::mounted(st),
        data.len() == 4096,
        forall|r: Role| #[trigger] contents::at(st, dir, s, r) != Some(p as int),
        model::write_block(st, p as int, data).1 is Ok,
    ensures
        ({
            let z = model::write_block(st, p as int, data).0;
            &&& renames::passes_by(st, z, dir, s)
            &&& model::mounted(z)
            &&& contents::block(z, p as int) == data
        }),
{
    let z = model::write_block(st, p as int, data).0;
    assert forall|k: int| 0 <= k < z.pages.len() implies (#[trigger] z.pages[k]).len()
        == block_device::PAGE_SIZE by {
        assert(st.pages[k].len() == block_device::PAGE_SIZE);
    }
    assert(contents::at(st, dir, s, Role::Home) != Some(p as int));
    renames::lemma_same_inode(st, z, dir);
}

/// Counting a link of the directory leaves what it holds, and what is someone else's, alone.
#[verifier::spinoff_prover]
#[verifier::rlimit(40)]
pub(crate) proof fn lemma_link_counted(
    st: FsState,
    dir: u64,
    i: InodeView,
    s: Storage,
    up: bool,
) -> (j: InodeView)
    requires
        names::dir_in_order(st, dir, i, s),
        dirmodel::adjust_links(st, dir, up).1 is Ok,
    ensures
        ({
            let z = dirmodel::adjust_links(st, dir, up).0;
            &&& names::dir_in_order(z, dir, j, s)
            &&& j.size == i.size
            &&& up && i.link_count < u16::MAX ==> j.link_count == i.link_count + 1
            &&& !up && i.link_count > 0 ==> j.link_count == i.link_count - 1
            &&& names::dir_bytes(z, s.map, i.size as int) == names::dir_bytes(
                st,
                s.map,
                i.size as int,
            )
            &&& contents::same_shape(st, z)
            &&& forall|o: u64|
                orphans::apart(st, dir, o) ==> #[trigger] model::read_inode(z, o)
                    == model::read_inode(st, o)
            &&& forall|c: int| #[trigger] contents::kept(st, c) ==> contents::kept(z, c)
            &&& forall|x: int|
                model::has_block(st, x) && model::inode_block(st, dir) != Some(x)
                    ==> #[trigger] contents::block(z, x) == contents::block(st, x)
        }),
{
    reveal(dirmodel::adjust_links);
    let j = layout::stamped(
        InodeView {
            link_count: (if up {
                if i.link_count == u16::MAX {
                    0
                } else {
                    i.link_count + 1
                }
            } else if i.link_count > 0 {
                i.link_count - 1
            } else {
                0
            }) as u16,
            ..i
        },
    );
    contents::lemma_inode_len(st, dir, i);
    names::lemma_redir(st, dir, i, s, j, i.size as int / 4096);
    lemma_home(st, dir, s, j);
    orphans::lemma_inode_set(st, dir, j);
    j
}

/// Counting a directory in its group leaves everything alone.
pub(crate) proof fn lemma_counted(st: FsState, dir: u64, s: Storage, ino: u64, up: bool)
    requires
        model::mounted(st),
    ensures
        renames::passes_by(st, dirmodel::count_dir(st, ino, up), dir, s),
        model::mounted(dirmodel::count_dir(st, ino, up)),
        dirmodel::count_dir(st, ino, up).pages == st.pages,
        model::read_inode(dirmodel::count_dir(st, ino, up), ino) == model::read_inode(st, ino),
{
    let z = dirmodel::count_dir(st, ino, up);
    assert(contents::same_shape(st, z));
    renames::lemma_same_inode(st, z, dir);
    renames::lemma_same_inode(st, z, ino);
}

/// Whether file `ino` is a directory in order that holds what a new one in `dir` does.
pub open spec fn newly_made(st: FsState, ino: u64, p: u64, dir: u64, now: u64) -> bool {
    let t = Storage { map: seq![EfsExtent::make(0, 1, p)], leaves: Seq::empty() };
    &&& names::dir_in_order(st, ino, dirmodel::new_dir_inode(p, now), t)
    &&& names::dir_bytes(st, t.map, 4096) == dirent::new_dir_block(ino, dir)
    &&& names::well_named(names::dir_bytes(st, t.map, 4096))
}

/// The new directory is in order.
#[verifier::spinoff_prover]
#[verifier::rlimit(40)]
proof fn lemma_new_in_order(
    st: FsState,
    dir: u64,
    i: InodeView,
    s: Storage,
    ino: u64,
    p: u64,
    now: u64,
)
    requires
        contents::in_order(st, dir, i, s),
        model::read_inode(st, ino) == Ok::<InodeView, Error>(dirmodel::new_dir_inode(p, now)),
        model::has_block(st, p as int),
        contents::kept(st, p as int),
        !contents::is_bitmap(st, p as int),
        model::inode_block(st, ino) != Some(p as int),
        model::inode_block(st, ino) matches Some(b) ==> contents::kept(st, b)
            && !contents::is_bitmap(st, b),
        contents::block(st, p as int) == dirent::new_dir_block(ino, dir),
        dirent::new_dir_block(ino, dir).len() == 4096,
        names::well_named(dirent::new_dir_block(ino, dir)),
    ensures
        newly_made(st, ino, p, dir, now),
{
    let f = dirmodel::new_dir_inode(p, now);
    let map = seq![EfsExtent::make(0, 1, p)];
    let t = Storage { map, leaves: Seq::empty() };
    contents::lemma_load_small(st, f, map);
    contents::lemma_make(0, 1, p);
    assert(extents::valid_map(map));
    assert(!f.inline() && f.kind() == layout::S_IFDIR) by {
        assert(0x41EDu16 & 0xF000u16 == 0x4000u16) by (bit_vector);
        assert(0u32 & 1u32 == 0u32) by (bit_vector);
    }
    extents::lookup_inside(map, 0, 0);
    assert forall|lb: u32| lb >= 1 implies (#[trigger] extents::map_lookup(map, lb)) is None by {
        extents::lookup_between(map, lb, 1);
    }
    assert(names::dense(st, map, 1)) by {
        assert forall|lb: u32|
            match #[trigger] extents::map_lookup(map, lb) {
                Some(q) => lb < 1 && model::has_block(st, q as int),
                None => lb >= 1,
            } by {
            if lb == 0 {
                assert(extents::map_lookup(map, 0) == Some(p));
            }
        }
    }
    contents::lemma_apart(st, dir, s);
    assert forall|r: Role| (#[trigger] contents::at(st, ino, t, r)) matches Some(x) implies
        contents::kept(st, contents::at(st, ino, t, r)->Some_0) && (r is Bitmap
        || !contents::is_bitmap(st, contents::at(st, ino, t, r)->Some_0)) by {
        match r {
            Role::Bitmap(g) => {
                if 0 <= g < st.bgds.len() {
                    assert(contents::at(st, dir, s, Role::Bitmap(g)) == Some(
                        contents::bitmap_of(st, g),
                    ));
                }
            },
            Role::Data(lb) => {
                if lb >= 1 {
                    assert(extents::map_lookup(map, lb) is None);
                }
            },
            _ => {},
        }
    }
    assert forall|r: Role, q: Role|
        #![trigger contents::at(st, ino, t, r), contents::at(st, ino, t, q)]
        r != q && contents::at(st, ino, t, r) is Some && contents::at(st, ino, t, q) is Some implies
        contents::at(st, ino, t, r) != contents::at(st, ino, t, q) by {
        lemma_roles_differ(st, ino, p, r, q);
    }
    assert(contents::separate(st, ino, t));
    let x = names::dir_bytes(st, map, 4096);
    assert forall|pos: int| 0 <= pos < 4096 implies x[pos] == contents::block(st, p as int)[pos] by {
        contents::lemma_logical(pos);
        assert(model::logical_block(pos) == 0);
    }
    assert(x =~= dirent::new_dir_block(ino, dir));
}

/// The roles of a new directory are played by different blocks.
proof fn lemma_roles_differ(st: FsState, ino: u64, p: u64, r: Role, q: Role)
    requires
        ({
            let t = Storage { map: seq![EfsExtent::make(0, 1, p)], leaves: Seq::empty() };
            &&& extents::map_lookup(t.map, 0) == Some(p)
            &&& forall|lb: u32| lb >= 1 ==> (#[trigger] extents::map_lookup(t.map, lb)) is None
            &&& contents::bitmaps_apart(st)
            &&& !contents::is_bitmap(st, p as int)
            &&& model::inode_block(st, ino) != Some(p as int)
            &&& model::inode_block(st, ino) matches Some(b) ==> !contents::is_bitmap(st, b)
            &&& r != q
            &&& contents::at(st, ino, t, r) is Some
            &&& contents::at(st, ino, t, q) is Some
        }),
    ensures
        ({
            let t = Storage { map: seq![EfsExtent::make(0, 1, p)], leaves: Seq::empty() };
            contents::at(st, ino, t, r) != contents::at(st, ino, t, q)
        }),
{
    let t = Storage { map: seq![EfsExtent::make(0, 1, p)], leaves: Seq::empty() };
    assert(r matches Role::Data(lb) ==> lb == 0) by {
        if let Role::Data(lb) = r {
            assert(lb >= 1 ==> extents::map_lookup(t.map, lb) is None);
        }
    }
    assert(q matches Role::Data(lb) ==> lb == 0) by {
        if let Role::Data(lb) = q {
            assert(lb >= 1 ==> extents::map_lookup(t.map, lb) is None);
        }
    }
    assert(r matches Role::Bitmap(g) ==> contents::is_bitmap(
        st,
        contents::at(st, ino, t, r)->Some_0,
    ));
    assert(q matches Role::Bitmap(g) ==> contents::is_bitmap(
        st,
        contents::at(st, ino, t, q)->Some_0,
    ));
    match r {
        Role::Bitmap(g) => match q {
            Role::Bitmap(h) => {
                assert(contents::bitmap_of(st, g) != contents::bitmap_of(st, h));
            },
            _ => {},
        },
        _ => {},
    }
}

/// What passes a directory by keeps what is in use in use.
proof fn lemma_passing_keeps(a: FsState, z: FsState, dir: u64, s: Storage)
    requires
        model::mounted(a),
        renames::passes_by(a, z, dir, s),
    ensures
        forall|c: int| #[trigger] contents::kept(a, c) ==> contents::kept(z, c),
{
    assert forall|g: int|
        0 <= g < a.bgds.len() && model::has_block(
            a,
            contents::bitmap_of(a, g),
        ) implies contents::block(z, #[trigger] contents::bitmap_of(a, g)) == contents::block(
        a,
        contents::bitmap_of(a, g),
    ) by {
        assert(contents::at(a, dir, s, Role::Bitmap(g)) == Some(contents::bitmap_of(a, g)));
    }
    contents::lemma_kept_same(a, z);
}

/// What holds before the name of a new directory is entered: the directory it goes to is as
/// it was but for its inode, the new inode is written, and so is the new block.
spec fn ready_to_enter(
    st: FsState,
    z: FsState,
    dir: u64,
    i: InodeView,
    s: Storage,
    j: InodeView,
    ino: u64,
    p: u64,
    now: u64,
) -> bool {
    &&& names::dir_in_order(z, dir, j, s)
    &&& j.size == i.size
    &&& names::dir_bytes(z, s.map, i.size as int) == names::dir_bytes(st, s.map, i.size as int)
    &&& renames::safe(z, dir, s, ino)
    &&& model::read_inode(z, ino) == Ok::<InodeView, Error>(dirmodel::new_dir_inode(p, now))
    &&& elsewhere(z, dir, s, p as int)
    &&& model::inode_block(z, ino) != Some(p as int)
    &&& contents::block(z, p as int) == dirent::new_dir_block(ino, dir)
}

/// Writing the block and the inode of a new directory.
#[verifier::spinoff_prover]
#[verifier::rlimit(40)]
proof fn lemma_written(
    st: FsState,
    dir: u64,
    i: InodeView,
    s: Storage,
    ino: u64,
    p: u64,
    now: u64,
)
    requires
        names::dir_in_order(st, dir, i, s),
        renames::safe(st, dir, s, ino),
        contents::kept(st, p as int),
        forall|r: Role| #[trigger] contents::at(st, dir, s, r) != Some(p as int),
        model::inode_block(st, ino) != Some(p as int),
        dirent::new_dir_block(ino, dir).len() == 4096,
        model::write_block(st, p as int, dirent::new_dir_block(ino, dir)).1 is Ok,
        model::write_inode(
            model::write_block(st, p as int, dirent::new_dir_block(ino, dir)).0,
            ino,
            dirmodel::new_dir_inode(p, now),
        ).1 is Ok,
    ensures
        ready_to_enter(
            st,
            model::write_inode(
                model::write_block(st, p as int, dirent::new_dir_block(ino, dir)).0,
                ino,
                dirmodel::new_dir_inode(p, now),
            ).0,
            dir,
            i,
            s,
            i,
            ino,
            p,
            now,
        ),
{
    let f = dirmodel::new_dir_inode(p, now);
    let data = dirent::new_dir_block(ino, dir);
    let st3 = model::write_block(st, p as int, data).0;
    let st4 = model::write_inode(st3, ino, f).0;
    contents::lemma_load_small(st3, f, seq![EfsExtent::make(0, 1, p)]);
    lemma_filled(st, dir, s, p, data);
    renames::lemma_passed_by(st, st3, dir, i, s);
    renames::lemma_still_safe(st, st3, dir, s, ino);
    lemma_passing_keeps(st, st3, dir, s);
    renames::lemma_other_inode(st3, dir, s, ino, f);
    renames::lemma_passed_by(st3, st4, dir, i, s);
    renames::lemma_still_safe(st3, st4, dir, s, ino);
    lemma_passing_keeps(st3, st4, dir, s);
    contents::lemma_same_roles(st, st3, dir, s);
    contents::lemma_same_roles(st, st3, ino, s);
    contents::lemma_same_roles(st3, st4, dir, s);
    contents::lemma_same_roles(st3, st4, ino, s);
    let b = contents::lemma_inode_page(st3, ino, f);
    assert(contents::kept(st3, p as int));
    assert(contents::kept(st4, p as int));
    assert(contents::at(st, dir, s, Role::Home) != Some(p as int));
    assert(renames::outside(st4, dir, s, p as int)) by {
        assert forall|r: Role| r != Role::Home implies #[trigger] contents::at(st4, dir, s, r)
            != Some(p as int) by {
            assert(contents::at(st4, dir, s, r) == contents::at(st3, dir, s, r));
            assert(contents::at(st3, dir, s, r) == contents::at(st, dir, s, r));
        }
    }
}

/// Counting the new directory, in the directory it goes to and in its group.
#[verifier::spinoff_prover]
#[verifier::rlimit(40)]
proof fn lemma_all_counted(
    st: FsState,
    st4: FsState,
    dir: u64,
    i: InodeView,
    s: Storage,
    ino: u64,
    p: u64,
    now: u64,
) -> (j: InodeView)
    requires
        ready_to_enter(st, st4, dir, i, s, i, ino, p, now),
        dirmodel::adjust_links(st4, dir, true).1 is Ok,
    ensures
        ready_to_enter(
            st,
            dirmodel::count_dir(dirmodel::adjust_links(st4, dir, true).0, ino, true),
            dir,
            i,
            s,
            j,
            ino,
            p,
            now,
        ),
{
    let j = lemma_link_counted(st4, dir, i, s, true);
    let st5 = dirmodel::adjust_links(st4, dir, true).0;
    let st6 = dirmodel::count_dir(st5, ino, true);
    contents::lemma_same_roles(st4, st5, dir, s);
    contents::lemma_same_roles(st4, st5, ino, s);
    lemma_counted(st5, dir, s, ino, true);
    renames::lemma_passed_by(st5, st6, dir, j, s);
    renames::lemma_still_safe(st5, st6, dir, s, ino);
    lemma_passing_keeps(st5, st6, dir, s);
    contents::lemma_same_roles(st5, st6, dir, s);
    contents::lemma_same_roles(st5, st6, ino, s);
    assert(contents::kept(st5, p as int));
    assert(contents::kept(st6, p as int));
    assert(contents::block(st5, p as int) == contents::block(st4, p as int));
    assert(renames::outside(st6, dir, s, p as int)) by {
        assert forall|r: Role| r != Role::Home implies #[trigger] contents::at(st6, dir, s, r)
            != Some(p as int) by {
            assert(contents::at(st6, dir, s, r) == contents::at(st5, dir, s, r));
            assert(contents::at(st5, dir, s, r) == contents::at(st4, dir, s, r));
        }
    }
    j
}

/// Entering the name of the new directory.
#[verifier::spinoff_prover]
#[verifier::rlimit(40)]
proof fn lemma_entered(
    st: FsState,
    dir: u64,
    j: InodeView,
    s: Storage,
    name: Seq<u8>,
    ino: u64,
    p: u64,
    now: u64,
    z: FsState,
    k: InodeView,
    t: Storage,
)
    requires
        ready_to_enter(st, st, dir, j, s, j, ino, p, now),
        j.size + 8192 <= contents::LIMIT,
        j.size + 12288 <= usize::MAX,
        dirent::tiled(names::dir_bytes(st, s.map, j.size as int), 0),
        dirent::lookup_from(names::dir_bytes(st, s.map, j.size as int), 0, name) is None,
        ino != 0,
        dir != 0,
        name.len() <= 255,
        dirent::new_dir_block(ino, dir).len() == 4096,
        dirmodel::add_dir_entry(st, dir, name, ino, FT_DIR, now).0 == z,
        dirmodel::add_dir_entry(st, dir, name, ino, FT_DIR, now).1 is Ok,
        contents::in_order(z, dir, k, t),
    ensures
        newly_made(z, ino, p, dir, now),
{
    renames::lemma_add_beside(st, dir, j, s, name, ino, FT_DIR, now, ino);
    lemma_add_elsewhere(st, dir, j, s, name, ino, FT_DIR, now, p as int);
    renames::lemma_no_bitmap(st, dir, s, p as int);
    contents::lemma_same_bitmap(st, z, p as int);
    contents::lemma_same_roles(st, z, ino, s);
    if model::inode_block(st, ino) is Some {
        let b = model::inode_block(st, ino)->Some_0;
        renames::lemma_no_bitmap(st, dir, s, b);
        contents::lemma_same_bitmap(st, z, b);
        lemma_home_block(st, dir, j, s, name, ino, now, b);
    }
    dirent::new_directory_lookup(ino, dir);
    lemma_new_in_order(z, dir, k, t, ino, p, now);
}

/// Entering a name keeps the block of an inode in use, be it that of the directory's own.
#[verifier::spinoff_prover]
#[verifier::rlimit(40)]
proof fn lemma_home_block(
    st: FsState,
    dir: u64,
    j: InodeView,
    s: Storage,
    name: Seq<u8>,
    ino: u64,
    now: u64,
    b: int,
)
    requires
        names::dir_in_order(st, dir, j, s),
        j.size + 8192 <= contents::LIMIT,
        j.size + 12288 <= usize::MAX,
        dirent::tiled(names::dir_bytes(st, s.map, j.size as int), 0),
        dirent::lookup_from(names::dir_bytes(st, s.map, j.size as int), 0, name) is None,
        ino != 0,
        name.len() <= 255,
        model::inode_block(st, ino) == Some(b),
        model::read_inode(st, ino) is Ok,
        renames::safe(st, dir, s, ino),
        dirmodel::add_dir_entry(st, dir, name, ino, FT_DIR, now).1 is Ok,
    ensures
        contents::kept(dirmodel::add_dir_entry(st, dir, name, ino, FT_DIR, now).0, b),
{
    assert(model::has_block(st, b)) by {
        reveal(model::read_inode);
    }
    if model::inode_block(st, dir) == Some(b) {
        let z = dirmodel::add_dir_entry(st, dir, name, ino, FT_DIR, now).0;
        assert(dirmodel::lookup_in_dir(st, dir, name) == Ok::<Option<(u64, u8)>, Error>(None)) by {
            names::read_gives_dir_bytes(st, dir, j, s);
            reveal(dirmodel::lookup_in_dir);
        }
        let (k, t) = names::add_entry_then_lookup(st, dir, j, s, name, ino, FT_DIR, name, now);
        contents::lemma_same_roles(st, z, dir, t);
        assert(contents::at(z, dir, t, Role::Home) == Some(b));
    } else {
        lemma_add_elsewhere(st, dir, j, s, name, ino, FT_DIR, now, b);
    }
}

/// A directory that is made is found under its name, with the number of an inode taken for
/// it. It is in order and finds itself under one full stop and the directory it is in under
/// two. Every other name of that directory leads where it did.
#[verifier::spinoff_prover]
#[verifier::rlimit(40)]
pub proof fn made_is_found(
    st: FsState,
    dir: u64,
    i: InodeView,
    s: Storage,
    name: Seq<u8>,
    other: Seq<u8>,
    now: u64,
) -> (r: (InodeView, Storage))
    requires
        names::dir_in_order(st, dir, i, s),
        i.size + 8192 <= contents::LIMIT,
        i.size + 12288 <= usize::MAX,
        names::well_named(names::dir_bytes(st, s.map, i.size as int)),
        dirmodel::lookup_in_dir(st, dir, name) == Ok::<Option<(u64, u8)>, Error>(None),
        renames::bystander(st, dir, s, model::alloc_inode(st).1->Ok_0),
        renames::safe(st, dir, s, model::alloc_inode(st).1->Ok_0),
        name.len() <= 255,
        dirmodel::create_dir(st, dir, name, now).1 is Ok,
    ensures
        ({
            let z = dirmodel::create_dir(st, dir, name, now).0;
            let ino = model::alloc_inode(st).1->Ok_0;
            let p = model::alloc_block(model::alloc_inode(st).0).1->Ok_0;
            &&& names::dir_in_order(z, dir, r.0, r.1)
            &&& names::well_named(names::dir_bytes(z, r.1.map, r.0.size as int))
            &&& dirmodel::lookup_in_dir(z, dir, name) == Ok::<Option<(u64, u8)>, Error>(
                Some((ino, FT_DIR)),
            )
            &&& newly_made(z, ino, p, dir, now)
            &&& dirmodel::lookup_in_dir(z, ino, seq![0x2Eu8]) == Ok::<Option<(u64, u8)>, Error>(
                Some((ino, FT_DIR)),
            )
            &&& dirmodel::lookup_in_dir(z, ino, seq![0x2Eu8, 0x2Eu8]) == Ok::<
                Option<(u64, u8)>,
                Error,
            >(Some((dir, FT_DIR)))
            &&& other != name ==> dirmodel::lookup_in_dir(z, dir, other)
                == dirmodel::lookup_in_dir(st, dir, other)
        }),
{
    let (st1, n) = model::alloc_inode(st);
    let ino = n->Ok_0;
    let (st2, rp) = model::alloc_block(st1);
    let p = rp->Ok_0;
    let data = dirent::new_dir_block(ino, dir);
    let st3 = model::write_block(st2, p as int, data).0;
    let st4 = model::write_inode(st3, ino, dirmodel::new_dir_inode(p, now)).0;
    let st5 = dirmodel::adjust_links(st4, dir, true).0;
    let st6 = dirmodel::count_dir(st5, ino, true);
    let z = dirmodel::create_dir(st, dir, name, now).0;
    assert(dirmodel::add_dir_entry(st6, dir, name, ino, FT_DIR, now) == dirmodel::create_dir(
        st,
        dir,
        name,
        now,
    )) by {
        reveal(dirmodel::create_dir);
    }
    lemma_made_so_far(st, dir, i, s, name, now);
    let j = choose|j: InodeView| #[trigger]
        ready_to_enter(st, st6, dir, i, s, j, ino, p, now);
    renames::lemma_same_names(st, st6, dir, i, s, j, s, name);
    renames::lemma_same_names(st, st6, dir, i, s, j, s, other);
    let r = names::add_entry_then_lookup(st6, dir, j, s, name, ino, FT_DIR, other, now);
    assert(dirent::lookup_from(names::dir_bytes(st6, s.map, j.size as int), 0, name) is None) by {
        names::read_gives_dir_bytes(st6, dir, j, s);
        reveal(dirmodel::lookup_in_dir);
    }
    assert(ready_to_enter(st6, st6, dir, j, s, j, ino, p, now));
    lemma_entered(st6, dir, j, s, name, ino, p, now, z, r.0, r.1);
    lemma_finds_itself(z, ino, p, dir, now);
    r
}

/// A directory just made finds itself and the directory it is in.
proof fn lemma_finds_itself(z: FsState, ino: u64, p: u64, dir: u64, now: u64)
    requires
        newly_made(z, ino, p, dir, now),
        ino != 0,
        dir != 0,
    ensures
        dirmodel::lookup_in_dir(z, ino, seq![0x2Eu8]) == Ok::<Option<(u64, u8)>, Error>(
            Some((ino, FT_DIR)),
        ),
        dirmodel::lookup_in_dir(z, ino, seq![0x2Eu8, 0x2Eu8]) == Ok::<Option<(u64, u8)>, Error>(
            Some((dir, FT_DIR)),
        ),
{
    let t = Storage { map: seq![EfsExtent::make(0, 1, p)], leaves: Seq::empty() };
    let f = dirmodel::new_dir_inode(p, now);
    dirent::new_directory_lookup(ino, dir);
    names::read_gives_dir_bytes(z, ino, f, t);
    reveal(dirmodel::lookup_in_dir);
}

/// The steps up to entering the name.
#[verifier::spinoff_prover]
#[verifier::rlimit(40)]
proof fn lemma_made_so_far(
    st: FsState,
    dir: u64,
    i: InodeView,
    s: Storage,
    name: Seq<u8>,
    now: u64,
)
    requires
        names::dir_in_order(st, dir, i, s),
        renames::bystander(st, dir, s, model::alloc_inode(st).1->Ok_0),
        renames::safe(st, dir, s, model::alloc_inode(st).1->Ok_0),
        dirmodel::create_dir(st, dir, name, now).1 is Ok,
    ensures
        ({
            let (st1, n) = model::alloc_inode(st);
            let (st2, p) = model::alloc_block(st1);
            let st3 = model::write_block(
                st2,
                p->Ok_0 as int,
                dirent::new_dir_block(n->Ok_0, dir),
            ).0;
            let st4 = model::write_inode(
                st3,
                n->Ok_0,
                dirmodel::new_dir_inode(p->Ok_0, now),
            ).0;
            let st5 = dirmodel::adjust_links(st4, dir, true).0;
            &&& exists|j: InodeView| #[trigger]
                ready_to_enter(
                    st,
                    dirmodel::count_dir(st5, n->Ok_0, true),
                    dir,
                    i,
                    s,
                    j,
                    n->Ok_0,
                    p->Ok_0,
                    now,
                )
            &&& n->Ok_0 != 0
            &&& dir != 0
            &&& dirent::new_dir_block(n->Ok_0, dir).len() == 4096
        }),
{
    reveal(dirmodel::create_dir);
    let (st1, n) = model::alloc_inode(st);
    let ino = n->Ok_0;
    let (st2, rp) = model::alloc_block(st1);
    let p = rp->Ok_0;
    let data = dirent::new_dir_block(ino, dir);
    assert(data.len() == 4096) by {
        reveal(dirent::new_dir_block);
    }
    assert(dir != 0) by {
        reveal(model::read_inode);
    }
    let st3 = model::write_block(st2, p as int, data).0;
    let st4 = model::write_inode(st3, ino, dirmodel::new_dir_inode(p, now)).0;
    let st5 = dirmodel::adjust_links(st4, dir, true).0;
    let st6 = dirmodel::count_dir(st5, ino, true);
    assert(model::alloc_inode_from(st, 0) == (st1, n)) by {
        reveal(model::alloc_inode);
    }
    renames::lemma_taken(st, dir, s, 0);
    renames::lemma_passed_by(st, st1, dir, i, s);
    renames::lemma_still_safe(st, st1, dir, s, ino);
    contents::lemma_alloc(st1, None);
    lemma_took(st1, st2, dir, i, s, p, ino);
    lemma_written(st2, dir, i, s, ino, p, now);
    assert(ready_to_enter(st, st4, dir, i, s, i, ino, p, now));
    let j = lemma_all_counted(st, st4, dir, i, s, ino, p, now);
    assert(ready_to_enter(st, st6, dir, i, s, j, ino, p, now));
}

} // verus!
