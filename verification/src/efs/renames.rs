//! Taking names away and giving new ones: a name that was taken away is gone, a file that
//! was renamed is found under its new name alone, and other names stay what they were.
use vstd::prelude::*;
use crate::block_device;
use crate::error::Error;
use super::bitmap;
use super::contents;
use super::contents::{Role, Storage};
use super::dirent;
use super::dirmodel;
use super::extents;
use super::layout;
use super::layout::{InodeView, SuperblockView, INODE_DATA_AREA_SIZE, S_IFLNK};
use super::model;
use super::model::FsState;
use super::names;
use super::orphans;

verus! {

/// The block that says whether inode `ino` is in use.
pub open spec fn inode_bitmap(st: FsState, ino: u64) -> int {
    st.bgds[(ino - 1) / st.sb.inodes_per_group as int].inode_bitmap_block as int
}

/// Whether block `b` belongs neither to directory `dir`, stored as `s` says, nor to the
/// bitmaps of blocks.
pub open spec fn outside(st: FsState, dir: u64, s: Storage, b: int) -> bool {
    forall|r: Role| r != Role::Home ==> #[trigger] contents::at(st, dir, s, r) != Some(b)
}

/// Whether file `ino` is another file than directory `dir`: its inode, the bitmap of inodes
/// and the superblock are no part of the directory.
pub open spec fn bystander(st: FsState, dir: u64, s: Storage, ino: u64) -> bool {
    &&& orphans::apart(st, ino, dir)
    &&& model::inode_block(st, ino) matches Some(b) ==> outside(st, dir, s, b)
    &&& outside(st, dir, s, 1)
    &&& outside(st, dir, s, inode_bitmap(st, ino))
    &&& model::inode_block(st, dir) != Some(1int)
    &&& model::inode_block(st, dir) != Some(inode_bitmap(st, ino))
}

/// What leaves a directory alone: its inode reads the same, and so does every block that is
/// its own.
pub(crate) open spec fn passes_by(a: FsState, z: FsState, dir: u64, s: Storage) -> bool {
    &&& contents::same_shape(a, z)
    &&& model::read_inode(z, dir) == model::read_inode(a, dir)
    &&& forall|r: Role|
        r != Role::Home && (#[trigger] contents::at(a, dir, s, r)) is Some && model::has_block(
            a,
            contents::at(a, dir, s, r)->Some_0,
        ) ==> contents::block(z, contents::at(a, dir, s, r)->Some_0) == contents::block(
            a,
            contents::at(a, dir, s, r)->Some_0,
        )
}

#[verifier::spinoff_prover]
#[verifier::rlimit(40)]
pub(crate) proof fn lemma_passed_by(a: FsState, z: FsState, dir: u64, i: InodeView, s: Storage)
    requires
        names::dir_in_order(a, dir, i, s),
        passes_by(a, z, dir, s),
    ensures
        names::dir_in_order(z, dir, i, s),
        names::dir_bytes(z, s.map, i.size as int) == names::dir_bytes(a, s.map, i.size as int),
{
    contents::lemma_same_roles(a, z, dir, s);
    assert forall|g: int|
        0 <= g < a.bgds.len() && model::has_block(
            a,
            contents::bitmap_of(a, g),
        ) implies contents::block(z, #[trigger] contents::bitmap_of(a, g)) == contents::block(
        a,
        contents::bitmap_of(a, g),
    ) by {
        assert(contents::at(a, dir, s, Role::Bitmap(g)) == Some(contents::bitmap_of(a, g)));
    }
    contents::lemma_kept_same(a, z);
    contents::lemma_separate_same(a, z, dir, s);
    assert forall|b: u64| #[trigger]
        model::tree_blocks(i).contains(b) && model::has_block(a, b as int) implies contents::block(
        z,
        b as int,
    ) == contents::block(a, b as int) by {
        assert(contents::at(a, dir, s, Role::Leaf(b)) == Some(b as int));
    }
    contents::lemma_load_same(a, z, i);
    let x = names::dir_bytes(z, s.map, i.size as int);
    let y = names::dir_bytes(a, s.map, i.size as int);
    assert forall|pos: int| 0 <= pos < x.len() implies x[pos] == y[pos] by {
        let o = model::logical_block(pos);
        match extents::map_lookup(s.map, o) {
            Some(p) => {
                assert(contents::at(a, dir, s, Role::Data(o)) == Some(p as int));
                assert(model::has_block(a, p as int));
            },
            None => {},
        }
    }
    assert(x =~= y);
}

/// Names lead where they led when what the directory holds is the same.
pub(crate) proof fn lemma_same_names(
    a: FsState,
    z: FsState,
    dir: u64,
    i: InodeView,
    s: Storage,
    j: InodeView,
    t: Storage,
    name: Seq<u8>,
)
    requires
        names::dir_in_order(a, dir, i, s),
        names::dir_in_order(z, dir, j, t),
        names::dir_bytes(z, t.map, j.size as int) == names::dir_bytes(a, s.map, i.size as int),
    ensures
        dirmodel::lookup_in_dir(z, dir, name) == dirmodel::lookup_in_dir(a, dir, name),
{
    names::read_gives_dir_bytes(a, dir, i, s);
    names::read_gives_dir_bytes(z, dir, j, t);
    reveal(dirmodel::lookup_in_dir);
}

/// Putting another file on the chain of unnamed files leaves the directory alone.
#[verifier::spinoff_prover]
#[verifier::rlimit(40)]
pub(crate) proof fn lemma_chained(st: FsState, dir: u64, s: Storage, ino: u64)
    requires
        model::mounted(st),
        bystander(st, dir, s, ino),
        dirmodel::orphan_add(st, ino).1 is Ok,
    ensures
        passes_by(st, dirmodel::orphan_add(st, ino).0, dir, s),
{
    reveal(dirmodel::orphan_add);
    let head = st.sb.last_orphan;
    let st0 = FsState {
        sb: SuperblockView { last_orphan: (ino % 0x1_0000_0000) as u32, ..st.sb },
        ..st
    };
    let z = dirmodel::orphan_add(st, ino).0;
    orphans::lemma_read_kept(st0, st, dir);
    let i = model::read_inode(st0, ino)->Ok_0;
    orphans::lemma_area(st0, ino);
    let j = layout::stamped(InodeView { orphan_next: head, link_count: 0, ..i });
    orphans::lemma_inode_set(st0, ino, j);
    let b = contents::lemma_inode_page(st0, ino, j);
    let st1 = model::write_inode(st0, ino, j).0;
    let st2 = dirmodel::write_superblock(st1).0;
    assert(model::read_inode(st1, dir) == model::read_inode(st0, dir));
    reveal(dirmodel::write_superblock);
    assert(z.pages.len() == st1.pages.len());
    assert forall|k: int| 0 <= k < z.pages.len() implies (#[trigger] z.pages[k]).len()
        == block_device::PAGE_SIZE by {
        assert(st1.pages[k].len() == block_device::PAGE_SIZE);
    }
    orphans::lemma_read_kept(z, st1, dir);
    assert forall|r: Role|
        r != Role::Home && (#[trigger] contents::at(st, dir, s, r)) is Some && model::has_block(
            st,
            contents::at(st, dir, s, r)->Some_0,
        ) implies contents::block(z, contents::at(st, dir, s, r)->Some_0) == contents::block(
        st,
        contents::at(st, dir, s, r)->Some_0,
    ) by {
        let x = contents::at(st, dir, s, r)->Some_0;
        assert(x != b && x != 1);
        assert(st1.pages[st.base + x] == st0.pages[st.base + x]);
    }
}

/// Freeing the inode of another file leaves the directory alone.
#[verifier::spinoff_prover]
#[verifier::rlimit(40)]
pub(crate) proof fn lemma_given_back(st: FsState, dir: u64, s: Storage, ino: u64)
    requires
        model::mounted(st),
        bystander(st, dir, s, ino),
        model::free_inode(st, ino).1 is Ok,
    ensures
        passes_by(st, model::free_inode(st, ino).0, dir, s),
{
    reveal(model::free_inode);
    let z = model::free_inode(st, ino).0;
    let m = inode_bitmap(st, ino);
    contents::lemma_split(ino - 1, st.sb.inodes_per_group as int);
    assert(st.pages[st.base + m].len() == 4096);
    assert forall|k: int| 0 <= k < z.pages.len() implies (#[trigger] z.pages[k]).len()
        == block_device::PAGE_SIZE by {
        assert(st.pages[k].len() == block_device::PAGE_SIZE);
    }
    assert(contents::same_shape(st, z));
    contents::lemma_same_roles(st, z, dir, s);
    assert(model::read_inode(z, dir) == model::read_inode(st, dir)) by {
        reveal(model::read_inode);
    }
    assert forall|r: Role|
        r != Role::Home && (#[trigger] contents::at(st, dir, s, r)) is Some && model::has_block(
            st,
            contents::at(st, dir, s, r)->Some_0,
        ) implies contents::block(z, contents::at(st, dir, s, r)->Some_0) == contents::block(
        st,
        contents::at(st, dir, s, r)->Some_0,
    ) by {
        let x = contents::at(st, dir, s, r)->Some_0;
        assert(x != m);
    }
}

pub(crate) proof fn lemma_still_bystander(a: FsState, z: FsState, dir: u64, s: Storage, ino: u64)
    requires
        model::mounted(a),
        bystander(a, dir, s, ino),
        contents::same_shape(a, z),
        z.bgds == a.bgds,
    ensures
        bystander(z, dir, s, ino),
{
    contents::lemma_same_roles(a, z, dir, s);
    contents::lemma_same_roles(a, z, ino, s);
}

/// Taking an inode for another file leaves the directory alone.
#[verifier::spinoff_prover]
#[verifier::rlimit(40)]
pub(crate) proof fn lemma_taken(st: FsState, dir: u64, s: Storage, g: int)
    requires
        model::mounted(st),
        0 <= g,
        model::alloc_inode_from(st, g).1 is Ok,
        bystander(st, dir, s, model::alloc_inode_from(st, g).1->Ok_0),
    ensures
        ({
            let (z, ino) = model::alloc_inode_from(st, g);
            &&& passes_by(st, z, dir, s)
            &&& model::mounted(z)
            &&& bystander(z, dir, s, ino->Ok_0)
            &&& ino->Ok_0 != 0
        }),
    decreases st.bgds.len() - g,
{
    let bits = model::usable_bits(st.sb.inodes_per_group);
    let m = st.bgds[g].inode_bitmap_block as int;
    let map = contents::block(st, m);
    if st.bgds[g].free_inodes_count == 0 || bitmap::first_free(map, 0, bits) is None {
        lemma_taken(st, dir, s, g + 1);
    } else {
        let z = model::alloc_inode_from(st, g).0;
        let ino = model::alloc_inode_from(st, g).1->Ok_0;
        let bit = bitmap::first_free(map, 0, bits)->Some_0;
        bitmap::first_free_is_free(map, 0, bits);
        let n = st.sb.inodes_per_group as int;
        assert(0 <= g * n && g * n + bit + 1 <= u64::MAX) by (nonlinear_arith)
            requires
                0 <= g < 0xFFFF_FFFF,
                0 < n <= 0xFFFF_FFFF,
                0 <= bit < 32768,
        ;
        contents::lemma_join(g, bit, n);
        assert(inode_bitmap(st, ino) == m);
        assert(st.pages[st.base + m].len() == 4096);
        assert forall|k: int| 0 <= k < z.pages.len() implies (#[trigger] z.pages[k]).len()
            == block_device::PAGE_SIZE by {
            assert(st.pages[k].len() == block_device::PAGE_SIZE);
        }
        assert(contents::same_shape(st, z));
        contents::lemma_same_roles(st, z, dir, s);
        contents::lemma_same_roles(st, z, ino, s);
        assert(model::read_inode(z, dir) == model::read_inode(st, dir)) by {
            reveal(model::read_inode);
        }
        assert forall|r: Role|
            r != Role::Home && (#[trigger] contents::at(st, dir, s, r)) is Some
                && model::has_block(st, contents::at(st, dir, s, r)->Some_0) implies contents::block(
            z,
            contents::at(st, dir, s, r)->Some_0,
        ) == contents::block(st, contents::at(st, dir, s, r)->Some_0) by {
            let x = contents::at(st, dir, s, r)->Some_0;
            assert(x != m);
        }
        assert(inode_bitmap(z, ino) == m);
    }
}

/// Writing the inode of another file leaves the directory alone.
#[verifier::spinoff_prover]
#[verifier::rlimit(40)]
pub(crate) proof fn lemma_other_inode(st: FsState, dir: u64, s: Storage, ino: u64, f: InodeView)
    requires
        model::mounted(st),
        safe(st, dir, s, ino),
        f.data_area.len() == INODE_DATA_AREA_SIZE,
        model::write_inode(st, ino, f).1 is Ok,
    ensures
        passes_by(st, model::write_inode(st, ino, f).0, dir, s),
        model::mounted(model::write_inode(st, ino, f).0),
{
    orphans::lemma_inode_set(st, ino, f);
    let b = contents::lemma_inode_page(st, ino, f);
    let z = model::write_inode(st, ino, f).0;
    assert forall|r: Role|
        r != Role::Home && (#[trigger] contents::at(st, dir, s, r)) is Some && model::has_block(
            st,
            contents::at(st, dir, s, r)->Some_0,
        ) implies contents::block(z, contents::at(st, dir, s, r)->Some_0) == contents::block(
        st,
        contents::at(st, dir, s, r)->Some_0,
    ) by {
        assert(contents::at(st, dir, s, r)->Some_0 != b);
    }
}

/// Whether inode `o` is safe from what happens to directory `dir`: it lies apart from it, in
/// a block that no one is given.
pub open spec fn safe(st: FsState, dir: u64, s: Storage, o: u64) -> bool {
    &&& orphans::apart(st, dir, o)
    &&& model::inode_block(st, o) matches Some(b) ==> contents::kept(st, b) && outside(
        st,
        dir,
        s,
        b,
    )
}

/// An inode reads the same where its block is the same.
pub(crate) proof fn lemma_same_inode(a: FsState, z: FsState, o: u64)
    requires
        model::mounted(a),
        contents::same_shape(a, z),
        model::inode_block(a, o) matches Some(b) ==> model::has_block(a, b) ==> contents::block(
            z,
            b,
        ) == contents::block(a, b),
    ensures
        model::read_inode(z, o) == model::read_inode(a, o),
{
    contents::lemma_same_roles(a, z, o, Storage { map: Seq::empty(), leaves: Seq::empty() });
    reveal(model::read_inode);
}

/// Writing the inode of the directory leaves an inode apart from it alone.
pub(crate) proof fn lemma_beside_inode(a: FsState, m: FsState, dir: u64, o: u64, j: InodeView)
    requires
        model::mounted(a),
        contents::same_shape(a, m),
        orphans::apart(a, dir, o),
        model::read_inode(m, o) == model::read_inode(a, o),
        j.data_area.len() == INODE_DATA_AREA_SIZE,
        model::write_inode(m, dir, j).1 is Ok,
    ensures
        model::read_inode(model::write_inode(m, dir, j).0, o) == model::read_inode(a, o),
{
    let none = Storage { map: Seq::empty(), leaves: Seq::empty() };
    contents::lemma_same_roles(a, m, dir, none);
    contents::lemma_same_roles(a, m, o, none);
    orphans::lemma_inode_set(m, dir, j);
}

/// Mapping another block of the directory leaves an inode apart from it alone.
#[verifier::spinoff_prover]
#[verifier::rlimit(40)]
proof fn lemma_ensure_beside(st: FsState, dir: u64, i: InodeView, s: Storage, lb: u32, o: u64)
    requires
        contents::in_order(st, dir, i, s),
        !i.inline(),
        extents::map_lookup(s.map, lb) is None,
        safe(st, dir, s, o),
        model::ensure_block(st, dir, lb, false).1 is Ok,
        model::has_block(st, model::ensure_block(st, dir, lb, false).1->Ok_0 as int),
    ensures
        model::read_inode(model::ensure_block(st, dir, lb, false).0, o) == model::read_inode(
            st,
            o,
        ),
        model::inode_block(st, o) != Some(model::ensure_block(st, dir, lb, false).1->Ok_0 as int),
{
    reveal(model::ensure_block);
    let goal = extents::map_goal(s.map, lb);
    contents::lemma_alloc(st, goal);
    let (st1, bs) = model::alloc_blocks(st, 1, goal);
    let p = bs->Ok_0[0];
    contents::lemma_fresh(st, st1, dir, s, p as int);
    contents::lemma_add_data(st1, dir, s, lb, p);
    let m = extents::map_insert(s.map, lb, p);
    contents::lemma_store(st1, dir, i, m);
    let (st3, rj) = model::store_map(st1, i, m);
    let k = layout::stamped(rj->Ok_0);
    names::lemma_shapes(st, st1, st3);
    if model::inode_block(st, o) is Some {
        let b = model::inode_block(st, o)->Some_0;
        if model::has_block(st, b) {
            lemma_no_bitmap(st, dir, s, b);
            contents::lemma_same_bitmap(st, st1, b);
            assert(contents::block(st1, b) == contents::block(st, b));
            assert(contents::kept(st1, b));
            let leaves = model::tree_blocks(rj->Ok_0);
            assert(!(0 <= b <= u64::MAX && leaves.contains(b as u64))) by {
                if 0 <= b <= u64::MAX && leaves.contains(b as u64) {
                    assert(s.leaves.contains(b as u64));
                    assert(contents::at(st, dir, s, Role::Leaf(b as u64)) == Some(b));
                }
            }
            assert(contents::block(st3, b) == contents::block(st1, b));
        }
    }
    lemma_same_inode(st, st3, o);
    lemma_beside_inode(st, st3, dir, o, k);
}

pub(crate) proof fn lemma_no_bitmap(st: FsState, dir: u64, s: Storage, b: int)
    requires
        outside(st, dir, s, b),
    ensures
        !contents::is_bitmap(st, b),
        names::spared(s.map, b),
{
    if contents::is_bitmap(st, b) {
        let g = choose|g: int|
            0 <= g < st.bgds.len() && #[trigger] contents::bitmap_of(st, g) == b;
        assert(contents::at(st, dir, s, Role::Bitmap(g)) == Some(b));
    }
    assert forall|lb: u32| (#[trigger] extents::map_lookup(s.map, lb)) matches Some(p) implies
        extents::map_lookup(s.map, lb)->Some_0 != b by {
        assert(contents::at(st, dir, s, Role::Data(lb)) != Some(b));
    }
}

/// Adding an entry to the directory leaves an inode apart from it alone.
#[verifier::spinoff_prover]
#[verifier::rlimit(40)]
pub(crate) proof fn lemma_add_beside(
    st: FsState,
    dir: u64,
    i: InodeView,
    s: Storage,
    name: Seq<u8>,
    entry: u64,
    file_type: u8,
    now: u64,
    o: u64,
)
    requires
        names::dir_in_order(st, dir, i, s),
        i.size + 8192 <= contents::LIMIT,
        i.size + 12288 <= usize::MAX,
        dirent::tiled(names::dir_bytes(st, s.map, i.size as int), 0),
        dirent::lookup_from(names::dir_bytes(st, s.map, i.size as int), 0, name) is None,
        entry != 0,
        name.len() <= 255,
        safe(st, dir, s, o),
        dirmodel::add_dir_entry(st, dir, name, entry, file_type, now).1 is Ok,
    ensures
        model::read_inode(dirmodel::add_dir_entry(st, dir, name, entry, file_type, now).0, o)
            == model::read_inode(st, o),
{
    let size = i.size as int;
    let d = names::dir_bytes(st, s.map, size);
    names::read_gives_dir_bytes(st, dir, i, s);
    contents::lemma_inode_len(st, dir, i);
    let needed = dirent::min_size(name.len() as int);
    if model::inode_block(st, o) is Some {
        lemma_no_bitmap(st, dir, s, model::inode_block(st, o)->Some_0);
    }
    reveal(dirmodel::add_dir_entry);
    if dirent::slot_from(d, 0, needed) is Some {
        let off = dirent::slot_from(d, 0, needed)->Some_0;
        dirent::insert_then_lookup(d, entry, file_type, name, name);
        let e = dirent::place(d, off, entry, file_type, name)->Some_0;
        reveal(dirmodel::write_dir_data);
        reveal(dirmodel::touch);
        names::lemma_put_blocks(st, dir, i, s, e, 0);
        let st1 = dirmodel::put_dir_blocks(st, dir, e, 0).0;
        lemma_same_inode(st, st1, o);
        lemma_beside_inode(
            st,
            st1,
            dir,
            o,
            layout::stamped(InodeView { mtime_sec: now, ..i }),
        );
    } else {
        reveal(dirmodel::append_dir_block);
        contents::lemma_logical(size);
        let lb = model::logical_block(size);
        let page = dirent::entry_block(entry, file_type, name);
        let (st2, rp) = model::ensure_block(st, dir, lb, false);
        let p = rp->Ok_0;
        contents::lemma_size_ensure(st, dir, lb, false);
        assert(extents::map_lookup(s.map, lb) is None);
        let (j1, t) = contents::lemma_ensure(st, dir, i, s, lb, false);
        lemma_ensure_beside(st, dir, i, s, lb, o);
        assert(page.len() == 4096);
        names::lemma_put_block(st2, dir, j1, t, lb, p, page);
        let st3 = model::write_block(st2, p as int, page).0;
        contents::lemma_same_roles(st, st2, o, s);
        lemma_same_inode(st2, st3, o);
        names::lemma_shapes(st, st2, st3);
        contents::lemma_inode_len(st2, dir, j1);
        lemma_beside_inode(
            st,
            st3,
            dir,
            o,
            layout::stamped(InodeView { size: (size + 4096) as u64, mtime_sec: now, ..j1 }),
        );
    }
}

/// A file that is created is found under its name, with the number of an inode taken for it
/// that reads as it was made; every other name of the directory leads where it did.
#[verifier::spinoff_prover]
#[verifier::rlimit(40)]
pub proof fn created_is_found(
    st: FsState,
    dir: u64,
    i: InodeView,
    s: Storage,
    name: Seq<u8>,
    f: InodeView,
    file_type: u8,
    other: Seq<u8>,
    now: u64,
) -> (r: (InodeView, Storage))
    requires
        names::dir_in_order(st, dir, i, s),
        i.size + 8192 <= contents::LIMIT,
        i.size + 12288 <= usize::MAX,
        names::well_named(names::dir_bytes(st, s.map, i.size as int)),
        dirmodel::lookup_in_dir(st, dir, name) == Ok::<Option<(u64, u8)>, Error>(None),
        bystander(st, dir, s, model::alloc_inode(st).1->Ok_0),
        safe(st, dir, s, model::alloc_inode(st).1->Ok_0),
        f.data_area.len() == INODE_DATA_AREA_SIZE,
        name.len() <= 255,
        dirmodel::create_entry(st, dir, name, f, file_type, now).1 is Ok,
    ensures
        ({
            let z = dirmodel::create_entry(st, dir, name, f, file_type, now).0;
            &&& names::dir_in_order(z, dir, r.0, r.1)
            &&& names::well_named(names::dir_bytes(z, r.1.map, r.0.size as int))
            &&& dirmodel::lookup_in_dir(z, dir, name) == Ok::<Option<(u64, u8)>, Error>(
                Some((model::alloc_inode(st).1->Ok_0, file_type)),
            )
            &&& model::read_inode(z, model::alloc_inode(st).1->Ok_0) == Ok::<InodeView, Error>(f)
            &&& other != name ==> dirmodel::lookup_in_dir(z, dir, other)
                == dirmodel::lookup_in_dir(st, dir, other)
        }),
{
    reveal(dirmodel::create_entry);
    reveal(model::alloc_inode);
    let (st1, n) = model::alloc_inode(st);
    let ino = n->Ok_0;
    let st2 = model::write_inode(st1, ino, f).0;
    lemma_taken(st, dir, s, 0);
    lemma_still_safe(st, st1, dir, s, ino);
    lemma_other_inode(st1, dir, s, ino, f);
    lemma_passed_by(st, st1, dir, i, s);
    lemma_passed_by(st1, st2, dir, i, s);
    lemma_same_names(st, st2, dir, i, s, i, s, name);
    lemma_same_names(st, st2, dir, i, s, i, s, other);
    orphans::lemma_inode_set(st1, ino, f);
    lemma_still_safe(st1, st2, dir, s, ino);
    names::read_gives_dir_bytes(st2, dir, i, s);
    assert(dirent::lookup_from(names::dir_bytes(st2, s.map, i.size as int), 0, name) is None) by {
        reveal(dirmodel::lookup_in_dir);
    }
    lemma_add_beside(st2, dir, i, s, name, ino, file_type, now, ino);
    names::add_entry_then_lookup(st2, dir, i, s, name, ino, file_type, other, now)
}

/// What passes a directory by leaves safe what was.
pub(crate) proof fn lemma_still_safe(a: FsState, z: FsState, dir: u64, s: Storage, o: u64)
    requires
        model::mounted(a),
        safe(a, dir, s, o),
        passes_by(a, z, dir, s),
    ensures
        safe(z, dir, s, o),
{
    contents::lemma_same_roles(a, z, dir, s);
    contents::lemma_same_roles(a, z, o, s);
    assert forall|g: int|
        0 <= g < a.bgds.len() && model::has_block(
            a,
            contents::bitmap_of(a, g),
        ) implies contents::block(z, #[trigger] contents::bitmap_of(a, g)) == contents::block(
        a,
        contents::bitmap_of(a, g),
    ) by {
        assert(contents::at(a, dir, s, Role::Bitmap(g)) == Some(contents::bitmap_of(a, g)));
    }
    contents::lemma_kept_same(a, z);
}

/// A name that is taken from a file leads nowhere, and every other name of the directory
/// leads where it did.
#[verifier::spinoff_prover]
#[verifier::rlimit(40)]
pub proof fn unnamed_is_gone(
    st: FsState,
    dir: u64,
    i: InodeView,
    s: Storage,
    ino: u64,
    v: InodeView,
    name: Seq<u8>,
    other: Seq<u8>,
    now: u64,
) -> (j: InodeView)
    requires
        names::dir_in_order(st, dir, i, s),
        names::well_named(names::dir_bytes(st, s.map, i.size as int)),
        bystander(st, dir, s, ino),
        v.kind() == S_IFLNK ==> v.inline(),
        dirmodel::remove_file(st, dir, ino, v, name, now).1 is Ok,
    ensures
        ({
            let z = dirmodel::remove_file(st, dir, ino, v, name, now).0;
            &&& names::dir_in_order(z, dir, j, s)
            &&& names::well_named(names::dir_bytes(z, s.map, j.size as int))
            &&& j.size == i.size
            &&& dirmodel::lookup_in_dir(z, dir, name) == Ok::<Option<(u64, u8)>, Error>(None)
            &&& other != name ==> dirmodel::lookup_in_dir(z, dir, other)
                == dirmodel::lookup_in_dir(st, dir, other)
        }),
{
    reveal(dirmodel::remove_file);
    let st1 = dirmodel::remove_dir_entry(st, dir, name, now).0;
    let j = names::remove_entry_then_lookup(st, dir, i, s, name, other, now);
    lemma_still_bystander(st, st1, dir, s, ino);
    let z = dirmodel::remove_file(st, dir, ino, v, name, now).0;
    if v.kind() == S_IFLNK {
        assert(z == model::free_inode(st1, ino).0 && model::free_inode(st1, ino).1 is Ok) by {
            reveal(dirmodel::free_file_storage);
        }
        lemma_given_back(st1, dir, s, ino);
    } else {
        lemma_chained(st1, dir, s, ino);
    }
    lemma_passed_by(st1, z, dir, j, s);
    lemma_same_names(st1, z, dir, j, s, j, s, name);
    lemma_same_names(st1, z, dir, j, s, j, s, other);
    j
}

/// Whether name `name` is free in directory `dir`, or stands for a file that a rename to it
/// may replace.
pub open spec fn replaceable(
    st: FsState,
    dir: u64,
    s: Storage,
    moved: u64,
    name: Seq<u8>,
) -> bool {
    dirmodel::lookup_in_dir(st, dir, name) matches Ok(Some((victim, _))) ==> victim != moved
        && bystander(st, dir, s, victim) && (model::read_inode(st, victim) matches Ok(v)
        ==> v.kind() == S_IFLNK ==> v.inline())
}

/// A file that is renamed within its directory is found under the new name, whatever was
/// there before; the old name leads nowhere, and every other name leads where it did.
#[verifier::spinoff_prover]
#[verifier::rlimit(40)]
pub proof fn renamed_is_found(
    st: FsState,
    dir: u64,
    i: InodeView,
    s: Storage,
    ino: u64,
    f: InodeView,
    old_name: Seq<u8>,
    new_name: Seq<u8>,
    other: Seq<u8>,
    now: u64,
) -> (r: (InodeView, Storage))
    requires
        names::dir_in_order(st, dir, i, s),
        i.size + 8192 <= contents::LIMIT,
        i.size + 12288 <= usize::MAX,
        names::well_named(names::dir_bytes(st, s.map, i.size as int)),
        replaceable(st, dir, s, ino, new_name),
        old_name != new_name,
        ino != 0,
        new_name.len() <= 255,
        dirmodel::rename(st, dir, dir, ino, f, old_name, new_name, now).1 is Ok,
    ensures
        ({
            let z = dirmodel::rename(st, dir, dir, ino, f, old_name, new_name, now).0;
            &&& names::dir_in_order(z, dir, r.0, r.1)
            &&& names::well_named(names::dir_bytes(z, r.1.map, r.0.size as int))
            &&& dirmodel::lookup_in_dir(z, dir, new_name) == Ok::<Option<(u64, u8)>, Error>(
                Some((ino, layout::dir_entry_type(f.mode))),
            )
            &&& dirmodel::lookup_in_dir(z, dir, old_name) == Ok::<Option<(u64, u8)>, Error>(None)
            &&& other != old_name && other != new_name ==> dirmodel::lookup_in_dir(z, dir, other)
                == dirmodel::lookup_in_dir(st, dir, other)
        }),
{
    reveal(dirmodel::rename);
    let st1 = dirmodel::replace_target(st, dir, ino, new_name, now).0;
    let i1 = lemma_way_cleared(st, dir, i, s, ino, new_name, other, now);
    let st2 = dirmodel::remove_dir_entry(st1, dir, old_name, now).0;
    let i2 = names::remove_entry_then_lookup(st1, dir, i1, s, old_name, new_name, now);
    names::remove_entry_then_lookup(st1, dir, i1, s, old_name, other, now);
    let ft = layout::dir_entry_type(f.mode);
    names::add_entry_then_lookup(st2, dir, i2, s, new_name, ino, ft, old_name, now);
    names::add_entry_then_lookup(st2, dir, i2, s, new_name, ino, ft, other, now)
}

/// Once the way is cleared for a rename, the new name leads nowhere.
#[verifier::spinoff_prover]
#[verifier::rlimit(40)]
pub(crate) proof fn lemma_way_cleared(
    st: FsState,
    dir: u64,
    i: InodeView,
    s: Storage,
    moved: u64,
    name: Seq<u8>,
    other: Seq<u8>,
    now: u64,
) -> (j: InodeView)
    requires
        names::dir_in_order(st, dir, i, s),
        names::well_named(names::dir_bytes(st, s.map, i.size as int)),
        replaceable(st, dir, s, moved, name),
        dirmodel::replace_target(st, dir, moved, name, now).1 is Ok,
    ensures
        ({
            let z = dirmodel::replace_target(st, dir, moved, name, now).0;
            &&& names::dir_in_order(z, dir, j, s)
            &&& names::well_named(names::dir_bytes(z, s.map, j.size as int))
            &&& j.size == i.size
            &&& dirmodel::lookup_in_dir(z, dir, name) == Ok::<Option<(u64, u8)>, Error>(None)
            &&& other != name ==> dirmodel::lookup_in_dir(z, dir, other)
                == dirmodel::lookup_in_dir(st, dir, other)
        }),
{
    match dirmodel::lookup_in_dir(st, dir, name) {
        Ok(Some((victim, _))) => {
            let v = model::read_inode(st, victim)->Ok_0;
            unnamed_is_gone(st, dir, i, s, victim, v, name, other, now)
        },
        _ => i,
    }
}

} // verus!
