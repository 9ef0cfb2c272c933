//! Files that are renamed onto a name that another file has: the name then leads to the file that
//! was renamed, once, and the file that had it has no name left.
use vstd::prelude::*;
use crate::error::Error;
use super::bitmap;
use super::contents;
use super::contents::{Role, Storage};
use super::dirent;
use super::dirmodel;
use super::layout;
use super::layout::{InodeView, SuperblockView, S_IFDIR, S_IFLNK};
use super::model;
use super::model::FsState;
use super::moves;
use super::names;
use super::new_dirs;
use super::orphans;
use super::renames;

verus! {

// ---- The chain of unnamed files ---------------------------------------------------------------

proof fn lemma_chain_put(st: FsState, ino: u64, data: Seq<u8>, w: int)
    requires
        st.base >= 0,
    ensures
        contents::same_size(st, dirmodel::put_dir_blocks(st, ino, data, w).0),
    decreases data.len() + 4096 - w,
{
    if w < data.len() {
        contents::lemma_size_ensure(st, ino, model::logical_block(w), false);
        let (st1, r) = model::ensure_block(st, ino, model::logical_block(w), false);
        if r is Ok {
            let p = r->Ok_0;
            let d = crate::bytes::splice(
                crate::bytes::zeros(layout::BLOCK_SIZE as int),
                0,
                data.subrange(w, model::min(w + 4096, data.len() as int)),
            );
            let st2 = model::write_block(st1, p as int, d).0;
            lemma_chain_put(st2, ino, data, w + 4096);
        }
    }
}

proof fn lemma_chain_update(st: FsState, ino: u64, data: Seq<u8>, now: u64)
    requires
        st.base >= 0,
    ensures
        contents::same_size(st, dirmodel::update_dir(st, ino, data, now).0),
{
    reveal(dirmodel::write_dir_data);
    reveal(dirmodel::touch);
    reveal(model::write_inode);
    lemma_chain_put(st, ino, data, 0);
}

/// Taking an entry out of a directory, or putting one in, leaves the chain of unnamed files as
/// it is.
#[verifier::spinoff_prover]
#[verifier::rlimit(40)]
proof fn lemma_chain_remove(st: FsState, dir: u64, name: Seq<u8>, now: u64)
    requires
        st.base >= 0,
    ensures
        contents::same_size(st, dirmodel::remove_dir_entry(st, dir, name, now).0),
{
    reveal(dirmodel::remove_dir_entry);
    if let Ok(i) = model::read_inode(st, dir) {
        if let Ok(d) = dirmodel::read_dir_data(st, i) {
            if let Some((off, prev)) = dirent::find_from(d, 0, 0, name) {
                lemma_chain_update(st, dir, dirent::removed(d, off, prev), now);
            }
        }
    }
}

#[verifier::spinoff_prover]
#[verifier::rlimit(40)]
proof fn lemma_chain_add(
    st: FsState,
    dir: u64,
    i: InodeView,
    s: Storage,
    name: Seq<u8>,
    entry: u64,
    file_type: u8,
    now: u64,
)
    requires
        names::dir_in_order(st, dir, i, s),
    ensures
        contents::same_size(st, dirmodel::add_dir_entry(st, dir, name, entry, file_type, now).0),
{
    reveal(dirmodel::add_dir_entry);
    reveal(dirmodel::append_dir_block);
    if let Ok(d) = dirmodel::read_dir_data(st, i) {
        match dirent::slot_from(d, 0, dirent::min_size(name.len() as int)) {
            Some(off) => {
                if let Some(d1) = dirent::place(d, off, entry, file_type, name) {
                    lemma_chain_update(st, dir, d1, now);
                }
            },
            None => {
                let lb = model::logical_block(i.size as int);
                contents::lemma_size_ensure(st, dir, lb, false);
                reveal(model::write_inode);
            },
        }
    }
}

/// Whether a file is the first of the chain of unnamed files, with `head` after it.
pub open spec fn first_on_chain(st: FsState, ino: u64, head: u64) -> bool {
    st.orphans.contains_key(ino) && st.sb.last_orphan == ino && orphans::leads_to(st, ino, head)
}

proof fn lemma_chained_first(st: FsState, ino: u64)
    requires
        model::mounted(st),
        orphans::chainable(st, ino),
        st.sb.last_orphan != ino,
        dirmodel::orphan_add(st, ino).1 is Ok,
    ensures
        first_on_chain(dirmodel::orphan_add(st, ino).0, ino, st.sb.last_orphan as u64),
        dirmodel::orphan_add(st, ino).0.bgds == st.bgds,
{
    reveal(dirmodel::orphan_add);
    let head = st.sb.last_orphan;
    let st0 = FsState {
        sb: SuperblockView { last_orphan: (ino % 0x1_0000_0000) as u32, ..st.sb },
        ..st
    };
    orphans::lemma_read_kept(st0, st, ino);
    let i = model::read_inode(st0, ino)->Ok_0;
    orphans::lemma_area(st0, ino);
    let j = layout::stamped(InodeView { orphan_next: head, link_count: 0, ..i });
    orphans::lemma_inode_set(st0, ino, j);
    let st1 = model::write_inode(st0, ino, j).0;
    orphans::lemma_superblock_set(st1);
    let st2 = dirmodel::write_superblock(st1).0;
    let z = dirmodel::orphan_add(st, ino).0;
    orphans::lemma_read_kept(z, st2, ino);
    assert(model::read_inode(st2, ino) == model::read_inode(st1, ino));
}

// ---- A file that loses its name ---------------------------------------------------------------

/// How a file is seen that is nothing but its inode and the bitmap that counts it.
spec fn bare(st: FsState, ino: u64) -> Storage {
    Storage { map: Seq::empty(), leaves: seq![renames::inode_bitmap(st, ino) as u64] }
}

proof fn lemma_bare_strangers(st: FsState, dir: u64, i: InodeView, s: Storage, ino: u64)
    requires
        names::dir_in_order(st, dir, i, s),
        renames::bystander(st, dir, s, ino),
    ensures
        moves::strangers(st, dir, s, ino, bare(st, ino)),
{
    let t = bare(st, ino);
    let x = renames::inode_bitmap(st, ino);
    assert(t.leaves[0] == x as u64);
    assert forall|r: Role, q: Role|
        #![trigger contents::at(st, dir, s, r), contents::at(st, ino, t, q)]
        !moves::shared(r, q) && contents::at(st, dir, s, r) is Some && contents::at(
            st,
            ino,
            t,
            q,
        ) is Some implies contents::at(st, dir, s, r) != contents::at(st, ino, t, q) by {
        match q {
            Role::Bitmap(g) => {
                assert(contents::at(st, dir, s, q) == contents::at(st, ino, t, q));
                assert(r != q);
            },
            Role::Leaf(b) => {
                assert(b == x as u64);
                assert(0 <= x <= u64::MAX);
            },
            Role::Data(lb) => {
                assert(super::extents::map_lookup(t.map, lb) is None);
            },
            Role::Home => {},
        }
    }
}

/// Whether an unnamed file is where nothing that happens to directory `dir` touches it.
pub(crate) open spec fn aside(st: FsState, dir: u64, s: Storage, ino: u64) -> bool {
    &&& renames::bystander(st, dir, s, ino)
    &&& renames::safe(st, dir, s, ino)
    &&& model::has_block(st, renames::inode_bitmap(st, ino))
    &&& contents::kept(st, renames::inode_bitmap(st, ino))
}

/// What becomes of the unnamed file when an entry is taken out of a directory: nothing.
#[verifier::spinoff_prover]
#[verifier::rlimit(40)]
proof fn lemma_aside_removed(
    st: FsState,
    dir: u64,
    i: InodeView,
    s: Storage,
    name: Seq<u8>,
    now: u64,
    ino: u64,
)
    requires
        names::dir_in_order(st, dir, i, s),
        dirent::tiled(names::dir_bytes(st, s.map, i.size as int), 0),
        renames::bystander(st, dir, s, ino),
        model::has_block(st, renames::inode_bitmap(st, ino)),
        dirmodel::remove_dir_entry(st, dir, name, now).1 is Ok,
    ensures
        ({
            let z = dirmodel::remove_dir_entry(st, dir, name, now).0;
            let x = renames::inode_bitmap(st, ino);
            &&& contents::same_size(st, z)
            &&& contents::same_shape(st, z)
            &&& z.bgds == st.bgds
            &&& model::read_inode(z, ino) == model::read_inode(st, ino)
            &&& contents::block(z, x) == contents::block(st, x)
            &&& forall|c: int| #[trigger] contents::kept(st, c) ==> contents::kept(z, c)
        }),
{
    let z = dirmodel::remove_dir_entry(st, dir, name, now).0;
    let t = bare(st, ino);
    let x = renames::inode_bitmap(st, ino);
    lemma_chain_remove(st, dir, name, now);
    lemma_bare_strangers(st, dir, i, s, ino);
    moves::lemma_remove_beside(st, dir, i, s, name, now, ino, t);
    names::remove_entry_then_lookup(st, dir, i, s, name, name, now);
    assert(t.leaves[0] == x as u64);
    assert(contents::at(st, ino, t, Role::Leaf(x as u64)) == Some(x));
    assert forall|g: int|
        0 <= g < st.bgds.len() && model::has_block(
            st,
            contents::bitmap_of(st, g),
        ) implies contents::block(z, #[trigger] contents::bitmap_of(st, g)) == contents::block(
        st,
        contents::bitmap_of(st, g),
    ) by {
        assert(contents::at(st, ino, t, Role::Bitmap(g)) == Some(contents::bitmap_of(st, g)));
    }
    contents::lemma_kept_same(st, z);
}

/// Whether a file that lost its name is out of use: a link is freed, and everything else is on
/// the chain of unnamed files, before what was first there.
pub open spec fn let_go(st: FsState, z: FsState, ino: u64, v: InodeView) -> bool {
    if v.kind() == S_IFLNK {
        !bitmap::taken(
            contents::block(z, renames::inode_bitmap(st, ino)),
            (ino - 1) % st.sb.inodes_per_group as int,
        )
    } else {
        first_on_chain(z, ino, st.sb.last_orphan as u64)
    }
}

/// Unnaming a file lets it go.
#[verifier::spinoff_prover]
#[verifier::rlimit(40)]
pub(crate) proof fn lemma_unnamed(
    st: FsState,
    dir: u64,
    i: InodeView,
    s: Storage,
    ino: u64,
    v: InodeView,
    name: Seq<u8>,
    now: u64,
)
    requires
        names::dir_in_order(st, dir, i, s),
        names::well_named(names::dir_bytes(st, s.map, i.size as int)),
        orphans::chainable(st, ino),
        st.sb.last_orphan != ino,
        aside(st, dir, s, ino),
        v.kind() == S_IFLNK ==> v.inline(),
        dirmodel::remove_file(st, dir, ino, v, name, now).1 is Ok,
    ensures
        ({
            let z = dirmodel::remove_file(st, dir, ino, v, name, now).0;
            &&& let_go(st, z, ino, v)
            &&& contents::same_shape(st, z)
            &&& renames::inode_bitmap(z, ino) == renames::inode_bitmap(st, ino)
            &&& forall|c: int| #[trigger] contents::kept(st, c) ==> contents::kept(z, c)
        }),
{
    reveal(dirmodel::remove_file);
    let m = dirmodel::remove_dir_entry(st, dir, name, now).0;
    let z = dirmodel::remove_file(st, dir, ino, v, name, now).0;
    lemma_aside_removed(st, dir, i, s, name, now, ino);
    let j = names::remove_entry_then_lookup(st, dir, i, s, name, name, now);
    renames::lemma_still_bystander(st, m, dir, s, ino);
    contents::lemma_same_roles(st, m, ino, s);
    if v.kind() == S_IFLNK {
        assert(z == model::free_inode(m, ino).0 && model::free_inode(m, ino).1 is Ok) by {
            reveal(dirmodel::free_file_storage);
        }
        renames::lemma_given_back(m, dir, s, ino);
        reveal(model::free_inode);
        let bit = (ino - 1) % st.sb.inodes_per_group as int;
        let x = renames::inode_bitmap(st, ino);
        contents::lemma_split(ino - 1, st.sb.inodes_per_group as int);
        assert(m.pages[m.base + x].len() == 4096);
        bitmap::bit_updates(contents::block(m, x), bit, bit);
    } else {
        lemma_chained_first(m, ino);
        renames::lemma_chained(m, dir, s, ino);
    }
    names::lemma_shapes(st, m, z);
    assert forall|g: int|
        0 <= g < m.bgds.len() && model::has_block(
            m,
            contents::bitmap_of(m, g),
        ) implies contents::block(z, #[trigger] contents::bitmap_of(m, g)) == contents::block(
        m,
        contents::bitmap_of(m, g),
    ) by {
        assert(contents::at(m, dir, s, Role::Bitmap(g)) == Some(contents::bitmap_of(m, g)));
    }
    contents::lemma_kept_same(m, z);
}

/// A file that was let go stays so when an entry is taken out of one directory and put into
/// another, or the same.
#[verifier::spinoff_prover]
#[verifier::rlimit(40)]
proof fn lemma_stays_gone(
    st: FsState,
    st1: FsState,
    a: u64,
    ia: InodeView,
    sa: Storage,
    old_name: Seq<u8>,
    b: u64,
    ib: InodeView,
    sb: Storage,
    new_name: Seq<u8>,
    entry: u64,
    file_type: u8,
    now: u64,
    ino: u64,
    v: InodeView,
)
    requires
        let_go(st, st1, ino, v),
        contents::same_shape(st, st1),
        model::mounted(st),
        renames::inode_bitmap(st1, ino) == renames::inode_bitmap(st, ino),
        names::dir_in_order(st1, a, ia, sa),
        dirent::tiled(names::dir_bytes(st1, sa.map, ia.size as int), 0),
        renames::bystander(st1, a, sa, ino),
        aside(st1, b, sb, ino),
        dirmodel::remove_dir_entry(st1, a, old_name, now).1 is Ok,
        ({
            let st2 = dirmodel::remove_dir_entry(st1, a, old_name, now).0;
            &&& names::dir_in_order(st2, b, ib, sb)
            &&& ib.size + 8192 <= contents::LIMIT
            &&& ib.size + 12288 <= usize::MAX
            &&& dirent::tiled(names::dir_bytes(st2, sb.map, ib.size as int), 0)
            &&& dirmodel::lookup_in_dir(st2, b, new_name) == Ok::<Option<(u64, u8)>, Error>(None)
            &&& dirmodel::add_dir_entry(st2, b, new_name, entry, file_type, now).1 is Ok
        }),
        entry != 0,
        new_name.len() <= 255,
    ensures
        ({
            let st2 = dirmodel::remove_dir_entry(st1, a, old_name, now).0;
            let z = dirmodel::add_dir_entry(st2, b, new_name, entry, file_type, now).0;
            let_go(st, z, ino, v)
        }),
{
    let st2 = dirmodel::remove_dir_entry(st1, a, old_name, now).0;
    let z = dirmodel::add_dir_entry(st2, b, new_name, entry, file_type, now).0;
    let x = renames::inode_bitmap(st, ino);
    lemma_aside_removed(st1, a, ia, sa, old_name, now, ino);
    contents::lemma_same_roles(st1, st2, b, sb);
    contents::lemma_same_roles(st1, st2, ino, sb);
    contents::lemma_same_roles(st, st1, ino, sb);
    names::read_gives_dir_bytes(st2, b, ib, sb);
    assert(dirent::lookup_from(names::dir_bytes(st2, sb.map, ib.size as int), 0, new_name) is None)
        by {
        reveal(dirmodel::lookup_in_dir);
    }
    assert(renames::safe(st2, b, sb, ino));
    renames::lemma_add_beside(st2, b, ib, sb, new_name, entry, file_type, now, ino);
    lemma_chain_add(st2, b, ib, sb, new_name, entry, file_type, now);
    assert(new_dirs::elsewhere(st2, b, sb, x));
    new_dirs::lemma_add_elsewhere(st2, b, ib, sb, new_name, entry, file_type, now, x);
}

// ---- Laws -------------------------------------------------------------------------------------

/// A directory that has the new name makes a rename fail, and nothing has changed.
pub proof fn directories_are_not_replaced(
    st: FsState,
    a: u64,
    b: u64,
    ino: u64,
    f: InodeView,
    old_name: Seq<u8>,
    new_name: Seq<u8>,
    now: u64,
    victim: u64,
    file_type: u8,
)
    requires
        dirmodel::lookup_in_dir(st, b, new_name) == Ok::<Option<(u64, u8)>, Error>(
            Some((victim, file_type)),
        ),
        victim != ino,
        model::read_inode(st, victim) is Ok,
        model::read_inode(st, victim)->Ok_0.kind() == S_IFDIR,
    ensures
        dirmodel::rename(st, a, b, ino, f, old_name, new_name, now) == (
            st,
            Err::<(), Error>(Error::NotAFile),
        ),
{
    reveal(dirmodel::rename);
}

/// Whether the file that has the new name can lose it: it is no part of either directory, and
/// what says that it is in use is a block that no one is given.
pub open spec fn in_the_way(
    st: FsState,
    a: u64,
    sa: Storage,
    b: u64,
    sb: Storage,
    victim: u64,
) -> bool {
    &&& orphans::chainable(st, victim)
    &&& st.sb.last_orphan != victim
    &&& renames::bystander(st, a, sa, victim)
    &&& renames::bystander(st, b, sb, victim)
    &&& renames::safe(st, b, sb, victim)
    &&& model::has_block(st, renames::inode_bitmap(st, victim))
    &&& contents::kept(st, renames::inode_bitmap(st, victim))
}

pub(crate) proof fn lemma_strangers_both_ways(st: FsState, a: u64, sa: Storage, b: u64, sb: Storage)
    requires
        moves::strangers(st, a, sa, b, sb),
    ensures
        moves::strangers(st, b, sb, a, sa),
{
    assert forall|r: Role, q: Role|
        #![trigger contents::at(st, b, sb, r), contents::at(st, a, sa, q)]
        !moves::shared(r, q) && contents::at(st, b, sb, r) is Some && contents::at(st, a, sa, q) is Some
            implies contents::at(st, b, sb, r) != contents::at(st, a, sa, q) by {
        assert(!moves::shared(q, r));
    }
}

/// What unnaming a file in one directory leaves of another: everything.
#[verifier::spinoff_prover]
#[verifier::rlimit(40)]
proof fn lemma_unnamed_beside(
    st: FsState,
    a: u64,
    ia: InodeView,
    sa: Storage,
    b: u64,
    ib: InodeView,
    sb: Storage,
    victim: u64,
    v: InodeView,
    name: Seq<u8>,
    now: u64,
)
    requires
        names::dir_in_order(st, a, ia, sa),
        names::dir_in_order(st, b, ib, sb),
        moves::strangers(st, a, sa, b, sb),
        names::well_named(names::dir_bytes(st, sb.map, ib.size as int)),
        renames::bystander(st, a, sa, victim),
        v.kind() == S_IFLNK ==> v.inline(),
        dirmodel::remove_file(st, b, victim, v, name, now).1 is Ok,
    ensures
        ({
            let z = dirmodel::remove_file(st, b, victim, v, name, now).0;
            &&& names::dir_in_order(z, a, ia, sa)
            &&& names::dir_bytes(z, sa.map, ia.size as int) == names::dir_bytes(
                st,
                sa.map,
                ia.size as int,
            )
        }),
{
    reveal(dirmodel::remove_file);
    let m = dirmodel::remove_dir_entry(st, b, name, now).0;
    let z = dirmodel::remove_file(st, b, victim, v, name, now).0;
    lemma_strangers_both_ways(st, a, sa, b, sb);
    names::remove_entry_then_lookup(st, b, ib, sb, name, name, now);
    moves::lemma_remove_beside(st, b, ib, sb, name, now, a, sa);
    renames::lemma_passed_by(st, m, a, ia, sa);
    renames::lemma_still_bystander(st, m, a, sa, victim);
    if v.kind() == S_IFLNK {
        assert(z == model::free_inode(m, victim).0 && model::free_inode(m, victim).1 is Ok) by {
            reveal(dirmodel::free_file_storage);
        }
        renames::lemma_given_back(m, a, sa, victim);
    } else {
        renames::lemma_chained(m, a, sa, victim);
    }
    renames::lemma_passed_by(m, z, a, ia, sa);
}

/// A file that moves to another directory onto the name of a file there takes its place: the name
/// leads to the file that moved and is entered once, the file that had it is on the chain of
/// unnamed files, or freed if it is a link, the old name leads nowhere, and every other name of
/// the two directories leads where it did.
#[verifier::spinoff_prover]
#[verifier::rlimit(60)]
pub proof fn moved_takes_the_place(
    st: FsState,
    a: u64,
    ia: InodeView,
    sa: Storage,
    b: u64,
    ib: InodeView,
    sb: Storage,
    ino: u64,
    f: InodeView,
    old_name: Seq<u8>,
    new_name: Seq<u8>,
    other: Seq<u8>,
    now: u64,
    victim: u64,
    file_type: u8,
) -> (r: (InodeView, Storage))
    requires
        names::dir_in_order(st, a, ia, sa),
        names::dir_in_order(st, b, ib, sb),
        a != b,
        moves::strangers(st, a, sa, b, sb),
        names::well_named(names::dir_bytes(st, sa.map, ia.size as int)),
        names::well_named(names::dir_bytes(st, sb.map, ib.size as int)),
        ib.size + 8192 <= contents::LIMIT,
        ib.size + 12288 <= usize::MAX,
        dirmodel::lookup_in_dir(st, b, new_name) == Ok::<Option<(u64, u8)>, Error>(
            Some((victim, file_type)),
        ),
        victim != ino,
        in_the_way(st, a, sa, b, sb, victim),
        model::read_inode(st, victim) matches Ok(v) ==> (v.kind() == S_IFLNK ==> v.inline()),
        f.kind() != S_IFDIR,
        ino != 0,
        new_name.len() <= 255,
        dirmodel::rename(st, a, b, ino, f, old_name, new_name, now).1 is Ok,
    ensures
        ({
            let z = dirmodel::rename(st, a, b, ino, f, old_name, new_name, now).0;
            &&& names::dir_in_order(z, b, r.0, r.1)
            &&& dirent::times(names::dir_bytes(z, r.1.map, r.0.size as int), 0, new_name) == 1
            &&& dirmodel::lookup_in_dir(z, b, new_name) == Ok::<Option<(u64, u8)>, Error>(
                Some((ino, layout::dir_entry_type(f.mode))),
            )
            &&& dirmodel::lookup_in_dir(z, a, old_name) == Ok::<Option<(u64, u8)>, Error>(None)
            &&& other != old_name ==> dirmodel::lookup_in_dir(z, a, other)
                == dirmodel::lookup_in_dir(st, a, other)
            &&& other != new_name ==> dirmodel::lookup_in_dir(z, b, other)
                == dirmodel::lookup_in_dir(st, b, other)
            &&& model::read_inode(st, victim) is Ok
            &&& model::read_inode(st, victim)->Ok_0.kind() != S_IFDIR
            &&& let_go(st, z, victim, model::read_inode(st, victim)->Ok_0)
        }),
{
    reveal(dirmodel::rename);
    let st1 = dirmodel::replace_target(st, b, ino, new_name, now).0;
    let v = model::read_inode(st, victim)->Ok_0;
    let jb = renames::lemma_way_cleared(st, b, ib, sb, ino, new_name, other, now);
    lemma_unnamed(st, b, ib, sb, victim, v, new_name, now);
    lemma_unnamed_beside(st, a, ia, sa, b, ib, sb, victim, v, new_name, now);
    renames::lemma_same_names(st, st1, a, ia, sa, ia, sa, other);
    moves::lemma_still_strangers(st, st1, a, sa, b, sb);
    contents::lemma_same_roles(st, st1, a, sa);
    contents::lemma_same_roles(st, st1, b, sb);
    contents::lemma_same_roles(st, st1, victim, sb);
    let st2 = dirmodel::remove_dir_entry(st1, a, old_name, now).0;
    let ja = names::remove_entry_then_lookup(st1, a, ia, sa, old_name, other, now);
    moves::lemma_remove_beside(st1, a, ia, sa, old_name, now, b, sb);
    renames::lemma_passed_by(st1, st2, b, jb, sb);
    renames::lemma_same_names(st1, st2, b, jb, sb, jb, sb, new_name);
    renames::lemma_same_names(st1, st2, b, jb, sb, jb, sb, other);
    moves::lemma_still_strangers(st1, st2, a, sa, b, sb);
    let ft = layout::dir_entry_type(f.mode);
    let z = dirmodel::add_dir_entry(st2, b, new_name, ino, ft, now).0;
    let (kb, tb) = names::add_entry_then_lookup(st2, b, jb, sb, new_name, ino, ft, other, now);
    moves::lemma_enter_beside(st2, a, ja, sa, b, jb, sb, new_name, ino, ft, now);
    renames::lemma_same_names(st2, z, a, ja, sa, ja, sa, old_name);
    renames::lemma_same_names(st2, z, a, ja, sa, ja, sa, other);
    lemma_stays_gone(
        st,
        st1,
        a,
        ia,
        sa,
        old_name,
        b,
        jb,
        sb,
        new_name,
        ino,
        ft,
        now,
        victim,
        v,
    );
    let d = names::dir_bytes(z, tb.map, kb.size as int);
    names::read_gives_dir_bytes(z, b, kb, tb);
    assert(dirent::lookup_from(d, 0, new_name) is Some) by {
        reveal(dirmodel::lookup_in_dir);
    }
    dirent::entered_is_found(d, 0, new_name);
    assert(dirent::times(d, 0, new_name) <= 1);
    (kb, tb)
}

/// The same within one directory: a file that is renamed onto the name of another takes its
/// place.
#[verifier::spinoff_prover]
#[verifier::rlimit(60)]
pub proof fn renamed_takes_the_place(
    st: FsState,
    dir: u64,
    i: InodeView,
    s: Storage,
    ino: u64,
    f: InodeView,
    old_name: Seq<u8>,
    new_name: Seq<u8>,
    other: Seq<u8>,
    now: u64,
    victim: u64,
    file_type: u8,
) -> (r: (InodeView, Storage))
    requires
        names::dir_in_order(st, dir, i, s),
        names::well_named(names::dir_bytes(st, s.map, i.size as int)),
        i.size + 8192 <= contents::LIMIT,
        i.size + 12288 <= usize::MAX,
        old_name != new_name,
        dirmodel::lookup_in_dir(st, dir, new_name) == Ok::<Option<(u64, u8)>, Error>(
            Some((victim, file_type)),
        ),
        victim != ino,
        in_the_way(st, dir, s, dir, s, victim),
        model::read_inode(st, victim) matches Ok(v) ==> (v.kind() == S_IFLNK ==> v.inline()),
        ino != 0,
        new_name.len() <= 255,
        dirmodel::rename(st, dir, dir, ino, f, old_name, new_name, now).1 is Ok,
    ensures
        ({
            let z = dirmodel::rename(st, dir, dir, ino, f, old_name, new_name, now).0;
            &&& names::dir_in_order(z, dir, r.0, r.1)
            &&& dirent::times(names::dir_bytes(z, r.1.map, r.0.size as int), 0, new_name) == 1
            &&& dirmodel::lookup_in_dir(z, dir, new_name) == Ok::<Option<(u64, u8)>, Error>(
                Some((ino, layout::dir_entry_type(f.mode))),
            )
            &&& dirmodel::lookup_in_dir(z, dir, old_name) == Ok::<Option<(u64, u8)>, Error>(None)
            &&& other != old_name && other != new_name ==> dirmodel::lookup_in_dir(z, dir, other)
                == dirmodel::lookup_in_dir(st, dir, other)
            &&& model::read_inode(st, victim) is Ok
            &&& model::read_inode(st, victim)->Ok_0.kind() != S_IFDIR
            &&& let_go(st, z, victim, model::read_inode(st, victim)->Ok_0)
        }),
{
    reveal(dirmodel::rename);
    let st1 = dirmodel::replace_target(st, dir, ino, new_name, now).0;
    let v = model::read_inode(st, victim)->Ok_0;
    let i1 = renames::lemma_way_cleared(st, dir, i, s, ino, new_name, other, now);
    lemma_unnamed(st, dir, i, s, victim, v, new_name, now);
    contents::lemma_same_roles(st, st1, dir, s);
    contents::lemma_same_roles(st, st1, victim, s);
    let i2 = names::remove_entry_then_lookup(st1, dir, i1, s, old_name, new_name, now);
    let ft = layout::dir_entry_type(f.mode);
    lemma_stays_gone(
        st,
        st1,
        dir,
        i1,
        s,
        old_name,
        dir,
        i2,
        s,
        new_name,
        ino,
        ft,
        now,
        victim,
        v,
    );
    let (k, t) = renames::renamed_is_found(st, dir, i, s, ino, f, old_name, new_name, other, now);
    let z = dirmodel::rename(st, dir, dir, ino, f, old_name, new_name, now).0;
    let d = names::dir_bytes(z, t.map, k.size as int);
    names::read_gives_dir_bytes(z, dir, k, t);
    assert(dirent::lookup_from(d, 0, new_name) is Some) by {
        reveal(dirmodel::lookup_in_dir);
    }
    dirent::entered_is_found(d, 0, new_name);
    assert(dirent::times(d, 0, new_name) <= 1);
    (k, t)
}

} // verus!
