//! What the operations on paths come to: a file that was made, renamed or removed through a path is
//! there, or no longer there, in the directory that the path without its last name leads to.
use vstd::prelude::*;
use crate::error::Error;
use crate::path;
use crate::types::FileView;
use super::contents;
use super::contents::{Role, Storage};
use super::dirent;
use super::dirent::EntryView;
use super::dirmodel;
use super::dirmodel::WalkView;
use super::extents;
use super::layout;
use super::layout::{EfsExtent, FT_DIR, InodeView, S_IFDIR, S_IFIFO, S_IFLNK, S_IFREG};
use super::model;
use super::model::FsState;
use super::moves;
use super::names;
use super::new_dirs;
use super::ops;
use super::orphans;
use super::removed_dirs;
use super::renames;
use super::replacing;

verus! {

// ---- Transactions change no names -------------------------------------------------------------

proof fn lemma_same_dir_blocks(
    a: FsState,
    z: FsState,
    m: Seq<EfsExtent>,
    k: int,
    j: int,
    size: int,
    acc: Seq<u8>,
)
    requires
        contents::same_disk(a, z),
    ensures
        dirmodel::dir_blocks(z, m, k, j, size, acc) == dirmodel::dir_blocks(a, m, k, j, size, acc),
    decreases m.len() - k, (if 0 <= k < m.len() { m[k].length as int } else { 0 }) - j,
{
    if acc.len() < size && 0 <= k < m.len() {
        if j >= m[k].length {
            lemma_same_dir_blocks(a, z, m, k + 1, 0, size, acc);
        } else {
            match model::read_block(a, m[k].phys() + j) {
                Ok(b) => lemma_same_dir_blocks(
                    a,
                    z,
                    m,
                    k,
                    j + 1,
                    size,
                    acc + b.take(model::min(4096, size - acc.len())),
                ),
                Err(_) => {},
            }
        }
    }
}

/// States that differ in their transactions alone have the same inodes and names.
proof fn lemma_same_names(a: FsState, z: FsState, dir: u64, name: Seq<u8>)
    requires
        contents::same_disk(a, z),
        crate::block_device::full_pages(a.pages),
    ensures
        model::read_inode(z, dir) == model::read_inode(a, dir),
        dirmodel::lookup_in_dir(z, dir, name) == dirmodel::lookup_in_dir(a, dir, name),
{
    contents::lemma_same_disk(a, z, dir);
    reveal(dirmodel::lookup_in_dir);
    reveal(dirmodel::read_dir_data);
    if let Ok(i) = model::read_inode(a, dir) {
        assert(model::load_map(z, i) == model::load_map(a, i));
        if let Ok(m) = model::load_map(a, i) {
            lemma_same_dir_blocks(a, z, m, 0, 0, i.size as int, Seq::empty());
        }
    }
}

/// A directory in order stays so.
#[verifier::spinoff_prover]
#[verifier::rlimit(40)]
proof fn lemma_begun(a: FsState, z: FsState, dir: u64, i: InodeView, s: Storage)
    requires
        contents::same_disk(a, z),
        names::dir_in_order(a, dir, i, s),
    ensures
        names::dir_in_order(z, dir, i, s),
        names::dir_bytes(z, s.map, i.size as int) == names::dir_bytes(a, s.map, i.size as int),
        contents::same_shape(a, z),
{
    contents::lemma_same_disk(a, z, dir);
    assert(contents::in_order(z, dir, i, s));
    assert(names::dense(z, s.map, i.size as int / 4096)) by {
        assert forall|lb: u32|
            match #[trigger] extents::map_lookup(s.map, lb) {
                Some(p) => lb < i.size as int / 4096 && model::has_block(z, p as int),
                None => lb >= i.size as int / 4096,
            } by {
            if let Some(p) = extents::map_lookup(s.map, lb) {
                assert(model::has_block(a, p as int));
            }
        }
    }
    let x = names::dir_bytes(z, s.map, i.size as int);
    let y = names::dir_bytes(a, s.map, i.size as int);
    assert forall|pos: int| 0 <= pos < x.len() implies x[pos] == y[pos] by {
        assert(contents::byte_at(z, s.map, pos) == contents::byte_at(a, s.map, pos));
    }
    assert(x =~= y);
}

proof fn lemma_begun_kept(a: FsState, z: FsState, b: int)
    requires
        contents::same_disk(a, z),
    ensures
        contents::kept(z, b) == contents::kept(a, b),
{
}

proof fn lemma_begun_bystander(a: FsState, z: FsState, dir: u64, s: Storage, ino: u64)
    requires
        contents::same_disk(a, z),
        contents::same_shape(a, z),
        model::mounted(a),
        renames::bystander(a, dir, s, ino),
    ensures
        renames::bystander(z, dir, s, ino),
{
    renames::lemma_still_bystander(a, z, dir, s, ino);
}

proof fn lemma_begun_safe(a: FsState, z: FsState, dir: u64, s: Storage, ino: u64)
    requires
        contents::same_disk(a, z),
        contents::same_shape(a, z),
        model::mounted(a),
        renames::safe(a, dir, s, ino),
    ensures
        renames::safe(z, dir, s, ino),
{
    contents::lemma_same_roles(a, z, dir, s);
    contents::lemma_same_roles(a, z, ino, s);
    if let Some(b) = model::inode_block(a, ino) {
        lemma_begun_kept(a, z, b);
    }
}

// ---- Where operations take place --------------------------------------------------------------

/// Whether the path without its last name leads to directory `dir`.
pub open spec fn in_directory(st: FsState, cs: Seq<Seq<char>>, dir: u64) -> bool {
    cs.len() > 0 && (dirmodel::walk_path(st, cs.drop_last(), true) matches Ok(WalkView::Node(d, _))
        && d == dir)
}

/// Whether the path names inode `ino`, a link itself and not what it leads to.
pub open spec fn names_inode(st: FsState, cs: Seq<Seq<char>>, ino: u64, v: InodeView) -> bool {
    dirmodel::walk_path(st, cs, false) == Ok::<WalkView, Error>(WalkView::Node(ino, v))
}

/// The bytes of the last name of a path.
pub open spec fn end_name(cs: Seq<Seq<char>>) -> Seq<u8> {
    vstd::utf8::encode_utf8(cs.last())
}

// ---- Removing ---------------------------------------------------------------------------------

/// A file that is removed through a path is no directory, and its name leads nowhere in the
/// directory it was in; the other names there lead where they did, and the file is let go.
#[verifier::spinoff_prover]
#[verifier::rlimit(60)]
pub proof fn removed_by_path(
    st: FsState,
    cs: Seq<Seq<char>>,
    dir: u64,
    i: InodeView,
    s: Storage,
    ino: u64,
    v: InodeView,
    other: Seq<u8>,
    now: u64,
)
    requires
        in_directory(st, cs, dir),
        names_inode(st, cs, ino, v),
        names::dir_in_order(st, dir, i, s),
        names::well_named(names::dir_bytes(st, s.map, i.size as int)),
        replacing::in_the_way(st, dir, s, dir, s, ino),
        v.kind() == S_IFLNK ==> v.inline(),
        ops::remove_file_at(st, cs, now).1 is Ok,
    ensures
        ({
            let z = ops::remove_file_at(st, cs, now).0;
            &&& v.kind() == 0x8000 || v.kind() == 0xA000 || v.kind() == 0x1000
            &&& dirmodel::lookup_in_dir(z, dir, end_name(cs)) == Ok::<Option<(u64, u8)>, Error>(None)
            &&& other != end_name(cs) ==> dirmodel::lookup_in_dir(z, dir, other)
                == dirmodel::lookup_in_dir(st, dir, other)
            &&& replacing::let_go(st, z, ino, v)
        }),
{
    let b = model::begin(st);
    let name = end_name(cs);
    lemma_begun(st, b, dir, i, s);
    lemma_begun_bystander(st, b, dir, s, ino);
    lemma_begun_safe(st, b, dir, s, ino);
    lemma_begun_kept(st, b, renames::inode_bitmap(st, ino));
    lemma_same_names(st, b, dir, other);
    contents::lemma_same_roles(st, b, ino, s);
    let w = dirmodel::remove_file(b, dir, ino, v, name, now).0;
    let j = renames::unnamed_is_gone(b, dir, i, s, ino, v, name, other, now);
    replacing::lemma_unnamed(b, dir, i, s, ino, v, name, now);
    let z = ops::remove_file_at(st, cs, now).0;
    assert(z == model::ended(w, true));
    lemma_same_names(w, z, dir, name);
    lemma_same_names(w, z, dir, other);
    lemma_same_names(w, z, ino, other);
}

/// What cannot be removed is refused and stays: a directory as a file, and a file, or a directory
/// that holds anything but itself and the one it is in, as a directory.
pub proof fn refused_to_be_removed(st: FsState, cs: Seq<Seq<char>>, dir: u64, ino: u64, v: InodeView, now: u64)
    requires
        in_directory(st, cs, dir),
        names_inode(st, cs, ino, v),
    ensures
        v.kind() == 0x4000 ==> ops::remove_file_at(st, cs, now) == (
            st,
            Err::<(), Error>(Error::NotAFile),
        ),
        v.kind() != 0x4000 ==> ops::remove_dir_at(st, cs, now) == (
            st,
            Err::<(), Error>(Error::NotADir),
        ),
        v.kind() == 0x4000 && (dirmodel::read_dir_entries(st, ino) matches Ok(es) && exists|k: int|
            0 <= k < es.len() && (#[trigger] es[k]).name != seq!['.'] && es[k].name != seq![
                '.',
                '.',
            ]) ==> ops::remove_dir_at(st, cs, now) == (st, Err::<(), Error>(Error::IoError)),
{
    if let Ok(es) = dirmodel::read_dir_entries(st, ino) {
        if exists|k: int|
            0 <= k < es.len() && (#[trigger] es[k]).name != seq!['.'] && es[k].name != seq![
                '.',
                '.',
            ] {
            assert(dirmodel::occupied(es));
        }
    }
}

/// A directory that is removed through a path is one and holds nothing, and its name leads nowhere
/// afterwards; the other names of the directory it was in lead where they did.
#[verifier::spinoff_prover]
#[verifier::rlimit(60)]
pub proof fn directory_removed_by_path(
    st: FsState,
    cs: Seq<Seq<char>>,
    dir: u64,
    i: InodeView,
    s: Storage,
    ino: u64,
    v: InodeView,
    other: Seq<u8>,
    now: u64,
)
    requires
        in_directory(st, cs, dir),
        names_inode(st, cs, ino, v),
        names::dir_in_order(st, dir, i, s),
        names::well_named(names::dir_bytes(st, s.map, i.size as int)),
        removed_dirs::stored_elsewhere(model::begin(st), dir, s, ino, v),
        ops::remove_dir_at(st, cs, now).1 is Ok,
    ensures
        ({
            let z = ops::remove_dir_at(st, cs, now).0;
            &&& v.kind() == 0x4000
            &&& dirmodel::read_dir_entries(st, ino) matches Ok(es) && forall|k: int|
                0 <= k < es.len() ==> (#[trigger] es[k]).name == seq!['.'] || es[k].name == seq![
                    '.',
                    '.',
                ]
            &&& dirmodel::lookup_in_dir(z, dir, end_name(cs)) == Ok::<Option<(u64, u8)>, Error>(None)
            &&& other != end_name(cs) ==> dirmodel::lookup_in_dir(z, dir, other)
                == dirmodel::lookup_in_dir(st, dir, other)
        }),
{
    let b = model::begin(st);
    let name = end_name(cs);
    lemma_begun(st, b, dir, i, s);
    lemma_same_names(st, b, dir, other);
    if let Ok(es) = dirmodel::read_dir_entries(st, ino) {
        assert(!dirmodel::occupied(es));
    }
    let w = dirmodel::remove_dir(b, dir, ino, v, name, now).0;
    let j = removed_dirs::removed_dir_is_gone(b, dir, i, s, ino, v, name, other, now);
    let z = ops::remove_dir_at(st, cs, now).0;
    lemma_same_names(w, z, dir, name);
    lemma_same_names(w, z, dir, other);
}

// ---- Making -----------------------------------------------------------------------------------

/// The directory that something is made in, where its name has to be free or not.
pub open spec fn target(
    st: FsState,
    cs: Seq<Seq<char>>,
    fresh: bool,
    on_root: Error,
    taken: Error,
) -> Result<u64, Error> {
    if fresh {
        dirmodel::make_fresh(st, cs, on_root, taken)
    } else {
        dirmodel::make_target(st, cs, on_root)
    }
}

/// A file that is made through a path is found under the last name of the path in the directory
/// that the names before it lead to, with an inode that reads as it was made; the other names
/// there lead where they did. So it is whether or not the name has to be free; where it has to
/// be, it was.
#[verifier::spinoff_prover]
#[verifier::rlimit(60)]
pub proof fn made_by_path(
    st: FsState,
    cs: Seq<Seq<char>>,
    dir: u64,
    i: InodeView,
    s: Storage,
    f: InodeView,
    file_type: u8,
    fresh: bool,
    on_root: Error,
    taken: Error,
    other: Seq<u8>,
    now: u64,
)
    requires
        in_directory(st, cs, dir),
        names::dir_in_order(st, dir, i, s),
        i.size + 8192 <= contents::LIMIT,
        i.size + 12288 <= usize::MAX,
        names::well_named(names::dir_bytes(st, s.map, i.size as int)),
        dirmodel::lookup_in_dir(st, dir, end_name(cs)) == Ok::<Option<(u64, u8)>, Error>(None),
        renames::bystander(st, dir, s, model::alloc_inode(model::begin(st)).1->Ok_0),
        renames::safe(st, dir, s, model::alloc_inode(model::begin(st)).1->Ok_0),
        f.data_area.len() == layout::INODE_DATA_AREA_SIZE,
        ops::create_at(
            st,
            target(st, cs, fresh, on_root, taken),
            dirmodel::last_name(cs),
            f,
            file_type,
            now,
        ).1 is Ok,
    ensures
        ({
            let z = ops::create_at(
                st,
                target(st, cs, fresh, on_root, taken),
                dirmodel::last_name(cs),
                f,
                file_type,
                now,
            ).0;
            &&& end_name(cs).len() <= 255
            &&& exists|ino: u64|
                dirmodel::lookup_in_dir(z, dir, end_name(cs)) == Ok::<Option<(u64, u8)>, Error>(
                    Some((ino, file_type)),
                ) && #[trigger] model::read_inode(z, ino) == Ok::<InodeView, Error>(f)
            &&& other != end_name(cs) ==> dirmodel::lookup_in_dir(z, dir, other)
                == dirmodel::lookup_in_dir(st, dir, other)
        }),
{
    let b = model::begin(st);
    let name = end_name(cs);
    let ino = model::alloc_inode(b).1->Ok_0;
    lemma_begun(st, b, dir, i, s);
    lemma_begun_bystander(st, b, dir, s, ino);
    lemma_begun_safe(st, b, dir, s, ino);
    lemma_same_names(st, b, dir, name);
    lemma_same_names(st, b, dir, other);
    let w = dirmodel::create_entry(b, dir, name, f, file_type, now).0;
    let (j, t) = renames::created_is_found(b, dir, i, s, name, f, file_type, other, now);
    let z = model::ended(w, true);
    assert(target(st, cs, fresh, on_root, taken) == Ok::<u64, Error>(dir));
    assert(dirmodel::last_name(cs) == name);
    assert(z == ops::create_at(
        st,
        target(st, cs, fresh, on_root, taken),
        dirmodel::last_name(cs),
        f,
        file_type,
        now,
    ).0);
    lemma_same_names(w, z, dir, name);
    lemma_same_names(w, z, dir, other);
    lemma_same_names(w, z, ino, other);
    assert(model::read_inode(z, ino) == Ok::<InodeView, Error>(f));
}

/// What cannot be made is refused and nothing changes: a file with a name that is too long, one
/// below what is no directory, one that has to be new under a name that is taken, and one without
/// a name.
pub proof fn refused_to_be_made(
    st: FsState,
    cs: Seq<Seq<char>>,
    dir: u64,
    i: InodeView,
    f: InodeView,
    file_type: u8,
    on_root: Error,
    taken: Error,
    now: u64,
)
    requires
        cs.len() > 0 ==> dirmodel::walk_path(st, cs.drop_last(), true) == Ok::<WalkView, Error>(
            WalkView::Node(dir, i),
        ),
        model::read_inode(st, dir) == Ok::<InodeView, Error>(i),
    ensures
        ({
            let t = dirmodel::make_target(st, cs, on_root);
            let u = dirmodel::make_fresh(st, cs, on_root, taken);
            let name = dirmodel::last_name(cs);
            &&& cs.len() == 0 ==> ops::create_at(st, t, name, f, file_type, now) == (
                st,
                Err::<(), Error>(on_root),
            ) && ops::create_at(st, u, name, f, file_type, now) == (st, Err::<(), Error>(on_root))
                && ops::create_dir_at(st, t, name, now) == (st, Err::<(), Error>(on_root))
            &&& cs.len() > 0 && i.kind() != 0x4000 ==> ops::create_at(st, t, name, f, file_type, now)
                == (st, Err::<(), Error>(Error::NotADir)) && ops::create_at(
                st,
                u,
                name,
                f,
                file_type,
                now,
            ) == (st, Err::<(), Error>(Error::NotADir)) && ops::create_dir_at(st, t, name, now) == (
                st,
                Err::<(), Error>(Error::NotADir),
            )
            &&& cs.len() > 0 && i.kind() == 0x4000 && end_name(cs).len() > 255 ==> ops::create_at(
                st,
                t,
                name,
                f,
                file_type,
                now,
            ) == (st, Err::<(), Error>(Error::InvalidArgument)) && ops::create_dir_at(
                st,
                t,
                name,
                now,
            ) == (st, Err::<(), Error>(Error::InvalidArgument))
            &&& cs.len() > 0 && i.kind() == 0x4000 && (dirmodel::lookup_in_dir(
                st,
                dir,
                end_name(cs),
            ) matches Ok(Some(_))) ==> ops::create_at(st, u, name, f, file_type, now) == (
                st,
                Err::<(), Error>(taken),
            )
        }),
{
}

/// A directory that is made through a path is found under the last name of the path in the
/// directory that the names before it lead to, holds itself and that directory under their two
/// names, and leaves the other names there alone.
#[verifier::spinoff_prover]
#[verifier::rlimit(60)]
pub proof fn directory_made_by_path(
    st: FsState,
    cs: Seq<Seq<char>>,
    dir: u64,
    i: InodeView,
    s: Storage,
    on_root: Error,
    other: Seq<u8>,
    now: u64,
)
    requires
        in_directory(st, cs, dir),
        names::dir_in_order(st, dir, i, s),
        i.size + 8192 <= contents::LIMIT,
        i.size + 12288 <= usize::MAX,
        names::well_named(names::dir_bytes(st, s.map, i.size as int)),
        dirmodel::lookup_in_dir(st, dir, end_name(cs)) == Ok::<Option<(u64, u8)>, Error>(None),
        renames::bystander(st, dir, s, model::alloc_inode(model::begin(st)).1->Ok_0),
        renames::safe(st, dir, s, model::alloc_inode(model::begin(st)).1->Ok_0),
        ops::create_dir_at(
            st,
            dirmodel::make_target(st, cs, on_root),
            dirmodel::last_name(cs),
            now,
        ).1 is Ok,
    ensures
        ({
            let z = ops::create_dir_at(
                st,
                dirmodel::make_target(st, cs, on_root),
                dirmodel::last_name(cs),
                now,
            ).0;
            &&& exists|ino: u64|
                #![trigger model::read_inode(z, ino)]
                dirmodel::lookup_in_dir(z, dir, end_name(cs)) == Ok::<Option<(u64, u8)>, Error>(
                    Some((ino, FT_DIR)),
                ) && dirmodel::lookup_in_dir(z, ino, seq![0x2Eu8]) == Ok::<
                    Option<(u64, u8)>,
                    Error,
                >(Some((ino, FT_DIR))) && dirmodel::lookup_in_dir(z, ino, seq![0x2Eu8, 0x2Eu8])
                    == Ok::<Option<(u64, u8)>, Error>(Some((dir, FT_DIR))) && (model::read_inode(
                    z,
                    ino,
                ) matches Ok(f) && f.kind() == S_IFDIR)
            &&& other != end_name(cs) ==> dirmodel::lookup_in_dir(z, dir, other)
                == dirmodel::lookup_in_dir(st, dir, other)
        }),
{
    let b = model::begin(st);
    let name = end_name(cs);
    let ino = model::alloc_inode(b).1->Ok_0;
    lemma_begun(st, b, dir, i, s);
    lemma_begun_bystander(st, b, dir, s, ino);
    lemma_begun_safe(st, b, dir, s, ino);
    lemma_same_names(st, b, dir, name);
    lemma_same_names(st, b, dir, other);
    let w = dirmodel::create_dir(b, dir, name, now).0;
    let (j, t) = new_dirs::made_is_found(b, dir, i, s, name, other, now);
    let z = model::ended(w, true);
    lemma_same_names(w, z, dir, name);
    lemma_same_names(w, z, dir, other);
    lemma_same_names(w, z, ino, seq![0x2Eu8]);
    lemma_same_names(w, z, ino, seq![0x2Eu8, 0x2Eu8]);
    assert(model::read_inode(z, ino) is Ok);
}

// ---- Renaming ---------------------------------------------------------------------------------

proof fn lemma_begun_strangers(a: FsState, z: FsState, x: u64, sx: Storage, y: u64, sy: Storage)
    requires
        contents::same_shape(a, z),
        model::mounted(a),
        moves::strangers(a, x, sx, y, sy),
    ensures
        moves::strangers(z, x, sx, y, sy),
{
    moves::lemma_still_strangers(a, z, x, sx, y, sy);
}

/// A file that is renamed through paths from one directory to another is found there under the
/// last name of the new path, and its old name leads nowhere; whatever file had the new name is
/// let go. The other names of the two directories lead where they did.
#[verifier::spinoff_prover]
#[verifier::rlimit(60)]
pub proof fn moved_by_path(
    st: FsState,
    from: Seq<Seq<char>>,
    to: Seq<Seq<char>>,
    a: u64,
    ia: InodeView,
    sa: Storage,
    b: u64,
    ib: InodeView,
    sb: Storage,
    ino: u64,
    f: InodeView,
    other: Seq<u8>,
    now: u64,
)
    requires
        in_directory(st, from, a),
        in_directory(st, to, b),
        a != b,
        names_inode(st, from, ino, f),
        f.kind() != S_IFDIR,
        ino != 0,
        names::dir_in_order(st, a, ia, sa),
        names::dir_in_order(st, b, ib, sb),
        moves::strangers(st, a, sa, b, sb),
        names::well_named(names::dir_bytes(st, sa.map, ia.size as int)),
        names::well_named(names::dir_bytes(st, sb.map, ib.size as int)),
        ib.size + 8192 <= contents::LIMIT,
        ib.size + 12288 <= usize::MAX,
        dirmodel::lookup_in_dir(st, b, end_name(to)) matches Ok(Some((victim, _))) ==> victim != ino
            && replacing::in_the_way(st, a, sa, b, sb, victim) && (model::read_inode(
            st,
            victim,
        ) matches Ok(v) ==> (v.kind() == S_IFLNK ==> v.inline())),
        ops::rename_at(st, from, to, now).1 is Ok,
    ensures
        ({
            let z = ops::rename_at(st, from, to, now).0;
            &&& end_name(to).len() <= 255
            &&& dirmodel::lookup_in_dir(z, b, end_name(to)) == Ok::<Option<(u64, u8)>, Error>(
                Some((ino, layout::dir_entry_type(f.mode))),
            )
            &&& dirmodel::lookup_in_dir(z, a, end_name(from)) == Ok::<Option<(u64, u8)>, Error>(
                None,
            )
            &&& other != end_name(from) ==> dirmodel::lookup_in_dir(z, a, other)
                == dirmodel::lookup_in_dir(st, a, other)
            &&& other != end_name(to) ==> dirmodel::lookup_in_dir(z, b, other)
                == dirmodel::lookup_in_dir(st, b, other)
            &&& dirmodel::lookup_in_dir(st, b, end_name(to)) matches Ok(Some((victim, _)))
                ==> replacing::let_go(st, z, victim, model::read_inode(st, victim)->Ok_0)
        }),
{
    let x = model::begin(st);
    let old_name = end_name(from);
    let new_name = end_name(to);
    lemma_begun(st, x, a, ia, sa);
    lemma_begun(st, x, b, ib, sb);
    lemma_begun_strangers(st, x, a, sa, b, sb);
    lemma_same_names(st, x, b, new_name);
    lemma_same_names(st, x, a, other);
    lemma_same_names(st, x, b, other);
    let w = dirmodel::rename(x, a, b, ino, f, old_name, new_name, now).0;
    let z = model::ended(w, true);
    assert(z == ops::rename_at(st, from, to, now).0);
    match dirmodel::lookup_in_dir(st, b, new_name) {
        Ok(Some((victim, ft))) => {
            lemma_same_names(st, x, victim, other);
            lemma_begun_bystander(st, x, a, sa, victim);
            lemma_begun_bystander(st, x, b, sb, victim);
            lemma_begun_safe(st, x, b, sb, victim);
            lemma_begun_kept(st, x, renames::inode_bitmap(st, victim));
            contents::lemma_same_roles(st, x, victim, sb);
            replacing::moved_takes_the_place(
                x,
                a,
                ia,
                sa,
                b,
                ib,
                sb,
                ino,
                f,
                old_name,
                new_name,
                other,
                now,
                victim,
                ft,
            );
            lemma_same_names(w, z, victim, other);
        },
        Ok(None) => {
            moves::moved_is_found(
                x,
                a,
                ia,
                sa,
                b,
                ib,
                sb,
                ino,
                f,
                old_name,
                new_name,
                other,
                now,
            );
        },
        Err(_) => {
            assert(false) by {
                reveal(dirmodel::rename);
            }
        },
    }
    lemma_same_names(w, z, b, new_name);
    lemma_same_names(w, z, a, old_name);
    lemma_same_names(w, z, a, other);
    lemma_same_names(w, z, b, other);
}

/// A file that is renamed through paths within its directory is found under the last name of the
/// new path alone; whatever file had that name is let go. The other names lead where they did.
#[verifier::spinoff_prover]
#[verifier::rlimit(60)]
pub proof fn renamed_by_path(
    st: FsState,
    from: Seq<Seq<char>>,
    to: Seq<Seq<char>>,
    dir: u64,
    i: InodeView,
    s: Storage,
    ino: u64,
    f: InodeView,
    other: Seq<u8>,
    now: u64,
)
    requires
        in_directory(st, from, dir),
        in_directory(st, to, dir),
        end_name(from) != end_name(to),
        names_inode(st, from, ino, f),
        ino != 0,
        names::dir_in_order(st, dir, i, s),
        names::well_named(names::dir_bytes(st, s.map, i.size as int)),
        i.size + 8192 <= contents::LIMIT,
        i.size + 12288 <= usize::MAX,
        dirmodel::lookup_in_dir(st, dir, end_name(to)) matches Ok(Some((victim, _))) ==> victim != ino
            && replacing::in_the_way(st, dir, s, dir, s, victim) && (model::read_inode(
            st,
            victim,
        ) matches Ok(v) ==> (v.kind() == S_IFLNK ==> v.inline())),
        ops::rename_at(st, from, to, now).1 is Ok,
    ensures
        ({
            let z = ops::rename_at(st, from, to, now).0;
            &&& dirmodel::lookup_in_dir(z, dir, end_name(to)) == Ok::<Option<(u64, u8)>, Error>(
                Some((ino, layout::dir_entry_type(f.mode))),
            )
            &&& dirmodel::lookup_in_dir(z, dir, end_name(from)) == Ok::<Option<(u64, u8)>, Error>(
                None,
            )
            &&& other != end_name(from) && other != end_name(to) ==> dirmodel::lookup_in_dir(
                z,
                dir,
                other,
            ) == dirmodel::lookup_in_dir(st, dir, other)
            &&& dirmodel::lookup_in_dir(st, dir, end_name(to)) matches Ok(Some((victim, _)))
                ==> replacing::let_go(st, z, victim, model::read_inode(st, victim)->Ok_0)
        }),
{
    let x = model::begin(st);
    let old_name = end_name(from);
    let new_name = end_name(to);
    lemma_begun(st, x, dir, i, s);
    lemma_same_names(st, x, dir, new_name);
    lemma_same_names(st, x, dir, other);
    let w = dirmodel::rename(x, dir, dir, ino, f, old_name, new_name, now).0;
    let z = model::ended(w, true);
    assert(z == ops::rename_at(st, from, to, now).0);
    match dirmodel::lookup_in_dir(st, dir, new_name) {
        Ok(Some((victim, ft))) => {
            lemma_same_names(st, x, victim, other);
            lemma_begun_bystander(st, x, dir, s, victim);
            lemma_begun_safe(st, x, dir, s, victim);
            lemma_begun_kept(st, x, renames::inode_bitmap(st, victim));
            contents::lemma_same_roles(st, x, victim, s);
            replacing::renamed_takes_the_place(
                x,
                dir,
                i,
                s,
                ino,
                f,
                old_name,
                new_name,
                other,
                now,
                victim,
                ft,
            );
            lemma_same_names(w, z, victim, other);
        },
        Ok(None) => {
            renames::renamed_is_found(x, dir, i, s, ino, f, old_name, new_name, other, now);
        },
        Err(_) => {
            assert(false) by {
                reveal(dirmodel::rename);
            }
        },
    }
    lemma_same_names(w, z, dir, new_name);
    lemma_same_names(w, z, dir, old_name);
    lemma_same_names(w, z, dir, other);
}

// ---- Sizes and times --------------------------------------------------------------------------

/// A file whose size is set through a path has that size, and holds below it what it held. Only
/// regular files have their size set, are read and are written; others stay as they are.
#[verifier::spinoff_prover]
#[verifier::rlimit(60)]
pub proof fn size_set_by_path(
    st: FsState,
    cs: Seq<Seq<char>>,
    ino: u64,
    v: InodeView,
    s: Storage,
    size: u64,
    now: u64,
) -> (r: (InodeView, Storage))
    requires
        dirmodel::walk_path(st, cs, true) == Ok::<WalkView, Error>(WalkView::Node(ino, v)),
        contents::in_order(st, ino, v, s),
        v.inline() ==> v.size <= layout::INODE_DATA_AREA_SIZE,
        super::truncation::addressable(s.map),
    ensures
        v.kind() != 0x8000 ==> ops::truncate_at(st, cs, size, now) == (
            st,
            Err::<(), Error>(Error::NotAFile),
        ),
        ops::truncate_at(st, cs, size, now).1 is Ok ==> ({
            let z = ops::truncate_at(st, cs, size, now).0;
            &&& contents::in_order(z, ino, r.0, r.1)
            &&& r.0.size == size
            &&& r.0.mtime_sec == now
            &&& super::truncation::resized(st, v, s, z, r.0, r.1, size)
        }),
{
    let b = model::begin(st);
    contents::lemma_same_disk(st, b, ino);
    if ops::truncate_at(st, cs, size, now).1 is Ok {
        let (j, t) = super::truncation::truncate_keeps_the_front(b, ino, v, s, size, now);
        let w = model::truncate(b, ino, size, now).0;
        let z = model::ended(w, true);
        contents::lemma_same_disk(w, z, ino);
        assert forall|pos: int|
            0 <= pos < size && pos < v.size && pos < contents::LIMIT implies
            #[trigger] contents::holds_same(st, v, s, z, j, t, pos) by {
            assert(contents::holds_same(b, v, s, w, j, t, pos));
        }
        if size >= v.size || v.inline() {
            assert forall|pos: int| v.size <= pos < contents::LIMIT implies
                #[trigger] contents::holds_past(st, v, s, z, j, t, pos) by {
                assert(contents::holds_past(b, v, s, w, j, t, pos));
            }
        }
        (j, t)
    } else {
        (v, s)
    }
}

/// Reading and writing need a regular file.
pub proof fn only_files_are_read_and_written(
    st: FsState,
    ino: u64,
    v: InodeView,
    off: int,
    count: int,
    data: Seq<u8>,
    now: u64,
)
    ensures
        v.kind() != 0x8000 ==> ops::read_at_node(st, Ok((ino, v)), off, count) == Err::<
            Seq<u8>,
            Error,
        >(Error::NotAFile),
        v.kind() != 0x8000 ==> ops::write_at_node(st, Ok((ino, v)), off, data, now) == (
            st,
            Err::<u64, Error>(Error::NotAFile),
        ),
        v.kind() == 0x8000 ==> ops::read_at_node(st, Ok((ino, v)), off, count)
            == model::read_file_data(st, v, off, count),
        v.kind() == 0x8000 && off + data.len() > usize::MAX ==> ops::write_at_node(
            st,
            Ok((ino, v)),
            off,
            data,
            now,
        ) == (st, Err::<u64, Error>(Error::InvalidArgument)),
{
}

/// Times that are set through a path are the file's times afterwards, each that was given; what
/// was not given stays, and so does everything else of the file but the time of its last change.
pub proof fn times_set_by_path(
    st: FsState,
    cs: Seq<Seq<char>>,
    ino: u64,
    v: InodeView,
    atime: Option<u64>,
    mtime: Option<u64>,
    now: u64,
)
    requires
        model::mounted(st),
        dirmodel::walk_path(st, cs, true) == Ok::<WalkView, Error>(WalkView::Node(ino, v)),
        model::read_inode(st, ino) == Ok::<InodeView, Error>(v),
        ops::set_times_at(st, cs, atime, mtime, now).1 is Ok,
    ensures
        ({
            let z = ops::set_times_at(st, cs, atime, mtime, now).0;
            model::read_inode(z, ino) matches Ok(j) && {
                &&& j.atime_sec == (if atime is Some {
                    atime->Some_0
                } else {
                    v.atime_sec
                })
                &&& j.mtime_sec == (if mtime is Some {
                    mtime->Some_0
                } else {
                    v.mtime_sec
                })
                &&& j.ctime_sec == now
                &&& j.size == v.size
                &&& j.mode == v.mode
                &&& j.flags == v.flags
                &&& j.link_count == v.link_count
                &&& j.data_area == v.data_area
                &&& j.blocks == v.blocks
                &&& j.orphan_next == v.orphan_next
            }
        }),
{
    let b = model::begin(st);
    contents::lemma_same_disk(st, b, ino);
    orphans::lemma_area(b, ino);
    let j = layout::stamped(
        InodeView {
            atime_sec: match atime {
                Some(s) => s,
                None => v.atime_sec,
            },
            atime_nsec: if atime is Some {
                0
            } else {
                v.atime_nsec
            },
            mtime_sec: match mtime {
                Some(s) => s,
                None => v.mtime_sec,
            },
            mtime_nsec: if mtime is Some {
                0
            } else {
                v.mtime_nsec
            },
            ctime_sec: now,
            ctime_nsec: 0,
            ..v
        },
    );
    orphans::lemma_inode_set(b, ino, j);
    let w = model::write_inode(b, ino, j).0;
    let z = model::ended(w, true);
    contents::lemma_same_disk(w, z, ino);
}

// ---- Listing ----------------------------------------------------------------------------------

/// Whether an entry is listed: all are but the directory itself and the one it is in.
pub open spec fn shown(e: EntryView) -> bool {
    e.name != seq!['.'] && e.name != seq!['.', '.']
}

/// Whether what is said of a file is what its entry and its inode say.
pub open spec fn said_of(st: FsState, e: EntryView, f: FileView) -> bool {
    &&& f.name == e.name
    &&& model::read_inode(st, e.ino) matches Ok(i) && {
        &&& f.size == i.size
        &&& f.kind == dirmodel::kind_of(i)
        &&& f.created == Some(dirmodel::stamp(i.ctime_sec))
        &&& f.accessed == Some(dirmodel::stamp(i.atime_sec))
        &&& f.modified == Some(dirmodel::stamp(i.mtime_sec))
    }
}

proof fn lemma_listed(st: FsState, es: Seq<EntryView>, k: int, acc: Seq<FileView>)
    requires
        0 <= k <= es.len(),
        dirmodel::list_entries(st, es, k, acc) is Ok,
        acc.len() == es.take(k).filter(|e: EntryView| shown(e)).len(),
        forall|j: int|
            0 <= j < acc.len() ==> said_of(
                st,
                es.take(k).filter(|e: EntryView| shown(e))[j],
                #[trigger] acc[j],
            ),
    ensures
        ({
            let fs = dirmodel::list_entries(st, es, k, acc)->Ok_0;
            let all = es.filter(|e: EntryView| shown(e));
            &&& fs.len() == all.len()
            &&& forall|j: int| 0 <= j < fs.len() ==> said_of(st, all[j], #[trigger] fs[j])
        }),
    decreases es.len() - k,
{
    let p = |e: EntryView| shown(e);
    if k >= es.len() {
        assert(es.take(k) =~= es);
    } else {
        let a = es.take(k);
        let b = es.take(k + 1);
        assert(b =~= a.push(es[k]));
        assert(b.drop_last() =~= a);
        assert(b.last() == es[k]);
        reveal(Seq::filter);
        let fa = a.filter(p);
        let fb = b.filter(p);
        assert(fb == (if p(es[k]) {
            fa.push(es[k])
        } else {
            fa
        }));
        if shown(es[k]) {
            let i = model::read_inode(st, es[k].ino)->Ok_0;
            let f = dirmodel::file_of(es[k].name, i);
            let acc1 = acc.push(f);
            assert forall|j: int| 0 <= j < acc1.len() implies said_of(
                st,
                fb[j],
                #[trigger] acc1[j],
            ) by {
                if j < acc.len() {
                    assert(acc1[j] == acc[j]);
                    assert(fb[j] == fa[j]);
                }
            }
            lemma_listed(st, es, k + 1, acc1);
        } else {
            lemma_listed(st, es, k + 1, acc);
        }
    }
}

/// A directory lists its entries, every one of them and in their order, apart from itself and the
/// one it is in, each with what its inode says of it.
pub proof fn directory_lists_its_entries(
    st: FsState,
    cs: Seq<Seq<char>>,
    d: u64,
    i: InodeView,
    es: Seq<EntryView>,
)
    requires
        dirmodel::walk_path(st, path::normalized(cs), true) == Ok::<WalkView, Error>(
            WalkView::Node(d, i),
        ),
        dirmodel::read_dir_entries(st, d) == Ok::<Seq<EntryView>, Error>(es),
        dirmodel::list_files(st, cs) is Ok,
    ensures
        ({
            let fs = dirmodel::list_files(st, cs)->Ok_0;
            let all = es.filter(|e: EntryView| shown(e));
            &&& fs.len() == all.len()
            &&& forall|j: int| 0 <= j < fs.len() ==> said_of(st, all[j], #[trigger] fs[j])
        }),
{
    reveal(dirmodel::list_files);
    reveal(Seq::filter);
    assert(es.take(0).filter(|e: EntryView| shown(e)).len() == 0);
    lemma_listed(st, es, 0, Seq::empty());
}

/// What is said of a file is what its inode says: its kind by the type in its mode, its size, and
/// its times, which are those of the inode as far as their packed form can hold them.
pub proof fn file_is_described(name: Seq<char>, i: InodeView)
    ensures
        ({
            let f = dirmodel::file_of(name, i);
            &&& f.name == name
            &&& f.size == i.size
            &&& f.kind is Directory <==> i.kind() == 0x4000
            &&& f.kind is File <==> i.kind() == 0x8000
            &&& f.kind is Symlink <==> i.kind() == 0xA000
            &&& f.kind is Fifo <==> i.kind() == 0x1000
            &&& f.created == Some(dirmodel::stamp(i.ctime_sec))
            &&& f.accessed == Some(dirmodel::stamp(i.atime_sec))
            &&& f.modified == Some(dirmodel::stamp(i.mtime_sec))
        }),
{
}

} // verus!
