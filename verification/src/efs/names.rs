//! Names in directories: what is added is found, what is removed is not.
//!
//! These laws speak of directories in order: their blocks are theirs, as for every file,
//! and they have one for each block of their size and no more.
use vstd::prelude::*;
use crate::bytes;
use crate::error::Error;
use super::contents;
use super::contents::Storage;
use super::dirent;
use super::dirent::EntryView;
use super::dirmodel;
use super::extents;
use super::layout;
use super::layout::{EfsExtent, InodeView, BLOCK_SIZE, S_IFDIR};
use super::model;
use super::model::FsState;

verus! {

/// Whether exactly the logical blocks below `n` are mapped, all to blocks of the device.
pub open spec fn dense(st: FsState, m: Seq<EfsExtent>, n: int) -> bool {
    forall|lb: u32|
        match #[trigger] extents::map_lookup(m, lb) {
            Some(p) => lb < n && model::has_block(st, p as int),
            None => lb >= n,
        }
}

/// Whether directory `ino`, with inode `i`, is in order: a file in order, in whole blocks
/// that are all there.
pub open spec fn dir_in_order(st: FsState, ino: u64, i: InodeView, s: Storage) -> bool {
    &&& contents::in_order(st, ino, i, s)
    &&& !i.inline()
    &&& i.kind() == S_IFDIR
    &&& i.size % 4096 == 0
    &&& i.size + 4096 <= contents::LIMIT
    &&& i.size + 8192 <= usize::MAX
    &&& dense(st, s.map, i.size as int / 4096)
}

/// What a directory holds.
pub open spec fn dir_bytes(st: FsState, m: Seq<EfsExtent>, size: int) -> Seq<u8> {
    Seq::new(size as nat, |pos: int| contents::byte_at(st, m, pos))
}

/// Whether both listings came, and the second has `e` more than the first.
pub open spec fn lists_one_more(
    a: Result<Seq<EntryView>, Error>,
    b: Result<Seq<EntryView>, Error>,
    e: EntryView,
) -> bool {
    a is Ok && b is Ok && dirent::one_more(a->Ok_0, b->Ok_0, e)
}

/// Whether a directory's records are in order and no name is entered twice.
pub open spec fn well_named(d: Seq<u8>) -> bool {
    &&& dirent::tiled(d, 0)
    &&& forall|n: Seq<u8>| #[trigger] dirent::times(d, 0, n) <= 1
}

/// In a map without holes the extents follow each other.
#[verifier::spinoff_prover]
#[verifier::rlimit(40)]
proof fn lemma_next(st: FsState, m: Seq<EfsExtent>, n: int, k: int)
    requires
        extents::valid_map(m),
        dense(st, m, n),
        0 <= n <= u32::MAX,
        0 <= k <= m.len(),
    ensures
        k < m.len() ==> m[k].logical_block == (if k == 0 {
            0
        } else {
            extents::ext_end(m[k - 1])
        }),
        k == m.len() ==> n == (if k == 0 {
            0
        } else {
            extents::ext_end(m[k - 1])
        }),
{
    let at = if k == 0 {
        0
    } else {
        extents::ext_end(m[k - 1])
    };
    if k > 0 {
        let last = (at - 1) as u32;
        assert(m[k - 1].length > 0);
        if at <= u32::MAX {
            extents::lookup_inside(m, last, k - 1);
            assert(extents::map_lookup(m, last) is Some);
            assert(last < n);
        } else {
            extents::lookup_inside(m, u32::MAX, k - 1);
            assert(extents::map_lookup(m, u32::MAX) is Some);
        }
    }
    if k < m.len() {
        let first = m[k].logical_block;
        extents::lookup_inside(m, first, k);
        assert(extents::map_lookup(m, first) is Some);
        assert(first < n);
        if k > 0 {
            assert(extents::ext_end(m[k - 1]) <= first);
        }
        if first > at {
            let gap = at as u32;
            assert(extents::map_lookup(m, gap) is Some);
            extents::lookup_between(m, gap, k);
        }
    } else if at < n {
        let gap = at as u32;
        assert(extents::map_lookup(m, gap) is Some);
        extents::lookup_between(m, gap, k);
    }
}

#[verifier::spinoff_prover]
#[verifier::rlimit(40)]
proof fn lemma_dir_blocks(st: FsState, m: Seq<EfsExtent>, k: int, j: int, size: int)
    requires
        model::mounted(st),
        extents::valid_map(m),
        0 <= size,
        size % 4096 == 0,
        size <= contents::LIMIT,
        size / 4096 <= u32::MAX,
        dense(st, m, size / 4096),
        0 <= k <= m.len(),
        0 <= j,
        k < m.len() ==> j <= m[k].length,
        k == m.len() ==> j == 0,
    ensures
        ({
            let at = if k < m.len() {
                m[k].logical_block + j
            } else {
                size / 4096
            };
            dirmodel::dir_blocks(
                st,
                m,
                k,
                j,
                size,
                dir_bytes(st, m, size).take(at * 4096),
            ) == Ok::<Seq<u8>, Error>(dir_bytes(st, m, size))
        }),
    decreases m.len() - k, (if 0 <= k < m.len() { m[k].length as int } else { 0 }) - j,
{
    let n = size / 4096;
    let d = dir_bytes(st, m, size);
    lemma_next(st, m, n, k);
    if k == m.len() {
        assert(d.take(n * 4096) =~= d);
    } else {
        lemma_next(st, m, n, k + 1);
        let at = m[k].logical_block + j;
        let acc = d.take(at * 4096);
        let last = extents::ext_end(m[k]) - 1;
        assert(last <= u32::MAX && last < n) by {
            if last > u32::MAX {
                extents::lookup_inside(m, u32::MAX, k);
                assert(extents::map_lookup(m, u32::MAX) is Some);
            } else {
                extents::lookup_inside(m, last as u32, k);
                assert(extents::map_lookup(m, last as u32) is Some);
            }
        }
        if j == m[k].length {
            if acc.len() >= size {
                assert(acc =~= d);
            } else {
                lemma_dir_blocks(st, m, k + 1, 0, size);
                if k + 1 == m.len() {
                    assert(at == n);
                }
            }
        } else {
            let lb = at as u32;
            extents::lookup_inside(m, lb, k);
            let p = extents::map_lookup(m, lb)->Some_0;
            assert(p == m[k].phys() + j);
            let b = contents::block(st, p as int);
            assert(model::has_block(st, p as int));
            assert(b.len() == 4096);
            let acc1 = acc + b.take(model::min(4096, size - acc.len()));
            assert(acc1 =~= d.take((at + 1) * 4096)) by {
                assert forall|x: int| at * 4096 <= x < (at + 1) * 4096 implies d[x] == b[x - at
                    * 4096] by {
                    contents::lemma_logical(x);
                    assert(x / 4096 == at);
                    assert(x % 4096 == x - at * 4096);
                }
            }
            lemma_dir_blocks(st, m, k, j + 1, size);
        }
    }
}

/// Reading a directory gives what it holds.
#[verifier::spinoff_prover]
#[verifier::rlimit(40)]
pub proof fn read_gives_dir_bytes(st: FsState, ino: u64, i: InodeView, s: Storage)
    requires
        dir_in_order(st, ino, i, s),
    ensures
        dirmodel::read_dir_data(st, i) == Ok::<Seq<u8>, Error>(
            dir_bytes(st, s.map, i.size as int),
        ),
{
    reveal(dirmodel::read_dir_data);
    let d = dir_bytes(st, s.map, i.size as int);
    if i.size == 0 {
        assert(d =~= Seq::empty());
    } else {
        let size = i.size as int;
        lemma_next(st, s.map, size / 4096, 0);
        lemma_dir_blocks(st, s.map, 0, 0, size);
        assert(d.take(0) =~= Seq::empty());
        if s.map.len() == 0 {
            assert(size / 4096 == 0);
        }
    }
}

// ---- Writing a directory back ---------------------------------------------------------------

/// Writing a block of a directory's data.
#[verifier::spinoff_prover]
#[verifier::rlimit(40)]
pub(crate) proof fn lemma_put_block(
    st: FsState,
    ino: u64,
    i: InodeView,
    s: Storage,
    lb: u32,
    p: u64,
    data: Seq<u8>,
)
    requires
        contents::in_order(st, ino, i, s),
        extents::map_lookup(s.map, lb) == Some(p),
        data.len() == 4096,
        model::has_block(st, p as int),
    ensures
        model::write_block(st, p as int, data).1 is Ok,
        ({
            let z = model::write_block(st, p as int, data).0;
            &&& contents::in_order(z, ino, i, s)
            &&& contents::same_shape(st, z)
            &&& z.bgds == st.bgds
            &&& contents::block(z, p as int) == data
            &&& forall|x: int|
                model::has_block(st, x) && x != p ==> #[trigger] contents::block(z, x)
                    == contents::block(st, x)
        }),
{
    contents::lemma_put_data(st, ino, i, s, lb, p, data);
    let a = model::write_data(st, p as int, data).0;
    let z = model::write_block(st, p as int, data).0;
    contents::lemma_same_disk(a, z, ino);
    assert(contents::in_order(a, ino, i, s));
    assert forall|x: int| model::has_block(st, x) && x != p implies #[trigger] contents::block(
        z,
        x,
    ) == contents::block(st, x) by {
        assert(contents::block(a, x) == contents::block(st, x));
    }
}

/// Whether the bytes below `w` are as in `a`, and those from `w` to the end of `data` are
/// those of `data`.
pub(crate) open spec fn replaced(
    a: FsState,
    z: FsState,
    m: Seq<EfsExtent>,
    data: Seq<u8>,
    w: int,
    pos: int,
) -> bool {
    contents::byte_at(z, m, pos) == (if pos < w {
        contents::byte_at(a, m, pos)
    } else {
        data[pos]
    })
}

/// Whether a map leads nowhere to block `x`.
pub(crate) open spec fn spared(m: Seq<EfsExtent>, x: int) -> bool {
    forall|lb: u32| (#[trigger] extents::map_lookup(m, lb)) matches Some(p) ==> p != x
}

#[verifier::spinoff_prover]
#[verifier::rlimit(40)]
pub(crate) proof fn lemma_put_blocks(
    st: FsState,
    ino: u64,
    i: InodeView,
    s: Storage,
    data: Seq<u8>,
    w: int,
)
    requires
        contents::in_order(st, ino, i, s),
        !i.inline(),
        data.len() % 4096 == 0,
        data.len() <= contents::LIMIT,
        dense(st, s.map, data.len() as int / 4096),
        0 <= w <= data.len(),
        w % 4096 == 0,
        dirmodel::put_dir_blocks(st, ino, data, w).1 is Ok,
    ensures
        ({
            let z = dirmodel::put_dir_blocks(st, ino, data, w).0;
            &&& contents::in_order(z, ino, i, s)
            &&& contents::same_shape(st, z)
            &&& z.bgds == st.bgds
            &&& dense(z, s.map, data.len() as int / 4096)
            &&& forall|pos: int|
                0 <= pos < data.len() ==> #[trigger] replaced(st, z, s.map, data, w, pos)
            &&& forall|x: int|
                model::has_block(st, x) && spared(s.map, x) ==> #[trigger] contents::block(z, x)
                    == contents::block(st, x)
        }),
    decreases data.len() - w,
{
    if w < data.len() {
        contents::lemma_logical(w);
        let lb = model::logical_block(w);
        assert(lb < data.len() as int / 4096);
        let p = extents::map_lookup(s.map, lb)->Some_0;
        assert(extents::map_lookup(s.map, lb) is Some);
        assert(model::ensure_block(st, ino, lb, false) == (st, Ok::<u64, Error>(p))) by {
            reveal(model::ensure_block);
        }
        let page = bytes::splice(
            bytes::zeros(BLOCK_SIZE as int),
            0,
            data.subrange(w, model::min(w + 4096, data.len() as int)),
        );
        assert(page =~= data.subrange(w, w + 4096));
        lemma_put_block(st, ino, i, s, lb, p, page);
        let st1 = model::write_block(st, p as int, page).0;
        assert(dense(st1, s.map, data.len() as int / 4096));
        lemma_put_blocks(st1, ino, i, s, data, w + 4096);
        let z = dirmodel::put_dir_blocks(st1, ino, data, w + 4096).0;
        contents::lemma_data_alone(st, ino, s, lb);
        assert forall|x: int| model::has_block(st, x) && spared(s.map, x) implies
            #[trigger] contents::block(z, x) == contents::block(st, x) by {
            assert(contents::block(st1, x) == contents::block(st, x));
        }
        assert forall|pos: int| 0 <= pos < data.len() implies #[trigger] replaced(
            st,
            z,
            s.map,
            data,
            w,
            pos,
        ) by {
            assert(replaced(st1, z, s.map, data, w + 4096, pos));
            contents::lemma_logical(pos);
            let o = model::logical_block(pos);
            assert(extents::map_lookup(s.map, o) is Some);
            if pos < w + 4096 {
                if o == lb {
                    assert(pos / 4096 == w / 4096);
                    assert(page[pos % 4096] == data[w + pos % 4096]);
                    assert(w + pos % 4096 == pos);
                    assert(pos >= w);
                } else {
                    assert(pos < w);
                    let q = extents::map_lookup(s.map, o)->Some_0;
                    assert(q != p);
                    assert(contents::block(st1, q as int) == contents::block(st, q as int));
                }
            }
        }
        assert(contents::same_shape(st, z)) by {
            assert forall|g: int| 0 <= g < st.bgds.len() implies (
            #[trigger] z.bgds[g]).block_bitmap_block == st.bgds[g].block_bitmap_block
                && z.bgds[g].inode_table_block == st.bgds[g].inode_table_block by {
                assert(st1.bgds[g].block_bitmap_block == st.bgds[g].block_bitmap_block);
            }
        }
    } else {
        assert forall|pos: int| 0 <= pos < data.len() implies #[trigger] replaced(
            st,
            st,
            s.map,
            data,
            w,
            pos,
        ) by {}
    }
}

/// Another inode in place of a directory's, with the same storage, leaves what the
/// directory holds.
#[verifier::spinoff_prover]
#[verifier::rlimit(40)]
pub(crate) proof fn lemma_redir(st: FsState, ino: u64, i: InodeView, s: Storage, j: InodeView, n: int)
    requires
        contents::in_order(st, ino, i, s),
        !i.inline(),
        dense(st, s.map, n),
        j.flags == i.flags,
        j.data_area == i.data_area,
        model::write_inode(st, ino, j).1 is Ok,
    ensures
        ({
            let z = model::write_inode(st, ino, j).0;
            &&& contents::in_order(z, ino, j, s)
            &&& contents::same_shape(st, z)
            &&& z.bgds == st.bgds
            &&& dense(z, s.map, n)
            &&& forall|size: int| #[trigger]
                dir_bytes(z, s.map, size) == dir_bytes(st, s.map, size)
        }),
{
    contents::lemma_inode_len(st, ino, i);
    contents::lemma_reinode(st, ino, i, s, j);
    contents::lemma_inode_page(st, ino, j);
    let z = model::write_inode(st, ino, j).0;
    assert forall|size: int| #[trigger] dir_bytes(z, s.map, size) == dir_bytes(
        st,
        s.map,
        size,
    ) by {
        let a = dir_bytes(z, s.map, size);
        let b = dir_bytes(st, s.map, size);
        assert forall|pos: int| 0 <= pos < a.len() implies a[pos] == b[pos] by {
            let o = model::logical_block(pos);
            match extents::map_lookup(s.map, o) {
                Some(p) => {
                    assert(model::has_block(st, p as int));
                },
                None => {},
            }
        }
        assert(a =~= b);
    }
}

pub(crate) proof fn lemma_shapes(a: FsState, m: FsState, z: FsState)
    requires
        contents::same_shape(a, m),
        contents::same_shape(m, z),
    ensures
        contents::same_shape(a, z),
{
    assert forall|g: int| 0 <= g < a.bgds.len() implies (
    #[trigger] z.bgds[g]).block_bitmap_block == a.bgds[g].block_bitmap_block
        && z.bgds[g].inode_table_block == a.bgds[g].inode_table_block by {
        assert(m.bgds[g].block_bitmap_block == a.bgds[g].block_bitmap_block);
    }
}

/// Writing a directory's contents back makes them its contents.
#[verifier::spinoff_prover]
#[verifier::rlimit(40)]
pub proof fn update_then_read_dir(
    st: FsState,
    ino: u64,
    i: InodeView,
    s: Storage,
    data: Seq<u8>,
    now: u64,
) -> (j: InodeView)
    requires
        dir_in_order(st, ino, i, s),
        data.len() == i.size,
        dirmodel::update_dir(st, ino, data, now).1 is Ok,
    ensures
        ({
            let z = dirmodel::update_dir(st, ino, data, now).0;
            &&& dir_in_order(z, ino, j, s)
            &&& contents::same_shape(st, z)
            &&& z.bgds == st.bgds
            &&& j.size == i.size
            &&& j.link_count == i.link_count
            &&& dir_bytes(z, s.map, j.size as int) == data
        }),
{
    let n = i.size as int / 4096;
    assert(dirmodel::write_dir_data(st, ino, data) == dirmodel::put_dir_blocks(st, ino, data, 0))
        by {
        reveal(dirmodel::write_dir_data);
    }
    lemma_put_blocks(st, ino, i, s, data, 0);
    let st1 = dirmodel::put_dir_blocks(st, ino, data, 0).0;
    let j = layout::stamped(InodeView { mtime_sec: now, ..i });
    assert(dirmodel::touch(st1, ino, now) == model::write_inode(st1, ino, j)) by {
        reveal(dirmodel::touch);
    }
    lemma_redir(st1, ino, i, s, j, n);
    let size = i.size as int;
    assert(dir_bytes(st1, s.map, size) =~= data) by {
        assert forall|pos: int| 0 <= pos < size implies contents::byte_at(st1, s.map, pos)
            == data[pos] by {
            assert(replaced(st, st1, s.map, data, 0, pos));
        }
    }
    lemma_shapes(st, st1, dirmodel::update_dir(st, ino, data, now).0);
    j
}

// ---- Laws -----------------------------------------------------------------------------------

/// Removing an entry leaves every other name of the directory as it was; the name itself
/// then leads to whatever else was entered under it. Where no name is entered twice that is
/// nothing, and no name is entered twice afterwards. The directory lists what it listed
/// before, without the entry that went.
#[verifier::spinoff_prover]
#[verifier::rlimit(40)]
pub proof fn remove_entry_then_lookup(
    st: FsState,
    ino: u64,
    i: InodeView,
    s: Storage,
    name: Seq<u8>,
    other: Seq<u8>,
    now: u64,
) -> (j: InodeView)
    requires
        dir_in_order(st, ino, i, s),
        dirent::tiled(dir_bytes(st, s.map, i.size as int), 0),
        dirmodel::remove_dir_entry(st, ino, name, now).1 is Ok,
    ensures
        ({
            let z = dirmodel::remove_dir_entry(st, ino, name, now).0;
            let d = dir_bytes(st, s.map, i.size as int);
            let off = dirent::find_from(d, 0, 0, name)->Some_0.0;
            &&& dir_in_order(z, ino, j, s)
            &&& contents::same_shape(st, z)
            &&& z.bgds == st.bgds
            &&& j.size == i.size
            &&& j.link_count == i.link_count
            &&& dirent::tiled(dir_bytes(z, s.map, j.size as int), 0)
            &&& other != name ==> dirmodel::lookup_in_dir(z, ino, other)
                == dirmodel::lookup_in_dir(st, ino, other)
            &&& dirmodel::lookup_in_dir(z, ino, name) == Ok::<Option<(u64, u8)>, Error>(
                dirent::lookup_from(d, off + dirent::rec_len(d, off), name),
            )
            &&& well_named(d) ==> well_named(dir_bytes(z, s.map, j.size as int))
                && dirmodel::lookup_in_dir(z, ino, name) == Ok::<Option<(u64, u8)>, Error>(None)
            &&& vstd::utf8::valid_utf8(name) ==> lists_one_more(
                dirmodel::read_dir_entries(z, ino),
                dirmodel::read_dir_entries(st, ino),
                dirent::listed(dirent::rec_ino(d, off), d[off + 11], name),
            )
        }),
{
    let d = dir_bytes(st, s.map, i.size as int);
    read_gives_dir_bytes(st, ino, i, s);
    assert(dirent::find_from(d, 0, 0, name) is Some) by {
        reveal(dirmodel::remove_dir_entry);
    }
    let (off, prev) = dirent::find_from(d, 0, 0, name)->Some_0;
    let e = dirent::removed(d, off, prev);
    assert(dirmodel::remove_dir_entry(st, ino, name, now) == dirmodel::update_dir(
        st,
        ino,
        e,
        now,
    )) by {
        reveal(dirmodel::remove_dir_entry);
    }
    assert(e.len() == d.len());
    let j = update_then_read_dir(st, ino, i, s, e, now);
    let z = dirmodel::update_dir(st, ino, e, now).0;
    read_gives_dir_bytes(z, ino, j, s);
    dirent::remove_then_lookup(d, name, other);
    dirent::remove_then_lookup(d, name, name);
    if well_named(d) {
        assert forall|n: Seq<u8>| #[trigger] dirent::times(e, 0, n) <= 1 by {
            dirent::remove_then_lookup(d, name, n);
            assert(dirent::times(d, 0, n) <= 1);
        }
        assert(dirent::times(d, 0, name) <= 1);
        dirent::entered_is_found(e, 0, name);
    }
    reveal(dirmodel::lookup_in_dir);
    reveal(dirmodel::read_dir_entries);
    j
}

/// Adding an entry in the spare room of a directory that lacks the name makes the name
/// lead to it, and leaves every other name as it was.
#[verifier::spinoff_prover]
#[verifier::rlimit(40)]
proof fn lemma_add_in_slot(
    st: FsState,
    ino: u64,
    i: InodeView,
    s: Storage,
    name: Seq<u8>,
    entry: u64,
    file_type: u8,
    other: Seq<u8>,
    now: u64,
) -> (j: InodeView)
    requires
        dir_in_order(st, ino, i, s),
        dirent::tiled(dir_bytes(st, s.map, i.size as int), 0),
        dirent::lookup_from(dir_bytes(st, s.map, i.size as int), 0, name) is None,
        dirent::slot_from(
            dir_bytes(st, s.map, i.size as int),
            0,
            dirent::min_size(name.len() as int),
        ) is Some,
        entry != 0,
        name.len() <= 255,
        dirmodel::add_dir_entry(st, ino, name, entry, file_type, now).1 is Ok,
    ensures
        ({
            let z = dirmodel::add_dir_entry(st, ino, name, entry, file_type, now).0;
            &&& dir_in_order(z, ino, j, s)
            &&& contents::same_shape(st, z)
            &&& j.link_count == i.link_count
            &&& dirent::tiled(dir_bytes(z, s.map, j.size as int), 0)
            &&& well_named(dir_bytes(st, s.map, i.size as int)) ==> well_named(
                dir_bytes(z, s.map, j.size as int),
            )
            &&& dirmodel::lookup_in_dir(z, ino, name) == Ok::<Option<(u64, u8)>, Error>(
                Some((entry, file_type)),
            )
            &&& other != name ==> dirmodel::lookup_in_dir(z, ino, other)
                == dirmodel::lookup_in_dir(st, ino, other)
            &&& vstd::utf8::valid_utf8(name) ==> lists_one_more(
                dirmodel::read_dir_entries(st, ino),
                dirmodel::read_dir_entries(z, ino),
                dirent::listed(entry, file_type, name),
            )
        }),
{
    let d = dir_bytes(st, s.map, i.size as int);
    read_gives_dir_bytes(st, ino, i, s);
    let off = dirent::slot_from(d, 0, dirent::min_size(name.len() as int))->Some_0;
    dirent::insert_then_lookup(d, entry, file_type, name, other);
    dirent::insert_then_lookup(d, entry, file_type, name, name);
    let e = dirent::place(d, off, entry, file_type, name)->Some_0;
    assert(dirmodel::add_dir_entry(st, ino, name, entry, file_type, now) == dirmodel::update_dir(
        st,
        ino,
        e,
        now,
    )) by {
        reveal(dirmodel::add_dir_entry);
    }
    let j = update_then_read_dir(st, ino, i, s, e, now);
    let z = dirmodel::update_dir(st, ino, e, now).0;
    read_gives_dir_bytes(z, ino, j, s);
    dirent::entered_is_found(d, 0, name);
    if well_named(d) {
        assert forall|n: Seq<u8>| #[trigger] dirent::times(e, 0, n) <= 1 by {
            dirent::insert_then_lookup(d, entry, file_type, name, n);
            assert(dirent::times(d, 0, n) <= 1);
        }
    }
    reveal(dirmodel::lookup_in_dir);
    reveal(dirmodel::read_dir_entries);
    j
}

/// What a directory holds once a block has been mapped at its end and written.
#[verifier::spinoff_prover]
#[verifier::rlimit(40)]
proof fn lemma_appended(
    st: FsState,
    s: Storage,
    st2: FsState,
    t: Storage,
    st3: FsState,
    size: int,
    p: u64,
    page: Seq<u8>,
)
    requires
        0 <= size,
        size % 4096 == 0,
        size + 4096 <= contents::LIMIT,
        dense(st, s.map, size / 4096),
        contents::same_shape(st, st2),
        contents::same_shape(st2, st3),
        page.len() == 4096,
        model::has_block(st, p as int),
        extents::map_lookup(t.map, model::logical_block(size)) == Some(p),
        forall|o: u32|
            o != model::logical_block(size) ==> #[trigger] extents::map_lookup(t.map, o)
                == extents::map_lookup(s.map, o) && extents::map_lookup(t.map, o) != Some(p),
        forall|o: u32|
            (#[trigger] extents::map_lookup(s.map, o)) is Some && model::has_block(
                st,
                extents::map_lookup(s.map, o)->Some_0 as int,
            ) ==> contents::block(st2, extents::map_lookup(s.map, o)->Some_0 as int)
                == contents::block(st, extents::map_lookup(s.map, o)->Some_0 as int),
        forall|x: int|
            model::has_block(st2, x) && x != p ==> #[trigger] contents::block(st3, x)
                == contents::block(st2, x),
        contents::block(st3, p as int) == page,
    ensures
        dense(st3, t.map, size / 4096 + 1),
        dir_bytes(st3, t.map, size + 4096) == dir_bytes(st, s.map, size) + page,
{
    let n = size / 4096;
    contents::lemma_logical(size);
    let lb = model::logical_block(size);
    let d = dir_bytes(st, s.map, size);
    let e = d + page;
    assert forall|o: u32|
        match #[trigger] extents::map_lookup(t.map, o) {
            Some(q) => o < n + 1 && model::has_block(st3, q as int),
            None => o >= n + 1,
        } by {
        if o != lb {
            assert(extents::map_lookup(t.map, o) == extents::map_lookup(s.map, o));
        }
    }
    assert forall|pos: int| 0 <= pos < size + 4096 implies contents::byte_at(st3, t.map, pos)
        == e[pos] by {
        contents::lemma_logical(pos);
        let o = model::logical_block(pos);
        if pos < size {
            assert(o < n);
            assert(extents::map_lookup(s.map, o) is Some);
            assert(extents::map_lookup(t.map, o) == extents::map_lookup(s.map, o));
            let q = extents::map_lookup(s.map, o)->Some_0;
            assert(q != p);
            assert(contents::block(st2, q as int) == contents::block(st, q as int));
            assert(contents::block(st3, q as int) == contents::block(st2, q as int));
            assert(d[pos] == contents::byte_at(st, s.map, pos));
        } else {
            assert(o == lb);
            assert(pos % 4096 == pos - size);
        }
    }
    assert(dir_bytes(st3, t.map, size + 4096) =~= e);
}

/// Adding an entry in a block of its own.
#[verifier::spinoff_prover]
#[verifier::rlimit(40)]
proof fn lemma_add_in_block(
    st: FsState,
    ino: u64,
    i: InodeView,
    s: Storage,
    name: Seq<u8>,
    entry: u64,
    file_type: u8,
    other: Seq<u8>,
    now: u64,
) -> (r: (InodeView, Storage))
    requires
        dir_in_order(st, ino, i, s),
        i.size + 8192 <= contents::LIMIT,
        i.size + 12288 <= usize::MAX,
        dirent::tiled(dir_bytes(st, s.map, i.size as int), 0),
        dirent::lookup_from(dir_bytes(st, s.map, i.size as int), 0, name) is None,
        dirent::slot_from(
            dir_bytes(st, s.map, i.size as int),
            0,
            dirent::min_size(name.len() as int),
        ) is None,
        entry != 0,
        name.len() <= 255,
        dirmodel::add_dir_entry(st, ino, name, entry, file_type, now).1 is Ok,
    ensures
        ({
            let z = dirmodel::add_dir_entry(st, ino, name, entry, file_type, now).0;
            &&& dir_in_order(z, ino, r.0, r.1)
            &&& contents::same_shape(st, z)
            &&& r.0.link_count == i.link_count
            &&& dirent::tiled(dir_bytes(z, r.1.map, r.0.size as int), 0)
            &&& well_named(dir_bytes(st, s.map, i.size as int)) ==> well_named(
                dir_bytes(z, r.1.map, r.0.size as int),
            )
            &&& dirmodel::lookup_in_dir(z, ino, name) == Ok::<Option<(u64, u8)>, Error>(
                Some((entry, file_type)),
            )
            &&& other != name ==> dirmodel::lookup_in_dir(z, ino, other)
                == dirmodel::lookup_in_dir(st, ino, other)
            &&& vstd::utf8::valid_utf8(name) ==> lists_one_more(
                dirmodel::read_dir_entries(st, ino),
                dirmodel::read_dir_entries(z, ino),
                dirent::listed(entry, file_type, name),
            )
        }),
{
    let size = i.size as int;
    let n = size / 4096;
    let d = dir_bytes(st, s.map, size);
    read_gives_dir_bytes(st, ino, i, s);
    contents::lemma_logical(size);
    let lb = model::logical_block(size);
    let page = dirent::entry_block(entry, file_type, name);
    let (st2, rp) = model::ensure_block(st, ino, lb, false);
    let p = rp->Ok_0;
    let st3 = model::write_block(st2, p as int, page).0;
    assert(dirmodel::add_dir_entry(st, ino, name, entry, file_type, now)
        == dirmodel::append_dir_block(st, ino, size, name, entry, file_type, now)) by {
        reveal(dirmodel::add_dir_entry);
    }
    assert(rp is Ok && model::has_block(st2, p as int)) by {
        reveal(dirmodel::append_dir_block);
    }
    contents::lemma_size_ensure(st, ino, lb, false);
    let (j1, t) = contents::lemma_ensure(st, ino, i, s, lb, false);
    assert(page.len() == 4096);
    lemma_put_block(st2, ino, j1, t, lb, p, page);
    let j = layout::stamped(InodeView { size: (size + 4096) as u64, mtime_sec: now, ..j1 });
    let z = model::write_inode(st3, ino, j).0;
    assert(dirmodel::append_dir_block(st, ino, size, name, entry, file_type, now)
        == model::write_inode(st3, ino, j)) by {
        reveal(dirmodel::append_dir_block);
    }
    contents::lemma_data_alone(st2, ino, t, lb);
    lemma_appended(st, s, st2, t, st3, size, p, page);
    lemma_redir(st3, ino, j1, t, j, n + 1);
    lemma_shapes(st, st2, st3);
    lemma_shapes(st, st3, z);
    dirent::append_then_lookup(d, entry, file_type, name, other);
    read_gives_dir_bytes(z, ino, j, t);
    assert(dir_bytes(z, t.map, size + 4096) == dir_bytes(st3, t.map, size + 4096));
    dirent::entered_is_found(d, 0, name);
    if well_named(d) {
        assert forall|n: Seq<u8>| #[trigger] dirent::times(d + page, 0, n) <= 1 by {
            dirent::append_then_lookup(d, entry, file_type, name, n);
            assert(dirent::times(d, 0, n) <= 1);
        }
    }
    reveal(dirmodel::lookup_in_dir);
    reveal(dirmodel::read_dir_entries);
    (j, t)
}

/// Adding an entry to a directory that lacks the name makes the name lead to it, and
/// leaves every other name of the directory as it was. Where no name is entered twice, none
/// is afterwards. The directory then lists what it listed before, and the new entry.
#[verifier::spinoff_prover]
#[verifier::rlimit(40)]
pub proof fn add_entry_then_lookup(
    st: FsState,
    ino: u64,
    i: InodeView,
    s: Storage,
    name: Seq<u8>,
    entry: u64,
    file_type: u8,
    other: Seq<u8>,
    now: u64,
) -> (r: (InodeView, Storage))
    requires
        dir_in_order(st, ino, i, s),
        i.size + 8192 <= contents::LIMIT,
        i.size + 12288 <= usize::MAX,
        dirent::tiled(dir_bytes(st, s.map, i.size as int), 0),
        dirmodel::lookup_in_dir(st, ino, name) == Ok::<Option<(u64, u8)>, Error>(None),
        entry != 0,
        name.len() <= 255,
        dirmodel::add_dir_entry(st, ino, name, entry, file_type, now).1 is Ok,
    ensures
        ({
            let z = dirmodel::add_dir_entry(st, ino, name, entry, file_type, now).0;
            &&& dir_in_order(z, ino, r.0, r.1)
            &&& contents::same_shape(st, z)
            &&& r.0.link_count == i.link_count
            &&& dirent::tiled(dir_bytes(z, r.1.map, r.0.size as int), 0)
            &&& well_named(dir_bytes(st, s.map, i.size as int)) ==> well_named(
                dir_bytes(z, r.1.map, r.0.size as int),
            )
            &&& dirmodel::lookup_in_dir(z, ino, name) == Ok::<Option<(u64, u8)>, Error>(
                Some((entry, file_type)),
            )
            &&& other != name ==> dirmodel::lookup_in_dir(z, ino, other)
                == dirmodel::lookup_in_dir(st, ino, other)
            &&& vstd::utf8::valid_utf8(name) ==> lists_one_more(
                dirmodel::read_dir_entries(st, ino),
                dirmodel::read_dir_entries(z, ino),
                dirent::listed(entry, file_type, name),
            )
        }),
{
    let d = dir_bytes(st, s.map, i.size as int);
    read_gives_dir_bytes(st, ino, i, s);
    assert(dirent::lookup_from(d, 0, name) is None) by {
        reveal(dirmodel::lookup_in_dir);
    }
    if dirent::slot_from(d, 0, dirent::min_size(name.len() as int)) is Some {
        let j = lemma_add_in_slot(st, ino, i, s, name, entry, file_type, other, now);
        (j, s)
    } else {
        lemma_add_in_block(st, ino, i, s, name, entry, file_type, other, now)
    }
}

} // verus!
