//! What the driver's operations on directories and names do to a volume.
use vstd::prelude::*;
use crate::bytes;
use crate::error::Error;
use crate::path;
use crate::types;
use crate::types::{FileKind, FileTime, FileView};
use super::dirent;
use super::dirent::EntryView;
use super::layout;
use super::layout::{EfsBlockGroupDesc, EfsExtent, InodeView, SuperblockView, BLOCK_SIZE, FT_DIR, INODE_DATA_AREA_SIZE, INODE_FLAG_INLINE_DATA, MAX_INLINE_EXTENTS, S_IFDIR, S_IFIFO, S_IFLNK, S_IFREG};
use super::model;
use super::model::FsState;

verus! {

// ---- Directory contents -------------------------------------------------------------

/// The first `size` bytes behind extents `k..` of a map, from block `j` of the first
/// one on, appended to `acc` and padded with zeros.
pub open spec fn dir_blocks(
    st: FsState,
    map: Seq<EfsExtent>,
    k: int,
    j: int,
    size: int,
    acc: Seq<u8>,
) -> Result<Seq<u8>, Error>
    decreases map.len() - k, (if 0 <= k < map.len() { map[k].length as int } else { 0 }) - j,
{
    if acc.len() >= size {
        Ok(acc)
    } else if k < 0 || k >= map.len() {
        Ok(acc + bytes::zeros(size - acc.len()))
    } else if j >= map[k].length {
        dir_blocks(st, map, k + 1, 0, size, acc)
    } else {
        match model::read_block(st, map[k].phys() + j) {
            Err(e) => Err(e),
            Ok(b) => dir_blocks(
                st,
                map,
                k,
                j + 1,
                size,
                acc + b.take(model::min(4096, size - acc.len())),
            ),
        }
    }
}

/// A directory's contents.
#[verifier::opaque]
pub open spec fn read_dir_data(st: FsState, i: InodeView) -> Result<Seq<u8>, Error> {
    if i.size == 0 {
        Ok(Seq::empty())
    } else if i.inline() {
        Ok(i.data_area.take(model::min(i.size as int, INODE_DATA_AREA_SIZE as int)))
    } else if i.size > usize::MAX - 4096 {
        Err(Error::Corrupted)
    } else {
        match model::load_map(st, i) {
            Err(e) => Err(e),
            Ok(m) => dir_blocks(st, m, 0, 0, i.size as int, Seq::empty()),
        }
    }
}

/// The entries of directory `ino`.
#[verifier::opaque]
pub open spec fn read_dir_entries(st: FsState, ino: u64) -> Result<Seq<EntryView>, Error> {
    match model::read_inode(st, ino) {
        Err(e) => Err(e),
        Ok(i) => if i.kind() != S_IFDIR {
            Err(Error::NotADir)
        } else {
            match read_dir_data(st, i) {
                Err(e) => Err(e),
                Ok(d) => Ok(dirent::list_from(d, 0)),
            }
        },
    }
}

/// What directory `ino` has under `name`.
#[verifier::opaque]
pub open spec fn lookup_in_dir(st: FsState, ino: u64, name: Seq<u8>) -> Result<
    Option<(u64, u8)>,
    Error,
> {
    match model::read_inode(st, ino) {
        Err(e) => Err(e),
        Ok(i) => if i.kind() != S_IFDIR {
            Err(Error::NotADir)
        } else {
            match read_dir_data(st, i) {
                Err(e) => Err(e),
                Ok(d) => Ok(dirent::lookup_from(d, 0, name)),
            }
        },
    }
}

/// Writes directory contents `data[w..]` block by block.
pub open spec fn put_dir_blocks(st: FsState, ino: u64, data: Seq<u8>, w: int) -> (
    FsState,
    Result<(), Error>,
)
    decreases data.len() + 4096 - w,
{
    if w >= data.len() {
        (st, Ok(()))
    } else {
        match model::ensure_block(st, ino, model::logical_block(w), false) {
            (st1, Err(e)) => (st1, Err(e)),
            (st1, Ok(p)) => match model::write_block(
                st1,
                p as int,
                bytes::splice(
                    bytes::zeros(BLOCK_SIZE as int),
                    0,
                    data.subrange(w, model::min(w + 4096, data.len() as int)),
                ),
            ) {
                (st2, Err(e)) => (st2, Err(e)),
                (st2, Ok(_)) => put_dir_blocks(st2, ino, data, w + 4096),
            },
        }
    }
}

/// Writes a directory's contents back.
#[verifier::opaque]
pub open spec fn write_dir_data(st: FsState, ino: u64, data: Seq<u8>) -> (
    FsState,
    Result<(), Error>,
) {
    match model::read_inode(st, ino) {
        Err(e) => (st, Err(e)),
        Ok(i) => if i.inline() {
            model::write_inode(
                st,
                ino,
                layout::stamped(
                    InodeView {
                        data_area: bytes::splice(
                            i.data_area,
                            0,
                            data.take(
                                model::min(data.len() as int, INODE_DATA_AREA_SIZE as int),
                            ),
                        ),
                        ..i
                    },
                ),
            )
        } else {
            put_dir_blocks(st, ino, data, 0)
        },
    }
}

/// Stamps an inode as modified at `now`.
#[verifier::opaque]
pub open spec fn touch(st: FsState, ino: u64, now: u64) -> (FsState, Result<(), Error>) {
    match model::read_inode(st, ino) {
        Err(e) => (st, Err(e)),
        Ok(i) => model::write_inode(
            st,
            ino,
            layout::stamped(InodeView { mtime_sec: now, ..i }),
        ),
    }
}

/// Writes a directory's contents back and stamps it as modified.
pub open spec fn update_dir(st: FsState, ino: u64, data: Seq<u8>, now: u64) -> (
    FsState,
    Result<(), Error>,
) {
    match write_dir_data(st, ino, data) {
        (st1, Err(e)) => (st1, Err(e)),
        (st1, Ok(_)) => touch(st1, ino, now),
    }
}

/// Appends a block that holds a single entry to a directory of `size` bytes.
#[verifier::opaque]
pub open spec fn append_dir_block(
    st: FsState,
    ino: u64,
    size: int,
    name: Seq<u8>,
    entry: u64,
    file_type: u8,
    now: u64,
) -> (FsState, Result<(), Error>) {
    match model::read_inode(st, ino) {
        Err(e) => (st, Err(e)),
        Ok(i) => match if i.inline() {
            model::convert_inline(st, ino, i)
        } else {
            (st, Ok(()))
        } {
            (st1, Err(e)) => (st1, Err(e)),
            (st1, Ok(_)) => match model::ensure_block(
                st1,
                ino,
                model::logical_block(size),
                false,
            ) {
                (st2, Err(e)) => (st2, Err(e)),
                (st2, Ok(p)) => match model::write_block(
                    st2,
                    p as int,
                    bytes::splice(
                        bytes::zeros(BLOCK_SIZE as int),
                        0,
                        dirent::enc_dirent(entry, 4096, file_type, name),
                    ),
                ) {
                    (st3, Err(e)) => (st3, Err(e)),
                    (st3, Ok(_)) => match model::read_inode(st3, ino) {
                        Err(e) => (st3, Err(e)),
                        Ok(j) => model::write_inode(
                            st3,
                            ino,
                            layout::stamped(
                                InodeView { size: (size + 4096) as u64, mtime_sec: now, ..j },
                            ),
                        ),
                    },
                },
            },
        },
    }
}

/// Adds an entry to directory `ino`: in the spare room of the first record that has
/// enough, or in a new block.
#[verifier::opaque]
pub open spec fn add_dir_entry(
    st: FsState,
    ino: u64,
    name: Seq<u8>,
    entry: u64,
    file_type: u8,
    now: u64,
) -> (FsState, Result<(), Error>) {
    match model::read_inode(st, ino) {
        Err(e) => (st, Err(e)),
        Ok(i) => match read_dir_data(st, i) {
            Err(e) => (st, Err(e)),
            Ok(d) => match dirent::slot_from(d, 0, dirent::min_size(name.len() as int)) {
                Some(off) => match dirent::place(d, off, entry, file_type, name) {
                    None => (st, Err(Error::Corrupted)),
                    Some(d1) => update_dir(st, ino, d1, now),
                },
                None => if i.size > usize::MAX - 4096 {
                    (st, Err(Error::Corrupted))
                } else {
                    append_dir_block(st, ino, i.size as int, name, entry, file_type, now)
                },
            },
        },
    }
}

/// Removes the entry `name` from directory `ino`.
#[verifier::opaque]
pub open spec fn remove_dir_entry(st: FsState, ino: u64, name: Seq<u8>, now: u64) -> (
    FsState,
    Result<(), Error>,
) {
    match model::read_inode(st, ino) {
        Err(e) => (st, Err(e)),
        Ok(i) => match read_dir_data(st, i) {
            Err(e) => (st, Err(e)),
            Ok(d) => match dirent::find_from(d, 0, 0, name) {
                None => (st, Err(Error::FileNotFound)),
                Some((off, prev)) => update_dir(st, ino, dirent::removed(d, off, prev), now),
            },
        },
    }
}

/// Makes the `..` entry of directory `ino` name `parent`.
#[verifier::opaque]
pub open spec fn update_dotdot(st: FsState, ino: u64, parent: u64) -> (
    FsState,
    Result<(), Error>,
) {
    match model::read_inode(st, ino) {
        Err(e) => (st, Err(e)),
        Ok(i) => match read_dir_data(st, i) {
            Err(e) => (st, Err(e)),
            Ok(d) => match dirent::dotdot_from(d, 0) {
                None => (st, Err(Error::FileNotFound)),
                Some(off) => write_dir_data(
                    st,
                    ino,
                    bytes::splice(d, off, bytes::bytes64(parent)),
                ),
            },
        },
    }
}

// ---- Superblock and orphans ---------------------------------------------------------

/// Writes the superblock, its checksum brought up to date, to block 1.
#[verifier::opaque]
pub open spec fn write_superblock(st: FsState) -> (FsState, Result<(), Error>) {
    let sb = SuperblockView { checksum: layout::superblock_checksum(st.sb), ..st.sb };
    model::write_block(
        FsState { sb, ..st },
        1,
        bytes::splice(bytes::zeros(BLOCK_SIZE as int), 0, layout::enc_superblock(sb)),
    )
}

/// The block that holds descriptors `64 * k..` of the table.
pub open spec fn bgd_bytes(bgds: Seq<EfsBlockGroupDesc>, from: int, to: int) -> Seq<u8>
    decreases to - from,
{
    if from >= to {
        Seq::empty()
    } else {
        bgd_bytes(bgds, from, to - 1) + layout::enc_bgd(bgds[to - 1])
    }
}

/// The block that holds descriptors `64 * k..` of the table.
pub open spec fn bgd_block(bgds: Seq<EfsBlockGroupDesc>, k: int) -> Seq<u8> {
    bytes::splice(
        bytes::zeros(BLOCK_SIZE as int),
        0,
        bgd_bytes(bgds, k * 64, model::min(k * 64 + 64, bgds.len() as int)),
    )
}

/// Writes blocks `k..` of the descriptor table.
pub open spec fn write_bgds(st: FsState, bgds: Seq<EfsBlockGroupDesc>, k: int) -> (
    FsState,
    Result<(), Error>,
)
    decreases bgds.len() + 64 - k * 64,
{
    if k * 64 >= bgds.len() {
        (st, Ok(()))
    } else {
        match model::write_block(st, 2 + k, bgd_block(bgds, k)) {
            (st1, Err(e)) => (st1, Err(e)),
            (st1, Ok(_)) => write_bgds(st1, bgds, k + 1),
        }
    }
}

/// Writes the superblock and the descriptor table.
#[verifier::opaque]
pub open spec fn flush_metadata(st: FsState) -> (FsState, Result<(), Error>) {
    match write_superblock(st) {
        (st1, Err(e)) => (st1, Err(e)),
        (st1, Ok(_)) => write_bgds(st1, st1.bgds, 0),
    }
}

/// Puts `ino` at the head of the orphan chain.
#[verifier::opaque]
pub open spec fn orphan_add(st: FsState, ino: u64) -> (FsState, Result<(), Error>) {
    let head = st.sb.last_orphan;
    let st0 = FsState {
        sb: SuperblockView { last_orphan: (ino % 0x1_0000_0000) as u32, ..st.sb },
        ..st
    };
    match model::read_inode(st0, ino) {
        Err(e) => (st0, Err(e)),
        Ok(i) => match model::write_inode(
            st0,
            ino,
            layout::stamped(InodeView { orphan_next: head, link_count: 0, ..i }),
        ) {
            (st1, Err(e)) => (st1, Err(e)),
            (st1, Ok(_)) => match write_superblock(st1) {
                (st2, Err(e)) => (st2, Err(e)),
                (st2, Ok(_)) => (
                    FsState {
                        orphans: if head != 0 {
                            st2.orphans.insert(ino, 0).insert(head as u64, ino)
                        } else {
                            st2.orphans.insert(ino, 0)
                        },
                        ..st2
                    },
                    Ok(()),
                ),
            },
        },
    }
}

/// Unlinks `ino` from the orphan chain; one that is not on it is left alone.
#[verifier::opaque]
pub open spec fn orphan_del(st: FsState, ino: u64) -> (FsState, Result<(), Error>) {
    if !st.orphans.contains_key(ino) {
        (st, Ok(()))
    } else {
        let prev = st.orphans[ino];
        let st0 = FsState { orphans: st.orphans.remove(ino), ..st };
        match model::read_inode(st0, ino) {
            Err(e) => (st0, Err(e)),
            Ok(i) => {
                let next = i.orphan_next;
                match if prev == 0 {
                    write_superblock(
                        FsState { sb: SuperblockView { last_orphan: next, ..st0.sb }, ..st0 },
                    )
                } else {
                    match model::read_inode(st0, prev) {
                        Err(e) => (st0, Err(e)),
                        Ok(p) => model::write_inode(
                            st0,
                            prev,
                            layout::stamped(InodeView { orphan_next: next, ..p }),
                        ),
                    }
                } {
                    (st1, Err(e)) => (st1, Err(e)),
                    (st1, Ok(_)) => (
                        if next != 0 {
                            FsState { orphans: st1.orphans.insert(next as u64, prev), ..st1 }
                        } else {
                            st1
                        },
                        Ok(()),
                    ),
                }
            },
        }
    }
}

/// Frees the blocks of an inode and the inode itself.
#[verifier::opaque]
pub open spec fn free_file_storage(st: FsState, ino: u64, i: InodeView) -> (
    FsState,
    Result<(), Error>,
) {
    match if i.inline() {
        (st, Ok(()))
    } else {
        model::free_extent_storage(st, i)
    } {
        (st1, Err(e)) => (st1, Err(e)),
        (st1, Ok(_)) => model::free_inode(st1, ino),
    }
}

/// Frees one orphan and moves the head of the chain to `next`.
pub open spec fn reclaim_orphan(st: FsState, ino: u64, i: InodeView, next: u32) -> (
    FsState,
    Result<(), Error>,
) {
    match free_file_storage(st, ino, i) {
        (st1, Err(e)) => (st1, Err(e)),
        (st1, Ok(_)) => write_superblock(
            FsState { sb: SuperblockView { last_orphan: next, ..st1.sb }, ..st1 },
        ),
    }
}

/// Walks the orphan chain from `ino`, freeing each inode in a transaction of its own
/// and counting them. A cycle, an unreadable inode or a failed free ends the walk.
pub open spec fn reclaim_orphans(st: FsState, ino: u64, seen: Set<u64>, freed: int) -> (FsState, int)
    decreases 0xFFFF_FFFF - freed,
{
    if ino == 0 || seen.contains(ino) || freed >= 0xFFFF_FFFF {
        (st, freed)
    } else {
        match model::read_inode(st, ino) {
            Err(_) => (st, freed),
            Ok(i) => match model::finish(
                reclaim_orphan(model::begin(st), ino, i, i.orphan_next),
            ) {
                (st1, Err(_)) => (st1, freed),
                (st1, Ok(_)) => reclaim_orphans(
                    st1,
                    i.orphan_next as u64,
                    seen.insert(ino),
                    freed + 1,
                ),
            },
        }
    }
}

// ---- Creating and removing ----------------------------------------------------------

/// A new inode of the given mode and flags.
pub open spec fn new_inode(mode: u16, flags: u32, now: u64) -> InodeView {
    layout::stamped(InodeView { flags, ..layout::fresh_inode(mode, now, 0) })
}

/// Allocates an inode, writes `i` there and enters it in directory `parent`.
#[verifier::opaque]
pub open spec fn create_entry(
    st: FsState,
    parent: u64,
    name: Seq<u8>,
    i: InodeView,
    file_type: u8,
    now: u64,
) -> (FsState, Result<(), Error>) {
    match model::alloc_inode(st) {
        (st1, Err(e)) => (st1, Err(e)),
        (st1, Ok(ino)) => match model::write_inode(st1, ino, i) {
            (st2, Err(e)) => (st2, Err(e)),
            (st2, Ok(_)) => add_dir_entry(st2, parent, name, ino, file_type, now),
        },
    }
}

/// The inode of a new regular file.
pub open spec fn new_file_inode(now: u64) -> InodeView {
    new_inode(0x81A4, INODE_FLAG_INLINE_DATA, now)
}

/// The inode of a new FIFO.
pub open spec fn new_fifo_inode(now: u64) -> InodeView {
    new_inode(0x11A4, INODE_FLAG_INLINE_DATA, now)
}

/// The inode of a new symbolic link.
pub open spec fn new_symlink_inode(target: Seq<u8>, now: u64) -> InodeView {
    let i = new_inode(0xA1FF, INODE_FLAG_INLINE_DATA, now);
    layout::stamped(
        InodeView {
            data_area: bytes::splice(i.data_area, 0, target),
            size: target.len() as u64,
            ..i
        },
    )
}

/// The inode of a new directory whose one block is `phys`.
pub open spec fn new_dir_inode(phys: u64, now: u64) -> InodeView {
    layout::stamped(
        InodeView {
            link_count: 2,
            size: BLOCK_SIZE as u64,
            blocks: 1,
            data_area: layout::enc_node(
                INODE_DATA_AREA_SIZE as int,
                0,
                MAX_INLINE_EXTENTS as u16,
                seq![EfsExtent::make(0, 1, phys)],
            ),
            ..layout::fresh_inode(0x41ED, now, 0)
        },
    )
}

/// Adjusts an inode's link count by one; it never goes below zero.
#[verifier::opaque]
pub open spec fn adjust_links(st: FsState, ino: u64, up: bool) -> (FsState, Result<(), Error>) {
    match model::read_inode(st, ino) {
        Err(e) => (st, Err(e)),
        Ok(i) => model::write_inode(
            st,
            ino,
            layout::stamped(
                InodeView {
                    link_count: (if up {
                        if i.link_count == u16::MAX {
                            0
                        } else {
                            i.link_count + 1
                        }
                    } else if i.link_count > 0 {
                        i.link_count - 1
                    } else {
                        0
                    }) as u16,
                    ..i
                },
            ),
        ),
    }
}

/// Counts one directory more, or less, in the group of inode `ino`.
pub open spec fn count_dir(st: FsState, ino: u64, up: bool) -> FsState {
    let g = (ino - 1) / st.sb.inodes_per_group as int;
    let st1 = if 0 <= g < st.bgds.len() && (up || st.bgds[g].used_dirs_count > 0) {
        let d = st.bgds[g];
        FsState {
            bgds: st.bgds.update(
                g,
                EfsBlockGroupDesc {
                    used_dirs_count: if up {
                        model::inc64(d.used_dirs_count)
                    } else {
                        model::sub64(d.used_dirs_count, 1)
                    },
                    ..d
                },
            ),
            ..st
        }
    } else {
        st
    };
    model::enroll(st1, 2 + g / 64)
}

/// Creates a directory.
#[verifier::opaque]
pub open spec fn create_dir(st: FsState, parent: u64, name: Seq<u8>, now: u64) -> (
    FsState,
    Result<(), Error>,
) {
    match model::alloc_inode(st) {
        (st1, Err(e)) => (st1, Err(e)),
        (st1, Ok(ino)) => match model::alloc_block(st1) {
            (st2, Err(e)) => (st2, Err(e)),
            (st2, Ok(p)) => match model::write_block(
                st2,
                p as int,
                dirent::new_dir_block(ino, parent),
            ) {
                (st3, Err(e)) => (st3, Err(e)),
                (st3, Ok(_)) => match model::write_inode(st3, ino, new_dir_inode(p, now)) {
                    (st4, Err(e)) => (st4, Err(e)),
                    (st4, Ok(_)) => match adjust_links(st4, parent, true) {
                        (st5, Err(e)) => (st5, Err(e)),
                        (st5, Ok(_)) => add_dir_entry(
                            count_dir(st5, ino, true),
                            parent,
                            name,
                            ino,
                            FT_DIR,
                            now,
                        ),
                    },
                },
            },
        },
    }
}

/// Unnames a file. A symbolic link's storage is freed; anything else joins the orphan
/// chain until its last user is gone.
#[verifier::opaque]
pub open spec fn remove_file(
    st: FsState,
    parent: u64,
    ino: u64,
    i: InodeView,
    name: Seq<u8>,
    now: u64,
) -> (FsState, Result<(), Error>) {
    match remove_dir_entry(st, parent, name, now) {
        (st1, Err(e)) => (st1, Err(e)),
        (st1, Ok(_)) => if i.kind() == S_IFLNK {
            free_file_storage(st1, ino, i)
        } else {
            orphan_add(st1, ino)
        },
    }
}

/// Removes an empty directory.
#[verifier::opaque]
pub open spec fn remove_dir(
    st: FsState,
    parent: u64,
    ino: u64,
    i: InodeView,
    name: Seq<u8>,
    now: u64,
) -> (FsState, Result<(), Error>) {
    match free_file_storage(st, ino, i) {
        (st1, Err(e)) => (st1, Err(e)),
        (st1, Ok(_)) => match adjust_links(st1, parent, false) {
            (st2, Err(e)) => (st2, Err(e)),
            (st2, Ok(_)) => remove_dir_entry(count_dir(st2, ino, false), parent, name, now),
        },
    }
}

/// Clears the way for a rename: whatever non-directory has the new name already is
/// unnamed.
pub open spec fn replace_target(
    st: FsState,
    parent: u64,
    moved: u64,
    name: Seq<u8>,
    now: u64,
) -> (FsState, Result<(), Error>) {
    match lookup_in_dir(st, parent, name) {
        Err(e) => (st, Err(e)),
        Ok(None) => (st, Ok(())),
        Ok(Some((victim, _))) => if victim == moved {
            (st, Ok(()))
        } else {
            match model::read_inode(st, victim) {
                Err(e) => (st, Err(e)),
                Ok(v) => if v.kind() == S_IFDIR {
                    (st, Err(Error::NotAFile))
                } else {
                    remove_file(st, parent, victim, v, name, now)
                },
            }
        },
    }
}

/// Moves an entry from one directory and name to another, replacing what is there.
#[verifier::opaque]
pub open spec fn rename(
    st: FsState,
    old_parent: u64,
    new_parent: u64,
    ino: u64,
    i: InodeView,
    old_name: Seq<u8>,
    new_name: Seq<u8>,
    now: u64,
) -> (FsState, Result<(), Error>) {
    match replace_target(st, new_parent, ino, new_name, now) {
        (st1, Err(e)) => (st1, Err(e)),
        (st1, Ok(_)) => match remove_dir_entry(st1, old_parent, old_name, now) {
            (st2, Err(e)) => (st2, Err(e)),
            (st2, Ok(_)) => match add_dir_entry(
                st2,
                new_parent,
                new_name,
                ino,
                layout::dir_entry_type(i.mode),
                now,
            ) {
                (st3, Err(e)) => (st3, Err(e)),
                (st3, Ok(_)) => if i.kind() == S_IFDIR && old_parent != new_parent {
                    match update_dotdot(st3, ino, new_parent) {
                        (st4, Err(e)) => (st4, Err(e)),
                        (st4, Ok(_)) => match adjust_links(st4, old_parent, false) {
                            (st5, Err(e)) => (st5, Err(e)),
                            (st5, Ok(_)) => adjust_links(st5, new_parent, true),
                        },
                    }
                } else {
                    (st3, Ok(()))
                },
            },
        },
    }
}

// ---- Paths --------------------------------------------------------------------------

/// Where a path walk stopped: at an inode, or at a symbolic link that leads to
/// another path.
#[verifier::ext_equal]
pub enum WalkView {
    Node(u64, InodeView),
    Escaped(Seq<Seq<char>>),
}

/// The target of a symbolic link, which its inode holds inline.
pub open spec fn symlink_target(i: InodeView) -> Result<Seq<char>, Error> {
    if !i.inline() || i.size > INODE_DATA_AREA_SIZE {
        Err(Error::Corrupted)
    } else if vstd::utf8::valid_utf8(i.data_area.take(i.size as int)) {
        Ok(vstd::utf8::decode_utf8(i.data_area.take(i.size as int)))
    } else {
        Err(Error::Corrupted)
    }
}

/// Walks the components from `k` on, starting at inode `at`. A symbolic link ends the
/// walk, except that a last one is passed over when `follow` is false.
pub open spec fn walk(
    st: FsState,
    cs: Seq<Seq<char>>,
    follow: bool,
    k: int,
    at: u64,
) -> Result<WalkView, Error>
    decreases cs.len() - k,
{
    if k >= cs.len() {
        match model::read_inode(st, at) {
            Err(e) => Err(e),
            Ok(i) => Ok(WalkView::Node(at, i)),
        }
    } else {
        match lookup_in_dir(st, at, vstd::utf8::encode_utf8(cs[k])) {
            Err(e) => Err(e),
            Ok(None) => Err(Error::FileNotFound),
            Ok(Some((ino, _))) => match model::read_inode(st, ino) {
                Err(e) => Err(e),
                Ok(i) => if i.kind() == S_IFLNK && (k + 1 < cs.len() || follow) {
                    match symlink_target(i) {
                        Err(e) => Err(e),
                        Ok(t) => Ok(WalkView::Escaped(path::spliced(cs.take(k), t, cs.skip(k + 1)))),
                    }
                } else {
                    walk(st, cs, follow, k + 1, ino)
                },
            },
        }
    }
}

/// Walks a path from the root.
#[verifier::opaque]
pub open spec fn walk_path(st: FsState, cs: Seq<Seq<char>>, follow: bool) -> Result<
    WalkView,
    Error,
> {
    walk(st, cs, follow, 0, layout::EFS_ROOT_INO)
}

/// The inode a path names.
pub open spec fn resolve(st: FsState, cs: Seq<Seq<char>>, follow: bool) -> Result<
    (u64, InodeView),
    Error,
> {
    match walk_path(st, cs, follow) {
        Err(e) => Err(e),
        Ok(WalkView::Node(ino, i)) => Ok((ino, i)),
        Ok(WalkView::Escaped(_)) => Err(Error::LinkEscape),
    }
}

/// The directory that holds the last component of a path.
pub open spec fn resolve_parent(st: FsState, cs: Seq<Seq<char>>) -> Result<u64, Error> {
    match resolve(
        st,
        if cs.len() == 0 {
            cs
        } else {
            cs.drop_last()
        },
        true,
    ) {
        Err(e) => Err(e),
        Ok((ino, _)) => Ok(ino),
    }
}

/// What kind of file an inode is.
pub open spec fn kind_of(i: InodeView) -> FileKind {
    if i.kind() == S_IFDIR {
        FileKind::Directory
    } else if i.kind() == S_IFREG {
        FileKind::File
    } else if i.kind() == S_IFLNK {
        FileKind::Symlink
    } else if i.kind() == S_IFIFO {
        FileKind::Fifo
    } else {
        FileKind::Special
    }
}

/// A Unix time stamp in its packed form.
pub open spec fn stamp(secs: u64) -> FileTime {
    if types::date_of(secs).year < 1980 {
        types::first_packed()
    } else {
        types::packed(types::date_of(secs))
    }
}

/// What is said of a file with this name and inode.
pub open spec fn file_of(name: Seq<char>, i: InodeView) -> FileView {
    FileView {
        name,
        kind: kind_of(i),
        size: i.size,
        attrs: types::no_attrs(),
        created: Some(stamp(i.ctime_sec)),
        accessed: Some(stamp(i.atime_sec)),
        modified: Some(stamp(i.mtime_sec)),
    }
}

/// What is said of the entries from `k` on, `.` and `..` left out.
pub open spec fn list_entries(st: FsState, es: Seq<EntryView>, k: int, acc: Seq<FileView>) -> Result<
    Seq<FileView>,
    Error,
>
    decreases es.len() - k,
{
    if k >= es.len() {
        Ok(acc)
    } else if es[k].name == path::dot() || es[k].name == path::dotdot() {
        list_entries(st, es, k + 1, acc)
    } else {
        match model::read_inode(st, es[k].ino) {
            Err(e) => Err(e),
            Ok(i) => list_entries(st, es, k + 1, acc.push(file_of(es[k].name, i))),
        }
    }
}

/// What a directory lists.
#[verifier::opaque]
pub open spec fn list_files(st: FsState, cs: Seq<Seq<char>>) -> Result<Seq<FileView>, Error> {
    match resolve(st, path::normalized(cs), true) {
        Err(e) => Err(e),
        Ok((ino, _)) => match read_dir_entries(st, ino) {
            Err(e) => Err(e),
            Ok(es) => list_entries(st, es, 0, Seq::empty()),
        },
    }
}

/// Whether a listing has anything but `.` and `..`.
pub open spec fn occupied(es: Seq<EntryView>) -> bool {
    exists|k: int|
        0 <= k < es.len() && (#[trigger] es[k]).name != path::dot() && es[k].name != path::dotdot()
}

/// The name a path ends in.
pub open spec fn last_name(cs: Seq<Seq<char>>) -> Seq<u8> {
    vstd::utf8::encode_utf8(cs.last())
}

/// Runs `op` in directory `parent` of a path whose last component names what is to be
/// made: `on_root` is the error when there is no last component.
pub open spec fn make_target(st: FsState, cs: Seq<Seq<char>>, on_root: Error) -> Result<u64, Error> {
    if cs.len() == 0 {
        Err(on_root)
    } else {
        match resolve_parent(st, cs) {
            Err(e) => Err(e),
            Ok(parent) => match model::read_inode(st, parent) {
                Err(e) => Err(e),
                Ok(i) => if i.kind() != S_IFDIR {
                    Err(Error::NotADir)
                } else {
                    Ok(parent)
                },
            },
        }
    }
}

/// Like [`make_target`], and the name must be free: `taken` is the error when it is
/// not.
pub open spec fn make_fresh(
    st: FsState,
    cs: Seq<Seq<char>>,
    on_root: Error,
    taken: Error,
) -> Result<u64, Error> {
    match make_target(st, cs, on_root) {
        Err(e) => Err(e),
        Ok(parent) => match lookup_in_dir(st, parent, last_name(cs)) {
            Err(e) => Err(e),
            Ok(Some(_)) => Err(taken),
            Ok(None) => Ok(parent),
        },
    }
}

} // verus!
