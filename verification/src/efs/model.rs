//! What a mounted volume is, and what each operation of the driver does to it.
//!
//! An operation is a function from state to state and result. The state also
//! changes when an operation fails half way: what was already written stays
//! written, and the transaction it was staged in is then aborted.
use vstd::prelude::*;
use crate::block_device;
use crate::block_device::Pages;
use crate::bytes;
use crate::error::Error;
use super::bitmap;
use super::extents;
use super::layout;
use super::layout::{EfsBlockGroupDesc, EfsExtent, InodeView, SuperblockView, BLOCK_SIZE, EXTENT_MAGIC, INODE_DATA_AREA_SIZE, MAX_INLINE_EXTENTS};

verus! {

/// A mounted volume.
#[verifier::ext_equal]
pub struct FsState {
    /// The device's pages.
    pub pages: Pages,
    /// Page of the volume's block 0.
    pub base: int,
    pub sb: SuperblockView,
    pub bgds: Seq<EfsBlockGroupDesc>,
    /// For every inode pending deletion, the inode that points at it on the orphan
    /// chain, or 0 when the superblock does.
    pub orphans: Map<u64, u64>,
    /// Metadata pages enrolled in the open transaction.
    pub blocks: Set<u64>,
    /// Pages revoked in the open transaction.
    pub revokes: Set<u64>,
    /// Metadata pages in transactions the journal has not committed yet.
    pub logged: Set<u64>,
    /// Pages revoked in transactions the journal has not committed yet.
    pub logged_revokes: Set<u64>,
}

/// What holds of every mounted volume.
pub open spec fn mounted(st: FsState) -> bool {
    &&& block_device::full_pages(st.pages)
    &&& 0 <= st.base < block_device::MAX_PAGES
    &&& st.sb.blocks_per_group > 0
    &&& st.sb.inodes_per_group > 0
    &&& st.sb.volume_name.len() == 64
    &&& st.sb.reserved.len() == 112
    &&& st.bgds.len() <= u32::MAX
}

// ---- Blocks ---------------------------------------------------------------------

/// Whether the device holds block `b`.
pub open spec fn has_block(st: FsState, b: int) -> bool {
    0 <= b && st.base + b < st.pages.len()
}

/// The contents of block `b`.
pub open spec fn read_block(st: FsState, b: int) -> Result<Seq<u8>, Error> {
    if has_block(st, b) {
        Ok(st.pages[st.base + b])
    } else {
        Err(Error::AhciError)
    }
}

/// `st` with block `b` enrolled in the open transaction, if the device has it.
pub open spec fn enroll(st: FsState, b: int) -> FsState {
    if has_block(st, b) {
        FsState { blocks: st.blocks.insert((st.base + b) as u64), ..st }
    } else {
        st
    }
}

/// Writes file data, which is not journalled.
pub open spec fn write_data(st: FsState, b: int, data: Seq<u8>) -> (FsState, Result<(), Error>) {
    if has_block(st, b) {
        (FsState { pages: st.pages.update(st.base + b, data), ..st }, Ok(()))
    } else {
        (st, Err(Error::AhciError))
    }
}

/// Writes a metadata block and enrolls it in the open transaction.
pub open spec fn write_block(st: FsState, b: int, data: Seq<u8>) -> (FsState, Result<(), Error>) {
    if has_block(st, b) {
        (enroll(FsState { pages: st.pages.update(st.base + b, data), ..st }, b), Ok(()))
    } else {
        (st, Err(Error::AhciError))
    }
}

// ---- Inodes ---------------------------------------------------------------------

/// The block of the inode table that holds inode `ino`, when its group exists.
pub open spec fn inode_block(st: FsState, ino: u64) -> Option<int> {
    let group = (ino - 1) / st.sb.inodes_per_group as int;
    if ino == 0 || group >= st.bgds.len() {
        None
    } else {
        Some(st.bgds[group].inode_table_block + (ino - 1) % st.sb.inodes_per_group as int / 16)
    }
}

/// Where in that block the inode lies.
pub open spec fn inode_offset(st: FsState, ino: u64) -> int {
    (ino - 1) % st.sb.inodes_per_group as int % 16 * 256
}

#[verifier::opaque]
pub open spec fn read_inode(st: FsState, ino: u64) -> Result<InodeView, Error> {
    match inode_block(st, ino) {
        None => Err(Error::Corrupted),
        Some(b) => match read_block(st, b) {
            Err(e) => Err(e),
            Ok(d) => Ok(layout::dec_inode(d, inode_offset(st, ino))),
        },
    }
}

#[verifier::opaque]
pub open spec fn write_inode(st: FsState, ino: u64, i: InodeView) -> (FsState, Result<(), Error>) {
    match inode_block(st, ino) {
        None => (st, Err(Error::Corrupted)),
        Some(b) => match read_block(st, b) {
            Err(e) => (st, Err(e)),
            Ok(d) => write_block(
                st,
                b,
                bytes::splice(d, inode_offset(st, ino), layout::enc_inode(i)),
            ),
        },
    }
}

// ---- Allocation -----------------------------------------------------------------

/// `a - b`, wrapping around at 64 bits.
pub open spec fn sub64(a: u64, b: int) -> u64 {
    (if a >= b {
        a - b
    } else {
        a - b + 0x1_0000_0000_0000_0000
    }) as u64
}

/// `a + 1`, wrapping around at 64 bits.
pub open spec fn inc64(a: u64) -> u64 {
    (if a == u64::MAX {
        0
    } else {
        a + 1
    }) as u64
}

/// Bits of a bitmap block that stand for anything, out of `per_group`.
pub open spec fn usable_bits(per_group: u32) -> int {
    if per_group < 32768 {
        per_group as int
    } else {
        32768
    }
}

/// Enrolls the pages that hold group `g`'s descriptor and the superblock.
pub open spec fn enroll_counters(st: FsState, g: int) -> FsState {
    enroll(enroll(st, 2 + g / 64), 1)
}

/// `len` block numbers from `first` on.
pub open spec fn block_seq(first: int, len: int) -> Seq<u64> {
    Seq::new(len as nat, |i: int| (first + i) as u64)
}

/// Marks `len` blocks from `bit` of group `g` used. `map` is the group's bitmap
/// as read.
#[verifier::opaque]
pub open spec fn claim_run(st: FsState, g: int, map: Seq<u8>, bit: int, len: int) -> (
    FsState,
    Result<Seq<u64>, Error>,
) {
    let d = st.bgds[g];
    let st1 = FsState {
        bgds: st.bgds.update(
            g,
            EfsBlockGroupDesc { free_blocks_count: sub64(d.free_blocks_count, len), ..d },
        ),
        sb: SuperblockView { free_blocks: sub64(st.sb.free_blocks, len), ..st.sb },
        ..st
    };
    match write_block(st1, d.block_bitmap_block as int, bitmap::with_run(map, bit, len)) {
        (st2, Err(e)) => (st2, Err(e)),
        (st2, Ok(_)) => (
            enroll_counters(st2, g),
            Ok(block_seq(g * st.sb.blocks_per_group + bit, len)),
        ),
    }
}

/// How many of `want` blocks group `g` could still give.
pub open spec fn want_here(st: FsState, g: int, want: int) -> int {
    if want < st.bgds[g].free_blocks_count {
        want
    } else {
        st.bgds[g].free_blocks_count as int
    }
}

/// First fit over the groups, starting with group `first` and having already
/// tried `i` of them.
pub open spec fn first_fit(st: FsState, first: int, i: int, want: int) -> (
    FsState,
    Result<Seq<u64>, Error>,
)
    decreases st.bgds.len() - i,
{
    if i >= st.bgds.len() {
        (st, Err(Error::IoError))
    } else {
        let g = (first + i) % st.bgds.len() as int;
        if st.bgds[g].free_blocks_count == 0 {
            first_fit(st, first, i + 1, want)
        } else {
            match read_block(st, st.bgds[g].block_bitmap_block as int) {
                Err(e) => (st, Err(e)),
                Ok(map) => match bitmap::best_run(
                    map,
                    usable_bits(st.sb.blocks_per_group),
                    want_here(st, g, want),
                    0,
                    None,
                ) {
                    Some((bit, len)) => claim_run(st, g, map, bit, len),
                    None => first_fit(st, first, i + 1, want),
                },
            }
        }
    }
}

/// The group of the block a caller would like, if there is such a group.
pub open spec fn goal_group(st: FsState, goal: Option<u64>) -> Option<int> {
    match goal {
        Some(b) => if b as int / st.sb.blocks_per_group as int >= st.bgds.len() {
            None
        } else {
            Some(b as int / st.sb.blocks_per_group as int)
        },
        None => None,
    }
}

/// Allocates up to `want` blocks in one run: the run at `goal` when that block is
/// free, and otherwise first fit starting at the goal's group.
#[verifier::opaque]
pub open spec fn alloc_blocks(st: FsState, want: int, goal: Option<u64>) -> (
    FsState,
    Result<Seq<u64>, Error>,
) {
    let bits = usable_bits(st.sb.blocks_per_group);
    match goal_group(st, goal) {
        None => first_fit(st, 0, 0, want),
        Some(g) => {
            let bit = goal->Some_0 as int % st.sb.blocks_per_group as int;
            if st.bgds[g].free_blocks_count > 0 && bit < bits {
                match read_block(st, st.bgds[g].block_bitmap_block as int) {
                    Err(e) => (st, Err(e)),
                    Ok(map) => {
                        let len = bitmap::run_length(map, bits, want_here(st, g, want), bit);
                        if len > 0 {
                            claim_run(st, g, map, bit, len)
                        } else {
                            first_fit(st, g, 0, want)
                        }
                    },
                }
            } else {
                first_fit(st, g, 0, want)
            }
        },
    }
}

/// Frees block `b` and revokes its journal copies.
#[verifier::opaque]
pub open spec fn free_block(st: FsState, b: u64) -> (FsState, Result<(), Error>) {
    let g = b as int / st.sb.blocks_per_group as int;
    let bit = b as int % st.sb.blocks_per_group as int;
    if g >= st.bgds.len() || bit >= 32768 || b >= block_device::MAX_PAGES {
        (st, Err(Error::Corrupted))
    } else {
        match read_block(st, st.bgds[g].block_bitmap_block as int) {
            Err(e) => (st, Err(e)),
            Ok(map) => match write_block(
                st,
                st.bgds[g].block_bitmap_block as int,
                bitmap::without_bit(map, bit),
            ) {
                (st1, Err(e)) => (st1, Err(e)),
                (st1, Ok(_)) => {
                    let d = st1.bgds[g];
                    let st2 = enroll_counters(
                        FsState {
                            bgds: st1.bgds.update(
                                g,
                                EfsBlockGroupDesc {
                                    free_blocks_count: inc64(d.free_blocks_count),
                                    ..d
                                },
                            ),
                            sb: SuperblockView { free_blocks: inc64(st1.sb.free_blocks), ..st1.sb },
                            ..st1
                        },
                        g,
                    );
                    (FsState { revokes: st2.revokes.insert((st2.base + b) as u64), ..st2 }, Ok(()))
                },
            },
        }
    }
}

/// Frees the blocks of `list` from index `i` on.
pub open spec fn free_list(st: FsState, list: Seq<u64>, i: int) -> (FsState, Result<(), Error>)
    decreases list.len() - i,
{
    if i >= list.len() {
        (st, Ok(()))
    } else {
        match free_block(st, list[i]) {
            (st1, Err(e)) => (st1, Err(e)),
            (st1, Ok(_)) => free_list(st1, list, i + 1),
        }
    }
}

/// Frees `n` blocks from `first + i` on.
pub open spec fn free_run(st: FsState, first: int, i: int, n: int) -> (FsState, Result<(), Error>)
    decreases n - i,
{
    if i >= n {
        (st, Ok(()))
    } else {
        match free_block(st, (first + i) as u64) {
            (st1, Err(e)) => (st1, Err(e)),
            (st1, Ok(_)) => free_run(st1, first, i + 1, n),
        }
    }
}

/// Takes the first free inode from group `g` on.
pub open spec fn alloc_inode_from(st: FsState, g: int) -> (FsState, Result<u64, Error>)
    decreases st.bgds.len() - g,
{
    if g >= st.bgds.len() {
        (st, Err(Error::IoError))
    } else if st.bgds[g].free_inodes_count == 0 {
        alloc_inode_from(st, g + 1)
    } else {
        let d = st.bgds[g];
        match read_block(st, d.inode_bitmap_block as int) {
            Err(e) => (st, Err(e)),
            Ok(map) => match bitmap::first_free(map, 0, usable_bits(st.sb.inodes_per_group)) {
                None => alloc_inode_from(st, g + 1),
                Some(bit) => {
                    let st1 = FsState {
                        bgds: st.bgds.update(
                            g,
                            EfsBlockGroupDesc {
                                free_inodes_count: sub64(d.free_inodes_count, 1),
                                ..d
                            },
                        ),
                        sb: SuperblockView { free_inodes: sub64(st.sb.free_inodes, 1), ..st.sb },
                        ..st
                    };
                    match write_block(
                        st1,
                        d.inode_bitmap_block as int,
                        bitmap::with_bit(map, bit),
                    ) {
                        (st2, Err(e)) => (st2, Err(e)),
                        (st2, Ok(_)) => (
                            enroll_counters(st2, g),
                            Ok((g * st.sb.inodes_per_group + bit + 1) as u64),
                        ),
                    }
                },
            },
        }
    }
}

/// Takes the first free inode.
#[verifier::opaque]
pub open spec fn alloc_inode(st: FsState) -> (FsState, Result<u64, Error>) {
    alloc_inode_from(st, 0)
}

/// Frees an inode.
#[verifier::opaque]
pub open spec fn free_inode(st: FsState, ino: u64) -> (FsState, Result<(), Error>) {
    let g = (ino - 1) / st.sb.inodes_per_group as int;
    let bit = (ino - 1) % st.sb.inodes_per_group as int;
    if ino == 0 || g >= st.bgds.len() || bit >= 32768 {
        (st, Err(Error::Corrupted))
    } else {
        match read_block(st, st.bgds[g].inode_bitmap_block as int) {
            Err(e) => (st, Err(e)),
            Ok(map) => match write_block(
                st,
                st.bgds[g].inode_bitmap_block as int,
                bitmap::without_bit(map, bit),
            ) {
                (st1, Err(e)) => (st1, Err(e)),
                (st1, Ok(_)) => {
                    let d = st1.bgds[g];
                    (
                        enroll_counters(
                            FsState {
                                bgds: st1.bgds.update(
                                    g,
                                    EfsBlockGroupDesc {
                                        free_inodes_count: inc64(d.free_inodes_count),
                                        ..d
                                    },
                                ),
                                sb: SuperblockView {
                                    free_inodes: inc64(st1.sb.free_inodes),
                                    ..st1.sb
                                },
                                ..st1
                            },
                            g,
                        ),
                        Ok(()),
                    )
                },
            },
        }
    }
}

// ---- Extent maps ----------------------------------------------------------------

/// The extents in the leaf node at block `b`.
pub open spec fn read_leaf(st: FsState, b: int) -> Result<Seq<EfsExtent>, Error> {
    match read_block(st, b) {
        Err(e) => Err(e),
        Ok(d) => {
            let h = layout::dec_header(d);
            if h.magic != EXTENT_MAGIC || h.depth != 0 || h.entries > 340 {
                Err(Error::Corrupted)
            } else {
                Ok(layout::node_entries(d, h.entries as int))
            }
        },
    }
}

/// `acc` followed by the extents of the leaves that index entries `i..n` of `area`
/// name.
pub open spec fn read_leaves(st: FsState, area: Seq<u8>, i: int, n: int, acc: Seq<EfsExtent>) -> Result<
    Seq<EfsExtent>,
    Error,
>
    decreases n - i,
{
    if i >= n {
        Ok(acc)
    } else {
        match read_leaf(st, layout::dec_extent(area, 12 + 12 * i).phys()) {
            Err(e) => Err(e),
            Ok(es) => read_leaves(st, area, i + 1, n, acc + es),
        }
    }
}

/// Entries an inode's own extent node holds, at most thirteen of them.
pub open spec fn inline_entries(area: Seq<u8>) -> int {
    if layout::dec_header(area).entries < MAX_INLINE_EXTENTS {
        layout::dec_header(area).entries as int
    } else {
        MAX_INLINE_EXTENTS as int
    }
}

/// The inode's complete extent list.
#[verifier::opaque]
pub open spec fn load_map(st: FsState, i: InodeView) -> Result<Seq<EfsExtent>, Error> {
    let h = layout::dec_header(i.data_area);
    if h.magic != EXTENT_MAGIC {
        Err(Error::Corrupted)
    } else if h.depth == 0 {
        if h.entries > MAX_INLINE_EXTENTS {
            Err(Error::Corrupted)
        } else {
            Ok(layout::node_entries(i.data_area, h.entries as int))
        }
    } else if h.depth == 1 {
        read_leaves(st, i.data_area, 0, inline_entries(i.data_area), Seq::empty())
    } else {
        Err(Error::Unsupported)
    }
}

/// The blocks that hold the inode's extent tree, none at depth 0.
pub open spec fn tree_blocks(i: InodeView) -> Seq<u64> {
    let h = layout::dec_header(i.data_area);
    if h.magic != EXTENT_MAGIC || h.depth == 0 {
        Seq::empty()
    } else {
        Seq::new(
            inline_entries(i.data_area) as nat,
            |k: int| layout::dec_extent(i.data_area, 12 + 12 * k).phys() as u64,
        )
    }
}

/// Allocates one block.
pub open spec fn alloc_block(st: FsState) -> (FsState, Result<u64, Error>) {
    match alloc_blocks(st, 1, None) {
        (st1, Err(e)) => (st1, Err(e)),
        (st1, Ok(bs)) => if bs.len() == 0 {
            (st1, Err(Error::IoError))
        } else {
            (st1, Ok(bs[0]))
        },
    }
}

/// Blocks for `n` leaves: those the inode already holds, then new ones.
pub open spec fn take_leaves(st: FsState, existing: Seq<u64>, i: int, n: int, acc: Seq<u64>) -> (
    FsState,
    Result<Seq<u64>, Error>,
)
    decreases n - i,
{
    if i >= n {
        (st, Ok(acc))
    } else if i < existing.len() {
        take_leaves(st, existing, i + 1, n, acc.push(existing[i]))
    } else {
        match alloc_block(st) {
            (st1, Err(e)) => (st1, Err(e)),
            (st1, Ok(b)) => take_leaves(st1, existing, i + 1, n, acc.push(b)),
        }
    }
}

/// The extents that leaf `i` of `map` holds.
pub open spec fn leaf_chunk(map: Seq<EfsExtent>, i: int) -> Seq<EfsExtent> {
    map.subrange(
        i * 340,
        if (i + 1) * 340 < map.len() {
            (i + 1) * 340
        } else {
            map.len() as int
        },
    )
}

/// Writes leaves `i..` of `map` to `leaves`.
pub open spec fn write_leaves(st: FsState, leaves: Seq<u64>, map: Seq<EfsExtent>, i: int) -> (
    FsState,
    Result<(), Error>,
)
    decreases leaves.len() - i,
{
    if i >= leaves.len() {
        (st, Ok(()))
    } else {
        match write_block(
            st,
            leaves[i] as int,
            layout::enc_node(BLOCK_SIZE as int, 0, 340, leaf_chunk(map, i)),
        ) {
            (st1, Err(e)) => (st1, Err(e)),
            (st1, Ok(_)) => write_leaves(st1, leaves, map, i + 1),
        }
    }
}

/// The index entries of a depth-1 tree.
pub open spec fn index_entries(leaves: Seq<u64>, map: Seq<EfsExtent>) -> Seq<EfsExtent> {
    Seq::new(leaves.len(), |i: int| EfsExtent::make(map[i * 340].logical_block, 0, leaves[i]))
}

/// Leaves a map of `n` extents needs.
pub open spec fn leaves_needed(n: int) -> int {
    if n <= MAX_INLINE_EXTENTS {
        0
    } else {
        (n + 339) / 340
    }
}

/// The data area that stores `map`, whose leaves, if any, are at `leaves`.
pub open spec fn map_area(map: Seq<EfsExtent>, leaves: Seq<u64>) -> Seq<u8> {
    if leaves.len() == 0 {
        layout::enc_node(INODE_DATA_AREA_SIZE as int, 0, MAX_INLINE_EXTENTS as u16, map)
    } else {
        layout::enc_node(
            INODE_DATA_AREA_SIZE as int,
            1,
            MAX_INLINE_EXTENTS as u16,
            index_entries(leaves, map),
        )
    }
}

/// Stores `map` as the extents of inode `i`, reusing the tree blocks the inode
/// holds and freeing those no longer needed. The result is the inode to write.
#[verifier::opaque]
pub open spec fn store_map(st: FsState, i: InodeView, map: Seq<EfsExtent>) -> (
    FsState,
    Result<InodeView, Error>,
) {
    if map.len() > MAX_INLINE_EXTENTS * 340 {
        (st, Err(Error::Unsupported))
    } else {
        let existing = tree_blocks(i);
        let needed = leaves_needed(map.len() as int);
        match take_leaves(st, existing, 0, needed, Seq::empty()) {
            (st1, Err(e)) => (st1, Err(e)),
            (st1, Ok(leaves)) => match write_leaves(st1, leaves, map, 0) {
                (st2, Err(e)) => (st2, Err(e)),
                (st2, Ok(_)) => match free_list(st2, existing, needed) {
                    (st3, Err(e)) => (st3, Err(e)),
                    (st3, Ok(_)) => (
                        st3,
                        Ok(
                            InodeView {
                                data_area: map_area(map, leaves),
                                blocks: extents::map_blocks(map) as u64,
                                ..i
                            },
                        ),
                    ),
                },
            },
        }
    }
}

/// Frees the data blocks of extents `k..` of `map`.
pub open spec fn free_extents(st: FsState, map: Seq<EfsExtent>, k: int) -> (
    FsState,
    Result<(), Error>,
)
    decreases map.len() - k,
{
    if k >= map.len() {
        (st, Ok(()))
    } else {
        match free_run(st, map[k].phys(), 0, map[k].length as int) {
            (st1, Err(e)) => (st1, Err(e)),
            (st1, Ok(_)) => free_extents(st1, map, k + 1),
        }
    }
}

/// The inode's extents, none when its extent node cannot be read.
pub open spec fn map_or_empty(st: FsState, i: InodeView) -> Seq<EfsExtent> {
    match load_map(st, i) {
        Ok(m) => m,
        Err(_) => Seq::empty(),
    }
}

/// Frees every block an inode's storage occupies: its data and its tree.
#[verifier::opaque]
pub open spec fn free_extent_storage(st: FsState, i: InodeView) -> (FsState, Result<(), Error>) {
    match free_extents(st, map_or_empty(st, i), 0) {
        (st1, Err(e)) => (st1, Err(e)),
        (st1, Ok(_)) => free_list(st1, tree_blocks(i), 0),
    }
}

/// Maps logical block `lb` of inode `ino`, allocating a block when it is not
/// mapped yet. A new block is zeroed first when `zeroed` says so.
#[verifier::opaque]
pub open spec fn ensure_block(st: FsState, ino: u64, lb: u32, zeroed: bool) -> (
    FsState,
    Result<u64, Error>,
) {
    match read_inode(st, ino) {
        Err(e) => (st, Err(e)),
        Ok(i) => match load_map(st, i) {
            Err(e) => (st, Err(e)),
            Ok(m) => match extents::map_lookup(m, lb) {
                Some(p) => (st, Ok(p)),
                None => match alloc_blocks(st, 1, extents::map_goal(m, lb)) {
                    (st1, Err(e)) => (st1, Err(e)),
                    (st1, Ok(bs)) => if bs.len() == 0 {
                        (st1, Err(Error::IoError))
                    } else {
                        let p = bs[0];
                        match if zeroed {
                            write_block(st1, p as int, bytes::zeros(BLOCK_SIZE as int))
                        } else {
                            (st1, Ok(()))
                        } {
                            (st2, Err(e)) => (st2, Err(e)),
                            (st2, Ok(_)) => match store_map(st2, i, extents::map_insert(m, lb, p)) {
                                (st3, Err(e)) => (st3, Err(e)),
                                (st3, Ok(j)) => match write_inode(st3, ino, layout::stamped(j)) {
                                    (st4, Err(e)) => (st4, Err(e)),
                                    (st4, Ok(_)) => (st4, Ok(p)),
                                },
                            },
                        }
                    },
                },
            },
        },
    }
}

// ---- Transactions ---------------------------------------------------------------

/// The state with a fresh transaction open.
pub open spec fn begin(st: FsState) -> FsState {
    FsState { blocks: Set::empty(), revokes: Set::empty(), ..st }
}

/// Ends the open transaction: what a successful operation staged is handed to the
/// journal, what a failed one staged is dropped.
pub open spec fn ended(st: FsState, ok: bool) -> FsState {
    if ok {
        FsState {
            logged: st.logged.union(st.blocks),
            logged_revokes: st.logged_revokes.union(st.revokes),
            blocks: Set::empty(),
            revokes: Set::empty(),
            ..st
        }
    } else {
        begin(st)
    }
}

/// The outcome of an operation, with its transaction ended accordingly.
pub open spec fn finish<T>(p: (FsState, Result<T, Error>)) -> (FsState, Result<T, Error>) {
    (ended(p.0, p.1 is Ok), p.1)
}

// ---- File data --------------------------------------------------------------------

/// The logical block that holds byte `pos`. Block numbers are 32 bits wide.
pub open spec fn logical_block(pos: int) -> u32 {
    (pos / 4096 % 0x1_0000_0000) as u32
}

/// The smaller of two integers.
pub open spec fn min(a: int, b: int) -> int {
    if a < b {
        a
    } else {
        b
    }
}

/// One device read: a physically contiguous run, and where its bytes go.
#[derive(Clone, Copy, PartialEq, Eq, Structural)]
pub struct ExtentRead {
    pub lba: u64,
    pub sectors: u16,
    /// Offset of the run's first wanted byte in the result.
    pub dest: usize,
    /// Offset of that byte inside the run's first block.
    pub skew: usize,
    pub len: usize,
}

/// Longest run one device command may carry, in blocks.
pub const MAX_RUN_BLOCKS: u32 = 248;

/// Blocks of the run at `pos` that a read of `remaining` bytes takes.
pub open spec fn run_take(m: Seq<EfsExtent>, pos: int, remaining: int) -> int {
    let needed = (remaining + pos % 4096 + 4095) / 4096;
    match extents::map_run(m, logical_block(pos)) {
        extents::BlockRun::Mapped { phys, blocks } => min(
            min(needed, blocks as int),
            MAX_RUN_BLOCKS as int,
        ),
        extents::BlockRun::Hole { blocks } => match blocks {
            Some(n) => min(n as int, needed),
            None => needed,
        },
    }
}

/// Bytes a read of `remaining` bytes at `pos` advances by with its first run.
pub open spec fn run_advance(m: Seq<EfsExtent>, pos: int, remaining: int) -> int {
    min(remaining, run_take(m, pos, remaining) * 4096 - pos % 4096)
}

/// The device reads that fetch `remaining` bytes at `pos`, appended to `acc`. A
/// hole needs none.
pub open spec fn plan_reads(
    m: Seq<EfsExtent>,
    start: int,
    pos: int,
    remaining: int,
    dest: int,
    acc: Seq<ExtentRead>,
) -> Seq<ExtentRead>
    decreases remaining,
{
    if remaining <= 0 || run_advance(m, pos, remaining) <= 0 {
        acc
    } else {
        let adv = run_advance(m, pos, remaining);
        let acc1 = match extents::map_run(m, logical_block(pos)) {
            extents::BlockRun::Mapped { phys, blocks } => acc.push(
                ExtentRead {
                    lba: (start + phys * 8) as u64,
                    sectors: (run_take(m, pos, remaining) * 8) as u16,
                    dest: dest as usize,
                    skew: (pos % 4096) as usize,
                    len: adv as usize,
                },
            ),
            extents::BlockRun::Hole { blocks } => acc,
        };
        plan_reads(m, start, pos + adv, remaining - adv, dest + adv, acc1)
    }
}

/// `len` bytes of the device from byte `skew` of page `page` on.
pub open spec fn device_bytes(pages: Pages, page: int, skew: int, len: int) -> Seq<u8> {
    Seq::new(len as nat, |k: int| pages[page + (skew + k) / 4096][(skew + k) % 4096])
}

/// `buf` with the reads of `runs` from `k` on carried out.
pub open spec fn run_reads(pages: Pages, runs: Seq<ExtentRead>, k: int, buf: Seq<u8>) -> Result<
    Seq<u8>,
    Error,
>
    decreases runs.len() - k,
{
    if k >= runs.len() {
        Ok(buf)
    } else {
        let r = runs[k];
        if r.lba / 8 + r.sectors / 8 > pages.len() {
            Err(Error::AhciError)
        } else {
            run_reads(
                pages,
                runs,
                k + 1,
                bytes::splice(
                    buf,
                    r.dest as int,
                    device_bytes(pages, r.lba as int / 8, r.skew as int, r.len as int),
                ),
            )
        }
    }
}

/// `count` bytes at `off` of the file that `m` maps.
pub open spec fn read_mapped(st: FsState, m: Seq<EfsExtent>, off: int, count: int) -> Result<
    Seq<u8>,
    Error,
> {
    run_reads(
        st.pages,
        plan_reads(m, st.base * 8, off, count, 0, Seq::empty()),
        0,
        bytes::zeros(count),
    )
}

/// Up to `count` bytes at `off` of a file.
#[verifier::opaque]
pub open spec fn read_file_data(st: FsState, i: InodeView, off: int, count: int) -> Result<
    Seq<u8>,
    Error,
> {
    if off >= i.size || count == 0 {
        Ok(Seq::empty())
    } else {
        let n = min(count, i.size - off);
        if i.inline() {
            let end = min(off + n, INODE_DATA_AREA_SIZE as int);
            if off > end {
                Err(Error::Corrupted)
            } else {
                Ok(i.data_area.subrange(off, end))
            }
        } else {
            match load_map(st, i) {
                Err(e) => Err(e),
                Ok(m) => read_mapped(st, m, off, n),
            }
        }
    }
}

/// Moves inline data out to a block of its own.
#[verifier::opaque]
pub open spec fn convert_inline(st: FsState, ino: u64, i: InodeView) -> (
    FsState,
    Result<(), Error>,
) {
    match alloc_block(st) {
        (st1, Err(e)) => (st1, Err(e)),
        (st1, Ok(p)) => match write_block(
            st1,
            p as int,
            bytes::splice(
                bytes::zeros(BLOCK_SIZE as int),
                0,
                i.data_area.subrange(0, min(i.size as int, INODE_DATA_AREA_SIZE as int)),
            ),
        ) {
            (st2, Err(e)) => (st2, Err(e)),
            (st2, Ok(_)) => write_inode(
                st2,
                ino,
                layout::stamped(
                    InodeView {
                        flags: i.flags & !layout::INODE_FLAG_INLINE_DATA,
                        data_area: layout::enc_node(
                            INODE_DATA_AREA_SIZE as int,
                            0,
                            MAX_INLINE_EXTENTS as u16,
                            seq![EfsExtent::make(0, 1, p)],
                        ),
                        blocks: 1,
                        ..i
                    },
                ),
            ),
        },
    }
}

/// Writes `data[w..]` at byte `off + w` of a file that is not inline.
pub open spec fn write_extents(st: FsState, ino: u64, off: int, data: Seq<u8>, w: int) -> (
    FsState,
    Result<(), Error>,
)
    decreases data.len() - w,
{
    if w >= data.len() {
        (st, Ok(()))
    } else {
        let skew = (off + w) % 4096;
        let n = min(data.len() - w, 4096 - skew);
        match ensure_block(st, ino, logical_block(off + w), n != 4096) {
            (st1, Err(e)) => (st1, Err(e)),
            (st1, Ok(p)) => match if n != 4096 {
                read_block(st1, p as int)
            } else {
                Ok(bytes::zeros(BLOCK_SIZE as int))
            } {
                Err(e) => (st1, Err(e)),
                Ok(b) => match write_data(
                    st1,
                    p as int,
                    bytes::splice(b, skew, data.subrange(w, w + n)),
                ) {
                    (st2, Err(e)) => (st2, Err(e)),
                    (st2, Ok(_)) => if n <= 0 {
                        (st2, Ok(()))
                    } else {
                        write_extents(st2, ino, off, data, w + n)
                    },
                },
            },
        }
    }
}

/// Writes `data` at byte `off` of a file. The result is the file's new size.
#[verifier::opaque]
pub open spec fn write_file_data(st: FsState, ino: u64, off: int, data: Seq<u8>, now: u64) -> (
    FsState,
    Result<u64, Error>,
) {
    match read_inode(st, ino) {
        Err(e) => (st, Err(e)),
        Ok(i) => if data.len() == 0 {
            (st, Ok(i.size))
        } else {
            let end = off + data.len();
            if i.inline() && end <= INODE_DATA_AREA_SIZE {
                let size = if end > i.size {
                    end as u64
                } else {
                    i.size
                };
                match write_inode(
                    st,
                    ino,
                    layout::stamped(
                        InodeView {
                            data_area: bytes::splice(i.data_area, off, data),
                            size,
                            mtime_sec: now,
                            ..i
                        },
                    ),
                ) {
                    (st1, Err(e)) => (st1, Err(e)),
                    (st1, Ok(_)) => (st1, Ok(size)),
                }
            } else {
                match if i.inline() {
                    convert_inline(st, ino, i)
                } else {
                    (st, Ok(()))
                } {
                    (st1, Err(e)) => (st1, Err(e)),
                    (st1, Ok(_)) => match write_extents(st1, ino, off, data, 0) {
                        (st2, Err(e)) => (st2, Err(e)),
                        (st2, Ok(_)) => match read_inode(st2, ino) {
                            Err(e) => (st2, Err(e)),
                            Ok(j) => {
                                let size = if end > j.size {
                                    end as u64
                                } else {
                                    j.size
                                };
                                match write_inode(
                                    st2,
                                    ino,
                                    layout::stamped(InodeView { size, mtime_sec: now, ..j }),
                                ) {
                                    (st3, Err(e)) => (st3, Err(e)),
                                    (st3, Ok(_)) => (st3, Ok(size)),
                                }
                            },
                        },
                    },
                }
            }
        },
    }
}

/// Frees what extents `k..` of `map` hold from logical block `keep` on, collecting
/// the extents that remain.
pub open spec fn trim_extents(
    st: FsState,
    map: Seq<EfsExtent>,
    k: int,
    keep: int,
    kept: Seq<EfsExtent>,
) -> (FsState, Result<Seq<EfsExtent>, Error>)
    decreases map.len() - k,
{
    if k >= map.len() {
        (st, Ok(kept))
    } else {
        let e = map[k];
        if e.logical_block >= keep {
            match free_run(st, e.phys(), 0, e.length as int) {
                (st1, Err(x)) => (st1, Err(x)),
                (st1, Ok(_)) => trim_extents(st1, map, k + 1, keep, kept),
            }
        } else if e.logical_block + e.length > keep {
            let n = keep - e.logical_block;
            match free_run(st, e.phys() + n, 0, e.length - n) {
                (st1, Err(x)) => (st1, Err(x)),
                (st1, Ok(_)) => trim_extents(
                    st1,
                    map,
                    k + 1,
                    keep,
                    kept.push(EfsExtent { length: n as u16, ..e }),
                ),
            }
        } else {
            trim_extents(st, map, k + 1, keep, kept.push(e))
        }
    }
}

/// Sets a file's size. Growing leaves a hole; shrinking frees whole blocks past the
/// new end.
#[verifier::opaque]
pub open spec fn truncate(st: FsState, ino: u64, size: u64, now: u64) -> (
    FsState,
    Result<(), Error>,
) {
    match read_inode(st, ino) {
        Err(e) => (st, Err(e)),
        Ok(i) => if size >= i.size {
            if i.inline() && size > INODE_DATA_AREA_SIZE {
                match convert_inline(st, ino, i) {
                    (st1, Err(e)) => (st1, Err(e)),
                    (st1, Ok(_)) => match read_inode(st1, ino) {
                        Err(e) => (st1, Err(e)),
                        Ok(j) => write_inode(
                            st1,
                            ino,
                            layout::stamped(InodeView { size, mtime_sec: now, ..j }),
                        ),
                    },
                }
            } else {
                write_inode(st, ino, layout::stamped(InodeView { size, mtime_sec: now, ..i }))
            }
        } else if i.inline() {
            write_inode(st, ino, layout::stamped(InodeView { size, mtime_sec: now, ..i }))
        } else {
            match trim_extents(st, map_or_empty(st, i), 0, (size + 4095) / 4096, Seq::empty()) {
                (st1, Err(e)) => (st1, Err(e)),
                (st1, Ok(kept)) => match store_map(st1, i, kept) {
                    (st2, Err(e)) => (st2, Err(e)),
                    (st2, Ok(j)) => write_inode(
                        st2,
                        ino,
                        layout::stamped(InodeView { size, mtime_sec: now, ..j }),
                    ),
                },
            }
        },
    }
}

// ---- Page cache -------------------------------------------------------------------

/// Page `index` of a file: its bytes, zero past the end of the file, and how many
/// of them are the file's.
#[verifier::opaque]
pub open spec fn fill_page(st: FsState, ino: u64, index: u64) -> Result<(Seq<u8>, int), Error> {
    match read_inode(st, ino) {
        Err(e) => Err(e),
        Ok(i) => {
            let off = index * 4096;
            let z = bytes::zeros(4096);
            if off >= i.size {
                Ok((z, 0))
            } else {
                let valid = min(i.size - off, 4096);
                if i.inline() {
                    let end = min(off + valid, INODE_DATA_AREA_SIZE as int);
                    if off > end {
                        Err(Error::Corrupted)
                    } else {
                        Ok((bytes::splice(z, 0, i.data_area.subrange(off, end)), valid))
                    }
                } else {
                    match load_map(st, i) {
                        Err(e) => Err(e),
                        Ok(m) => match extents::map_lookup(m, logical_block(off)) {
                            None => Ok((z, valid)),
                            Some(p) => match read_block(st, p as int) {
                                Err(e) => Err(e),
                                Ok(b) => Ok((bytes::splice(z, 0, b.subrange(0, valid)), valid)),
                            },
                        },
                    }
                }
            }
        },
    }
}

/// Writes page `index` of a file, within the open transaction.
pub open spec fn put_page(st: FsState, ino: u64, i: InodeView, index: u64, data: Seq<u8>) -> (
    FsState,
    Result<(), Error>,
) {
    match if i.inline() {
        convert_inline(st, ino, i)
    } else {
        (st, Ok(()))
    } {
        (st1, Err(e)) => (st1, Err(e)),
        (st1, Ok(_)) => match ensure_block(st1, ino, (index % 0x1_0000_0000) as u32, false) {
            (st2, Err(e)) => (st2, Err(e)),
            (st2, Ok(p)) => write_data(st2, p as int, data),
        },
    }
}

/// Writes page `index` of a file.
#[verifier::opaque]
pub open spec fn flush_page(st: FsState, ino: u64, index: u64, data: Seq<u8>) -> (
    FsState,
    Result<(), Error>,
) {
    match read_inode(st, ino) {
        Err(e) => (st, Err(e)),
        Ok(i) => finish(put_page(begin(st), ino, i, index, data)),
    }
}

/// Raises a file's size to `size`, within the open transaction.
pub open spec fn raise_size(st: FsState, ino: u64, i: InodeView, size: u64, now: u64) -> (
    FsState,
    Result<(), Error>,
) {
    if i.inline() && size > INODE_DATA_AREA_SIZE {
        match convert_inline(st, ino, i) {
            (st1, Err(e)) => (st1, Err(e)),
            (st1, Ok(_)) => match read_inode(st1, ino) {
                Err(e) => (st1, Err(e)),
                Ok(j) => write_inode(
                    st1,
                    ino,
                    layout::stamped(InodeView { size, mtime_sec: now, ..j }),
                ),
            },
        }
    } else {
        write_inode(st, ino, layout::stamped(InodeView { size, mtime_sec: now, ..i }))
    }
}

/// Raises a file's size to `size`; a smaller size changes nothing.
#[verifier::opaque]
pub open spec fn update_size(st: FsState, ino: u64, size: u64, now: u64) -> (
    FsState,
    Result<(), Error>,
) {
    match read_inode(st, ino) {
        Err(e) => (st, Err(e)),
        Ok(i) => if size <= i.size {
            (st, Ok(()))
        } else {
            finish(raise_size(begin(st), ino, i, size, now))
        },
    }
}

/// How many of `lbs[..k]` the map lacks.
pub open spec fn unmapped(m: Seq<EfsExtent>, lbs: Seq<u32>, k: int) -> int
    decreases k,
{
    if k <= 0 {
        0
    } else {
        unmapped(m, lbs, k - 1) + if extents::map_lookup(m, lbs[k - 1]) is None {
            1int
        } else {
            0
        }
    }
}

/// Where to allocate for the first of `lbs[k..]` that the map lacks.
pub open spec fn batch_goal(m: Seq<EfsExtent>, lbs: Seq<u32>, k: int) -> Option<u64>
    decreases lbs.len() - k,
{
    if k >= lbs.len() {
        None
    } else if extents::map_lookup(m, lbs[k]) is None {
        extents::map_goal(m, lbs[k])
    } else {
        batch_goal(m, lbs, k + 1)
    }
}

/// Allocates blocks until there are `need` of them, each run continuing where the
/// last one ended.
pub open spec fn alloc_pool(st: FsState, need: int, goal: Option<u64>, acc: Seq<u64>) -> (
    FsState,
    Result<Seq<u64>, Error>,
)
    decreases need - acc.len(),
{
    if acc.len() >= need {
        (st, Ok(acc))
    } else {
        let g = if acc.len() > 0 {
            Some(inc64(acc.last()))
        } else {
            goal
        };
        match alloc_blocks(st, need - acc.len(), g) {
            (st1, Err(e)) => (st1, Err(e)),
            (st1, Ok(bs)) => if bs.len() == 0 || acc.len() + bs.len() > need {
                (st1, Err(Error::IoError))
            } else {
                alloc_pool(st1, need, goal, acc + bs)
            },
        }
    }
}

/// The outcome of mapping a batch of logical blocks.
#[verifier::ext_equal]
pub struct Assigned {
    pub map: Seq<EfsExtent>,
    /// How much of the pool was used.
    pub used: int,
    /// The physical block of each logical one.
    pub phys: Seq<u64>,
}

/// Maps `lbs[k..]`, taking a block of the pool for each one not mapped yet. Nothing
/// when the pool runs out.
pub open spec fn assign(lbs: Seq<u32>, pool: Seq<u64>, k: int, a: Assigned) -> Option<Assigned>
    decreases lbs.len() - k,
{
    if k >= lbs.len() {
        Some(a)
    } else {
        match extents::map_lookup(a.map, lbs[k]) {
            Some(p) => assign(lbs, pool, k + 1, Assigned { phys: a.phys.push(p), ..a }),
            None => if a.used >= pool.len() {
                None
            } else {
                assign(
                    lbs,
                    pool,
                    k + 1,
                    Assigned {
                        map: extents::map_insert(a.map, lbs[k], pool[a.used]),
                        used: a.used + 1,
                        phys: a.phys.push(pool[a.used]),
                    },
                )
            },
        }
    }
}

/// Maps a batch of logical blocks of the extent-mapped inode `i`, writing the inode
/// once.
pub open spec fn map_batch(
    st: FsState,
    ino: u64,
    i: InodeView,
    lbs: Seq<u32>,
    size: Option<u64>,
    now: u64,
) -> (FsState, Result<Seq<u64>, Error>) {
    match load_map(st, i) {
        Err(e) => (st, Err(e)),
        Ok(m) => match alloc_pool(
            st,
            unmapped(m, lbs, lbs.len() as int),
            batch_goal(m, lbs, 0),
            Seq::empty(),
        ) {
            (st1, Err(e)) => (st1, Err(e)),
            (st1, Ok(pool)) => match assign(
                lbs,
                pool,
                0,
                Assigned { map: m, used: 0, phys: Seq::empty() },
            ) {
                None => (st1, Err(Error::Corrupted)),
                Some(a) => match free_list(st1, pool, a.used) {
                    (st2, Err(e)) => (st2, Err(e)),
                    (st2, Ok(_)) => match store_map(st2, i, a.map) {
                        (st3, Err(e)) => (st3, Err(e)),
                        (st3, Ok(j)) => match write_inode(
                            st3,
                            ino,
                            layout::stamped(
                                InodeView {
                                    size: match size {
                                        Some(s) => if s > j.size {
                                            s
                                        } else {
                                            j.size
                                        },
                                        None => j.size,
                                    },
                                    mtime_sec: now,
                                    ..j
                                },
                            ),
                        ) {
                            (st4, Err(e)) => (st4, Err(e)),
                            (st4, Ok(_)) => (st4, Ok(a.phys)),
                        },
                    },
                },
            },
        },
    }
}

/// Maps a batch of logical blocks of an inode, moving inline data out first.
#[verifier::opaque]
pub open spec fn ensure_batch(
    st: FsState,
    ino: u64,
    lbs: Seq<u32>,
    size: Option<u64>,
    now: u64,
) -> (FsState, Result<Seq<u64>, Error>) {
    if lbs.len() == 0 {
        (st, Ok(Seq::empty()))
    } else {
        match read_inode(st, ino) {
            Err(e) => (st, Err(e)),
            Ok(i) => if i.inline() {
                match convert_inline(st, ino, i) {
                    (st1, Err(e)) => (st1, Err(e)),
                    (st1, Ok(_)) => match read_inode(st1, ino) {
                        Err(e) => (st1, Err(e)),
                        Ok(j) => map_batch(st1, ino, j, lbs, size, now),
                    },
                }
            } else {
                map_batch(st, ino, i, lbs, size, now)
            },
        }
    }
}

/// How many of `phys[k..]` lie one after the other, counting no more than `cap`.
pub open spec fn contiguous(phys: Seq<u64>, k: int, cap: int) -> int
    decreases cap,
{
    if cap <= 1 || k + 1 >= phys.len() || phys[k + 1] != phys[k] + 1 {
        1
    } else {
        1 + contiguous(phys, k + 1, cap - 1)
    }
}

/// `pages` with `data` laid over it from page `at` on.
pub open spec fn overlay(pages: Pages, at: int, data: Pages) -> Pages {
    Seq::new(pages.len(), |i: int| if at <= i < at + data.len() { data[i - at] } else { pages[i] })
}

/// Writes `data[k..]` to the blocks `phys[k..]`, one command per contiguous run.
pub open spec fn write_runs(st: FsState, phys: Seq<u64>, data: Pages, k: int) -> (
    FsState,
    Result<(), Error>,
)
    decreases phys.len() - k,
{
    if k >= phys.len() {
        (st, Ok(()))
    } else {
        let n = contiguous(phys, k, MAX_RUN_BLOCKS as int);
        if n <= 0 || k + n > phys.len() || st.base + phys[k] + n > st.pages.len() {
            (st, Err(Error::AhciError))
        } else {
            write_runs(
                FsState {
                    pages: overlay(st.pages, st.base + phys[k], data.subrange(k, k + n)),
                    ..st
                },
                phys,
                data,
                k + n,
            )
        }
    }
}

/// Most pages one transaction of [`flush_pages_bulk`] covers.
pub const MAX_BULK_PAGES: usize = 512;

/// The logical blocks of a batch of pages.
pub open spec fn page_blocks(index: Seq<u64>) -> Seq<u32> {
    index.map_values(|i: u64| (i % 0x1_0000_0000) as u32)
}

/// One transaction of [`flush_pages_bulk`].
pub open spec fn flush_chunk(
    st: FsState,
    ino: u64,
    index: Seq<u64>,
    data: Pages,
    size: Option<u64>,
    now: u64,
) -> (FsState, Result<(), Error>) {
    match ensure_batch(st, ino, page_blocks(index), size, now) {
        (st1, Err(e)) => (st1, Err(e)),
        (st1, Ok(phys)) => write_runs(st1, phys, data, 0),
    }
}

/// Writes the pages `index[k..]` of a file, in transactions of at most 512 pages.
/// The new size goes with the last one.
pub open spec fn flush_pages_bulk(
    st: FsState,
    ino: u64,
    index: Seq<u64>,
    data: Pages,
    k: int,
    size: Option<u64>,
    now: u64,
) -> (FsState, Result<(), Error>)
    decreases index.len() - k,
{
    if k >= index.len() {
        (st, Ok(()))
    } else {
        let end = min(k + MAX_BULK_PAGES, index.len() as int);
        match finish(
            flush_chunk(
                begin(st),
                ino,
                index.subrange(k, end),
                data.subrange(k, end),
                if end == index.len() {
                    size
                } else {
                    None
                },
                now,
            ),
        ) {
            (st1, Err(e)) => (st1, Err(e)),
            (st1, Ok(_)) => flush_pages_bulk(st1, ino, index, data, end, size, now),
        }
    }
}

/// One read of a prefetch plan.
#[derive(Clone, Copy, PartialEq, Eq, Structural)]
pub struct PlannedRun {
    pub lba: u64,
    pub sectors: u32,
    /// Pages between the start of the window and the run.
    pub page_offset: u64,
    pub blocks: u32,
}

/// Most reads one prefetch may queue.
pub const MAX_PREFETCH_RUNS: usize = 16;

/// Plans the reads for logical blocks `at..end` of a window that starts at `first`:
/// one per contiguous run, stopping when a seventeenth would be needed. Also says
/// how far the plan reaches.
pub open spec fn plan_prefetch(
    m: Seq<EfsExtent>,
    start: int,
    first: u32,
    at: u32,
    end: u32,
    acc: Seq<PlannedRun>,
) -> (Seq<PlannedRun>, u32)
    decreases end - at,
{
    if at >= end {
        (acc, at)
    } else {
        let want = end - at;
        match extents::map_run(m, at) {
            extents::BlockRun::Mapped { phys, blocks } => {
                let n = min(min(want, blocks as int), MAX_RUN_BLOCKS as int);
                if acc.len() == MAX_PREFETCH_RUNS || n <= 0 {
                    (acc, at)
                } else {
                    plan_prefetch(
                        m,
                        start,
                        first,
                        (at + n) as u32,
                        end,
                        acc.push(
                            PlannedRun {
                                lba: (start + phys * 8) as u64,
                                sectors: (n * 8) as u32,
                                page_offset: (at - first) as u64,
                                blocks: n as u32,
                            },
                        ),
                    )
                }
            },
            extents::BlockRun::Hole { blocks } => {
                let n = match blocks {
                    Some(b) => min(b as int, want),
                    None => want,
                };
                if n <= 0 {
                    (acc, at)
                } else {
                    plan_prefetch(m, start, first, (at + n) as u32, end, acc)
                }
            },
        }
    }
}

/// What to prefetch for `count` bytes at `off` of a file: the pages covered and the
/// reads to queue, or nothing when there is nothing to queue.
#[verifier::opaque]
pub open spec fn prefetch(st: FsState, ino: u64, off: int, count: int) -> Result<
    Option<(u64, Seq<PlannedRun>)>,
    Error,
> {
    match read_inode(st, ino) {
        Err(e) => Err(e),
        Ok(i) => if i.kind() != layout::S_IFREG {
            Err(Error::NotAFile)
        } else if off >= i.size || count == 0 || i.inline() {
            Ok(None)
        } else {
            match load_map(st, i) {
                Err(_) => Ok(None),
                Ok(m) => {
                    let n = min(count, i.size - off);
                    let first = logical_block(off);
                    let last = ((off + n + 4095) / 4096 % 0x1_0000_0000) as u32;
                    let (runs, reach) = plan_prefetch(
                        m,
                        st.base * 8,
                        first,
                        first,
                        last,
                        Seq::empty(),
                    );
                    if runs.len() == 0 {
                        Ok(None)
                    } else {
                        Ok(Some(((reach - first) as u64, runs)))
                    }
                },
            }
        },
    }
}

} // verus!
