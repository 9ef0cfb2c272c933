//! How a file's block map is stored.
//!
//! Every inode that is not inline carries an extent node in its data area: a
//! header and up to thirteen entries. At depth 0 the entries are the file's
//! extents; at depth 1 each names a leaf block that holds up to 340 of them.
use vstd::prelude::*;
use crate::bytes::zero_vec;
use crate::error::Error;
use super::driver;
use super::driver::EfsDriver;
use super::extents::ExtentMap;
use super::layout;
use super::layout::{checksum_inode, encode_node, read_node_entry, read_node_header, EfsExtent, EfsInode, InodeView, BLOCK_SIZE, EXTENT_MAGIC, INODE_DATA_AREA_SIZE, MAX_INLINE_EXTENTS};
use super::model;

verus! {

broadcast use crate::block_device::staging;

/// Largest map that can be stored at all.
pub fn max_extents(block_size: usize) -> (n: usize)
    requires
        12 <= block_size <= 0x1_0000,
    ensures
        n == MAX_INLINE_EXTENTS * layout::entries_per_node_spec(block_size as int),
{
    MAX_INLINE_EXTENTS * layout::entries_per_node(block_size)
}

/// Reads the first `count` entries of a node, refusing a count the node cannot
/// hold.
fn read_leaf_entries(node: &[u8], count: usize, capacity: usize) -> (r: Result<
    Vec<EfsExtent>,
    Error,
>)
    requires
        capacity <= 340,
        12 + 12 * capacity <= node.len(),
    ensures
        count > capacity ==> r == Err::<Vec<EfsExtent>, Error>(Error::Corrupted),
        count <= capacity ==> (r matches Ok(v) && v@ == layout::node_entries(node@, count as int)),
{
    if count > capacity {
        return Err(Error::Corrupted);
    }
    let mut out: Vec<EfsExtent> = Vec::new();
    let mut i: usize = 0;
    while i < count
        invariant
            i <= count <= capacity <= 340,
            12 + 12 * capacity <= node.len(),
            out@ == layout::node_entries(node@, i as int),
        decreases count - i,
    {
        out.push(read_node_entry(node, i));
        i = i + 1;
        assert(out@ =~= layout::node_entries(node@, i as int));
    }
    Ok(out)
}

impl EfsDriver {
    /// Loads an inode's complete extent list, following a depth-1 tree if there is
    /// one.
    pub fn load_extent_map(&mut self, inode: &EfsInode) -> (r: Result<ExtentMap, Error>)
        requires
            old(self).wf(),
            inode.wf(),
        ensures
            final(self).wf(),
            final(self)@ == old(self)@,
            final(self).untouched(old(self)),
            driver::map_of(r) == model::load_map(old(self)@, inode@),
            r matches Ok(m) ==> m@.len() <= 13 * 340,
    {
        proof {
            reveal(model::load_map);
        }
        let hdr = match read_node_header(inode.data_area.as_slice()) {
            Some(h) => h,
            None => return Err(Error::Corrupted),
        };
        if hdr.magic != EXTENT_MAGIC {
            return Err(Error::Corrupted);
        }
        if hdr.depth == 0 {
            return match read_leaf_entries(
                inode.data_area.as_slice(),
                hdr.entries as usize,
                MAX_INLINE_EXTENTS,
            ) {
                Ok(v) => Ok(ExtentMap::from_sorted(v)),
                Err(e) => Err(e),
            };
        }
        if hdr.depth != 1 {
            return Err(Error::Unsupported);
        }
        let count: usize = if (hdr.entries as usize) < MAX_INLINE_EXTENTS {
            hdr.entries as usize
        } else {
            MAX_INLINE_EXTENTS
        };
        let mut all: Vec<EfsExtent> = Vec::new();
        let mut i: usize = 0;
        assert(all@ =~= Seq::<EfsExtent>::empty());
        while i < count
            invariant
                self.wf(),
                self.untouched(old(self)),
                self@ == old(self)@,
                inode.wf(),
                i <= count <= 13,
                all@.len() <= i * 340,
                model::load_map(old(self)@, inode@) == model::read_leaves(
                    old(self)@,
                    inode@.data_area,
                    i as int,
                    count as int,
                    all@,
                ),
            decreases count - i,
        {
            let idx = read_node_entry(inode.data_area.as_slice(), i);
            let leaf = match self.read_block(idx.physical_start()) {
                Ok(d) => d,
                Err(e) => return Err(e),
            };
            let h = match read_node_header(leaf.as_slice()) {
                Some(h) => h,
                None => return Err(Error::Corrupted),
            };
            if h.magic != EXTENT_MAGIC || h.depth != 0 {
                return Err(Error::Corrupted);
            }
            match read_leaf_entries(leaf.as_slice(), h.entries as usize, 340) {
                Ok(v) => {
                    let ghost before = all@;
                    let mut v = v;
                    let ghost vv = v@;
                    all.append(&mut v);
                    assert(all@ =~= before + vv);
                },
                Err(e) => return Err(e),
            }
            i = i + 1;
        }
        Ok(ExtentMap::from_sorted(all))
    }

    /// The blocks that hold the inode's extent tree, none at depth 0.
    pub fn tree_blocks(&self, inode: &EfsInode) -> (r: Vec<u64>)
        requires
            inode.wf(),
        ensures
            r@ == model::tree_blocks(inode@),
            r@.len() <= 13,
    {
        let mut blocks: Vec<u64> = Vec::new();
        let hdr = match read_node_header(inode.data_area.as_slice()) {
            Some(h) => h,
            None => return blocks,
        };
        if hdr.magic != EXTENT_MAGIC || hdr.depth == 0 {
            assert(blocks@ =~= model::tree_blocks(inode@));
            return blocks;
        }
        let count: usize = if (hdr.entries as usize) < MAX_INLINE_EXTENTS {
            hdr.entries as usize
        } else {
            MAX_INLINE_EXTENTS
        };
        let mut i: usize = 0;
        while i < count
            invariant
                inode.wf(),
                i <= count <= 13,
                count == model::inline_entries(inode@.data_area),
                blocks@ == model::tree_blocks(inode@).take(i as int),
                model::tree_blocks(inode@).len() == count,
                forall|k: int|
                    0 <= k < count ==> #[trigger] model::tree_blocks(inode@)[k]
                        == layout::dec_extent(inode@.data_area, 12 + 12 * k).phys() as u64,
            decreases count - i,
        {
            let e = read_node_entry(inode.data_area.as_slice(), i);
            blocks.push(e.physical_start());
            i = i + 1;
            assert(blocks@ =~= model::tree_blocks(inode@).take(i as int));
        }
        assert(blocks@ =~= model::tree_blocks(inode@));
        blocks
    }

    /// Frees the blocks of `list` from index `from` on.
    fn free_list(&mut self, list: &Vec<u64>, from: usize) -> (r: Result<(), Error>)
        requires
            old(self).wf(),
        ensures
            final(self).wf(),
            final(self).staged_since(old(self)),
            (final(self)@, r) == model::free_list(old(self)@, list@, from as int),
    {
        let mut i: usize = from;
        while i < list.len()
            invariant
                self.wf(),
                self.staged_since(old(self)),
                model::free_list(old(self)@, list@, from as int) == model::free_list(
                    self@,
                    list@,
                    i as int,
                ),
            decreases list@.len() - i,
        {
            match self.free_block(list[i]) {
                Ok(_) => {},
                Err(e) => return Err(e),
            }
            i = i + 1;
        }
        Ok(())
    }

    /// Frees `n` blocks from `first` on.
    pub(crate) fn free_run(&mut self, first: u64, n: u64) -> (r: Result<(), Error>)
        requires
            old(self).wf(),
            first + n <= u64::MAX,
        ensures
            final(self).wf(),
            final(self).staged_since(old(self)),
            (final(self)@, r) == model::free_run(old(self)@, first as int, 0, n as int),
    {
        let mut i: u64 = 0;
        while i < n
            invariant
                self.wf(),
                self.staged_since(old(self)),
                first + n <= u64::MAX,
                i <= n,
                model::free_run(old(self)@, first as int, 0, n as int) == model::free_run(
                    self@,
                    first as int,
                    i as int,
                    n as int,
                ),
            decreases n - i,
        {
            match self.free_block(first + i) {
                Ok(_) => {},
                Err(e) => return Err(e),
            }
            i = i + 1;
        }
        Ok(())
    }

    fn take_leaves(&mut self, existing: &Vec<u64>, needed: usize) -> (r: Result<Vec<u64>, Error>)
        requires
            old(self).wf(),
            needed <= 13,
        ensures
            final(self).wf(),
            final(self).staged_since(old(self)),
            (final(self)@, driver::blocks_of(r)) == model::take_leaves(
                old(self)@,
                existing@,
                0,
                needed as int,
                Seq::empty(),
            ),
            r matches Ok(v) ==> v@.len() == needed,
    {
        let mut leaves: Vec<u64> = Vec::new();
        let mut i: usize = 0;
        assert(leaves@ =~= Seq::<u64>::empty());
        while i < needed
            invariant
                self.wf(),
                self.staged_since(old(self)),
                i <= needed <= 13,
                leaves@.len() == i,
                model::take_leaves(old(self)@, existing@, 0, needed as int, Seq::empty())
                    == model::take_leaves(self@, existing@, i as int, needed as int, leaves@),
            decreases needed - i,
        {
            if i < existing.len() {
                leaves.push(existing[i]);
            } else {
                match self.alloc_block() {
                    Ok(b) => leaves.push(b),
                    Err(e) => return Err(e),
                }
            }
            i = i + 1;
        }
        Ok(leaves)
    }

    fn write_leaves(&mut self, leaves: &Vec<u64>, map: &ExtentMap) -> (r: Result<(), Error>)
        requires
            old(self).wf(),
            leaves@.len() <= 13,
            leaves@.len() == model::leaves_needed(map@.len() as int),
        ensures
            final(self).wf(),
            final(self).staged_since(old(self)),
            (final(self)@, r) == model::write_leaves(old(self)@, leaves@, map@, 0),
    {
        let mut i: usize = 0;
        while i < leaves.len()
            invariant
                self.wf(),
                self.staged_since(old(self)),
                i <= leaves@.len() <= 13,
                leaves@.len() == model::leaves_needed(map@.len() as int),
                model::write_leaves(old(self)@, leaves@, map@, 0) == model::write_leaves(
                    self@,
                    leaves@,
                    map@,
                    i as int,
                ),
            decreases leaves@.len() - i,
        {
            let from: usize = i * 340;
            let to: usize = if (i + 1) * 340 < map.len() {
                (i + 1) * 340
            } else {
                map.len()
            };
            let all = map.as_slice();
            let mut chunk: Vec<EfsExtent> = Vec::new();
            let mut k: usize = from;
            while k < to
                invariant
                    from <= k <= to <= all@.len(),
                    chunk@ == all@.subrange(from as int, k as int),
                decreases to - k,
            {
                chunk.push(all[k]);
                k = k + 1;
                assert(chunk@ =~= all@.subrange(from as int, k as int));
            }
            let node = encode_node(BLOCK_SIZE, 0, 340, chunk.as_slice());
            assert(chunk@ == model::leaf_chunk(map@, i as int));
            match self.write_block(leaves[i], node.as_slice()) {
                Ok(_) => {},
                Err(e) => return Err(e),
            }
            i = i + 1;
        }
        Ok(())
    }

    /// Encodes `map` into the inode, allocating or freeing tree blocks as the shape
    /// requires, and refreshes the inode's block count. The caller writes the inode.
    /// On failure the inode is left as it was.
    pub fn store_extent_map(&mut self, inode: &mut EfsInode, map: &ExtentMap) -> (r: Result<
        (),
        Error,
    >)
        requires
            old(self).wf(),
            old(inode).wf(),
        ensures
            final(self).wf(),
            final(self).staged_since(old(self)),
            final(inode).wf(),
            match r {
                Ok(_) => model::store_map(old(self)@, old(inode)@, map@) == (
                    final(self)@,
                    Ok::<InodeView, Error>(final(inode)@),
                ),
                Err(e) => model::store_map(old(self)@, old(inode)@, map@) == (
                    final(self)@,
                    Err::<InodeView, Error>(e),
                ) && final(inode)@ == old(inode)@,
            },
    {
        proof {
            reveal(model::store_map);
        }
        if map.len() > max_extents(BLOCK_SIZE) {
            return Err(Error::Unsupported);
        }
        let existing = self.tree_blocks(inode);
        let needed: usize = if map.len() <= MAX_INLINE_EXTENTS {
            0
        } else {
            (map.len() + 339) / 340
        };
        let leaves = match self.take_leaves(&existing, needed) {
            Ok(v) => v,
            Err(e) => return Err(e),
        };
        match self.write_leaves(&leaves, map) {
            Ok(_) => {},
            Err(e) => return Err(e),
        }
        let area: Vec<u8>;
        if leaves.len() == 0 {
            area = encode_node(
                INODE_DATA_AREA_SIZE,
                0,
                MAX_INLINE_EXTENTS as u16,
                map.as_slice(),
            );
        } else {
            let mut index: Vec<EfsExtent> = Vec::new();
            let mut i: usize = 0;
            let all = map.as_slice();
            while i < leaves.len()
                invariant
                    i <= leaves@.len() <= 13,
                    leaves@.len() == (all@.len() + 339) / 340,
                    index@ == model::index_entries(leaves@, all@).take(i as int),
                decreases leaves@.len() - i,
            {
                index.push(EfsExtent::build(all[i * 340].logical_block, 0, leaves[i]));
                i = i + 1;
                assert(index@ =~= model::index_entries(leaves@, all@).take(i as int));
            }
            assert(index@ =~= model::index_entries(leaves@, map@));
            area = encode_node(
                INODE_DATA_AREA_SIZE,
                1,
                MAX_INLINE_EXTENTS as u16,
                index.as_slice(),
            );
        }
        match self.free_list(&existing, needed) {
            Ok(_) => {},
            Err(e) => return Err(e),
        }
        inode.data_area = area;
        inode.blocks = map.block_count();
        Ok(())
    }

    /// Frees every block an inode's storage occupies: its data and the tree that
    /// describes it. An inode without a readable extent node has nothing to free.
    pub fn free_extent_storage(&mut self, inode: &EfsInode) -> (r: Result<(), Error>)
        requires
            old(self).wf(),
            inode.wf(),
        ensures
            final(self).wf(),
            final(self).staged_since(old(self)),
            (final(self)@, r) == model::free_extent_storage(old(self)@, inode@),
    {
        proof {
            reveal(model::free_extent_storage);
        }
        let map = match self.load_extent_map(inode) {
            Ok(m) => m,
            Err(_) => ExtentMap::from_sorted(Vec::new()),
        };
        assert(map@ =~= model::map_or_empty(old(self)@, inode@));
        match self.free_extents(&map) {
            Ok(_) => {},
            Err(e) => return Err(e),
        }
        let tree = self.tree_blocks(inode);
        self.free_list(&tree, 0)
    }

    fn free_extents(&mut self, map: &ExtentMap) -> (r: Result<(), Error>)
        requires
            old(self).wf(),
        ensures
            final(self).wf(),
            final(self).staged_since(old(self)),
            (final(self)@, r) == model::free_extents(old(self)@, map@, 0),
    {
        let all = map.as_slice();
        let mut k: usize = 0;
        while k < all.len()
            invariant
                self.wf(),
                self.staged_since(old(self)),
                k <= all@.len(),
                all@ == map@,
                model::free_extents(old(self)@, all@, 0) == model::free_extents(
                    self@,
                    all@,
                    k as int,
                ),
            decreases all@.len() - k,
        {
            let e = all[k];
            match self.free_run(e.physical_start(), e.length as u64) {
                Ok(_) => {},
                Err(e) => return Err(e),
            }
            k = k + 1;
        }
        Ok(())
    }

    /// Maps a logical block of an inode, allocating a block if it is not mapped
    /// yet. A new block is zeroed first when `zeroed` says so: a caller that
    /// overwrites all of it does not need that.
    pub fn ensure_block_for_logical(&mut self, ino: u64, lb: u32, zeroed: bool) -> (r: Result<
        u64,
        Error,
    >)
        requires
            old(self).wf(),
        ensures
            final(self).wf(),
            final(self).staged_since(old(self)),
            (final(self)@, r) == model::ensure_block(old(self)@, ino, lb, zeroed),
    {
        proof {
            reveal(model::ensure_block);
        }
        let inode = match self.read_inode(ino) {
            Ok(i) => i,
            Err(e) => return Err(e),
        };
        let mut map = match self.load_extent_map(&inode) {
            Ok(m) => m,
            Err(e) => return Err(e),
        };
        match map.lookup(lb) {
            Some(p) => return Ok(p),
            None => {},
        }
        let blocks = match self.alloc_blocks(1, map.goal_for(lb)) {
            Ok(b) => b,
            Err(e) => return Err(e),
        };
        if blocks.len() == 0 {
            return Err(Error::IoError);
        }
        let phys: u64 = blocks[0];
        if zeroed {
            let z = zero_vec(BLOCK_SIZE);
            match self.write_block(phys, z.as_slice()) {
                Ok(_) => {},
                Err(e) => return Err(e),
            }
        }
        map.insert(lb, phys);
        let mut updated = inode;
        match self.store_extent_map(&mut updated, &map) {
            Ok(_) => {},
            Err(e) => return Err(e),
        }
        checksum_inode(&mut updated);
        match self.write_inode(ino, &updated) {
            Ok(_) => {},
            Err(e) => return Err(e),
        }
        Ok(phys)
    }
}

} // verus!
