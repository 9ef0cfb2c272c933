//! The extent file system driver.
use vstd::prelude::*;
use crate::types;
use crate::block_device;
use crate::block_device::{BlockDevice, PageWrite, Site, MAX_PAGES};
use crate::bytes::write_at;
use crate::error::Error;
use crate::journal;
use crate::journal::tx::TxHandle;
use crate::journal::{Journal, JournalView};
use crate::sorted::SortedMap;
use super::bitmap::{clear_bit, find_free_bit, find_free_run, free_run_at, set_bit, set_run};
use super::extents::ExtentMap;
use super::layout::{EfsBlockGroupDesc, EfsExtent, EfsInode, EfsSuperblock, InodeView, BLOCK_SIZE, INODE_SIZE};
use super::model;
use super::model::FsState;

verus! {

broadcast use crate::block_device::writing;

/// A mounted volume.
pub struct EfsDriver {
    pub device: BlockDevice,
    /// LBA the volume starts at; a page boundary.
    pub starting_lba: u64,
    pub superblock: EfsSuperblock,
    pub bgd_table: Vec<EfsBlockGroupDesc>,
    /// For every inode pending deletion, the inode that points at it on the orphan
    /// chain, or 0 when the superblock does. The chain is singly linked on disk,
    /// and unlinking from the middle of it needs the predecessor.
    pub orphan_prev: SortedMap<u64>,
    /// The open transaction.
    pub tx: TxHandle,
    pub journal: Journal,
}

impl View for EfsDriver {
    type V = FsState;

    open spec fn view(&self) -> FsState {
        FsState {
            pages: self.device@,
            base: self.starting_lba as int / 8,
            sb: self.superblock@,
            bgds: self.bgd_table@,
            orphans: self.orphan_prev@,
            blocks: self.tx.staged_blocks@,
            revokes: self.tx.staged_revokes@,
            logged: journal::pending_blocks(self.journal@),
            logged_revokes: journal::pending_revokes(self.journal@),
        }
    }
}

/// A result whose value is seen through its view.
pub open spec fn blocks_of(r: Result<Vec<u64>, Error>) -> Result<Seq<u64>, Error> {
    match r {
        Ok(v) => Ok(v@),
        Err(e) => Err(e),
    }
}

/// A result whose value is seen through its view.
pub open spec fn inode_of(r: Result<EfsInode, Error>) -> Result<InodeView, Error> {
    match r {
        Ok(v) => Ok(v@),
        Err(e) => Err(e),
    }
}

/// A result whose value is seen through its view.
pub open spec fn map_of(r: Result<ExtentMap, Error>) -> Result<Seq<EfsExtent>, Error> {
    match r {
        Ok(v) => Ok(v@),
        Err(e) => Err(e),
    }
}

/// Whether an operation led from `pre` to `post` through `mid`: up to there it wrote metadata
/// through the cache alone, and file data around it, and then its transaction was ended: merged
/// into the journal's active transaction, or dropped if the operation failed.
pub open spec fn concluded(pre: EfsDriver, mid: EfsDriver, post: EfsDriver, ok: bool) -> bool {
    &&& mid.written_within(&pre)
    &&& merged(mid, post, ok)
}

/// The same for an operation that writes metadata alone.
pub open spec fn concluded_staged(
    pre: EfsDriver,
    mid: EfsDriver,
    post: EfsDriver,
    ok: bool,
) -> bool {
    &&& mid.staged_within(&pre)
    &&& merged(mid, post, ok)
}

/// Whether ending the open transaction leads from `mid` to `post`. The device stays as it is.
pub open spec fn merged(mid: EfsDriver, post: EfsDriver, ok: bool) -> bool {
    &&& post@ == model::ended(mid@, ok)
    &&& post.device == mid.device
    &&& post.starting_lba == mid.starting_lba
    &&& post.journal.same_region(&mid.journal)
    &&& post.journal@ == (if ok {
        journal::merge(
            mid.journal@,
            journal::tx_limit(mid.journal.block_count),
            mid@.blocks,
            mid@.revokes,
            mid.device.dirty(),
        )
    } else {
        mid.journal@
    })
}

/// What a changing operation does to the journal and the medium: nothing if it was refused
/// outright, else as [`concluded`] says.
pub open spec fn settled(pre: EfsDriver, post: EfsDriver, ok: bool) -> bool {
    ||| !ok && post.untouched(&pre)
    ||| exists|mid: EfsDriver| #[trigger] concluded(pre, mid, post, ok)
}

/// The same for an operation that writes metadata alone.
pub open spec fn settled_staged(pre: EfsDriver, post: EfsDriver, ok: bool) -> bool {
    ||| !ok && post.untouched(&pre)
    ||| exists|mid: EfsDriver| #[trigger] concluded_staged(pre, mid, post, ok)
}

/// Whether `n` operations on metadata, each with a transaction of its own, lead from `pre` to
/// `post`.
pub open spec fn transactions(pre: EfsDriver, post: EfsDriver, n: nat) -> bool
    decreases n,
{
    if n == 0 {
        post.untouched(&pre)
    } else {
        exists|x: EfsDriver|
            transactions(pre, x, (n - 1) as nat) && #[trigger] settled_staged(x, post, true)
    }
}

/// What an operation that writes file data does to the journal and the medium when it succeeds:
/// the volume comes to `st`, the data writes are exactly those of `log`, and then the operation's
/// transaction is merged.
pub open spec fn settled_with(
    pre: EfsDriver,
    post: EfsDriver,
    st: FsState,
    log: Seq<PageWrite>,
) -> bool {
    exists|mid: EfsDriver| #[trigger] concluded_with(pre, mid, post, st, log)
}

/// The way there.
pub open spec fn concluded_with(
    pre: EfsDriver,
    mid: EfsDriver,
    post: EfsDriver,
    st: FsState,
    log: Seq<PageWrite>,
) -> bool {
    &&& mid@ == st
    &&& mid.logged_within(&pre, log)
    &&& merged(mid, post, true)
}

/// Data that was written with nothing written through the cache besides is on the medium.
pub proof fn lemma_all_home(a: EfsDriver, b: EfsDriver, log: Seq<PageWrite>)
    requires
        a.wf(),
        block_device::logged(a.site(), b.site(), Set::empty(), log),
    ensures
        block_device::all_home(b.site(), log),
{
    a.device.lemma_wf();
    assert forall|j: int|
        0 <= j < log.len() && block_device::last_write(log, j) implies block_device::at_home(
        b.site(),
        (#[trigger] log[j]).0,
        log[j].1,
    ) by {
        block_device::logged_data_is_home(a.site(), b.site(), Set::empty(), log, j);
    }
}

/// What is logged first and what is logged then.
pub proof fn lemma_logged_on(
    a: EfsDriver,
    b: EfsDriver,
    c: EfsDriver,
    l1: Seq<PageWrite>,
    l2: Seq<PageWrite>,
)
    requires
        b.logged_within(&a, l1),
        c.logged_since(&b, l2),
    ensures
        c.logged_within(&a, l1 + l2),
        a@.blocks.subset_of(b@.blocks) ==> c.logged_since(&a, l1 + l2),
{
    block_device::logged_on(a.site(), b.site(), c.site(), b@.blocks, c@.blocks, l1, l2);
}

/// File data is on the medium when the operation that wrote it is done, unless the operation
/// wrote the same block as metadata too, or as data again.
pub proof fn settled_data_is_home(
    pre: EfsDriver,
    post: EfsDriver,
    st: FsState,
    log: Seq<PageWrite>,
    j: int,
)
    requires
        pre.wf(),
        settled_with(pre, post, st, log),
        0 <= j < log.len(),
        block_device::last_write(log, j),
        !st.blocks.contains(log[j].0),
    ensures
        block_device::at_home(post.site(), log[j].0, log[j].1),
{
    let mid = choose|mid: EfsDriver| #[trigger] concluded_with(pre, mid, post, st, log);
    pre.device.lemma_wf();
    block_device::logged_data_is_home(pre.site(), mid.site(), mid@.blocks, log, j);
}

// ---- Blocks and inodes ------------------------------------------------------------

impl EfsDriver {
    /// What holds of every mounted volume.
    pub open spec fn wf(&self) -> bool {
        &&& self.device.wf()
        &&& self.journal.region().start < self.device@.len()
        &&& model::mounted(self@)
        &&& self.starting_lba % 8 == 0
        &&& !self.tx.aborted
    }

    /// The device and what the journal keeps from its medium.
    pub open spec fn site(&self) -> Site {
        Site { tracker: self.journal@.tracker, device: self.device }
    }

    /// The parts of the driver that only ending a transaction or committing one changes: all of
    /// the journal but which blocks wait for a transaction.
    pub open spec fn same_journal(&self, other: &EfsDriver) -> bool {
        &&& self.journal@ == (JournalView { tracker: self.journal@.tracker, ..other.journal@ })
        &&& self.journal.same_region(&other.journal)
        &&& self.starting_lba == other.starting_lba
    }

    /// Whether at most reads were done since: journal, medium and what is dirty are the same.
    pub open spec fn untouched(&self, other: &EfsDriver) -> bool {
        self.same_journal(other) && block_device::looked(other.site(), self.site())
    }

    /// Whether at most reads, and writes through the cache of blocks that the open transaction
    /// carries, were done since.
    pub open spec fn staged_within(&self, other: &EfsDriver) -> bool {
        &&& self.same_journal(other)
        &&& block_device::staged(other.site(), self.site(), self@.blocks)
    }

    /// Whether besides such accesses exactly the writes of file data around the cache that `log`
    /// lists were done since, in its order.
    pub open spec fn logged_within(&self, other: &EfsDriver, log: Seq<PageWrite>) -> bool {
        &&& self.same_journal(other)
        &&& block_device::logged(other.site(), self.site(), self@.blocks, log)
    }

    /// Whether besides such accesses at most writes of file data around the cache were done since.
    pub open spec fn written_within(&self, other: &EfsDriver) -> bool {
        &&& self.same_journal(other)
        &&& block_device::written(other.site(), self.site(), self@.blocks)
    }

    /// The same as [`logged_within`](Self::logged_within), in the same transaction.
    pub open spec fn logged_since(&self, other: &EfsDriver, log: Seq<PageWrite>) -> bool {
        &&& self.logged_within(other, log)
        &&& other@.blocks.subset_of(self@.blocks)
    }

    /// The same as [`staged_within`](Self::staged_within), in the same transaction.
    pub open spec fn staged_since(&self, other: &EfsDriver) -> bool {
        &&& self.staged_within(other)
        &&& other@.blocks.subset_of(self@.blocks)
    }

    /// The same as [`written_within`](Self::written_within), in the same transaction.
    pub open spec fn written_since(&self, other: &EfsDriver) -> bool {
        &&& self.written_within(other)
        &&& other@.blocks.subset_of(self@.blocks)
    }

    /// Reads a block.
    pub fn read_block(&mut self, block: u64) -> (r: Result<Vec<u8>, Error>)
        requires
            old(self).wf(),
        ensures
            final(self).wf(),
            final(self)@ == old(self)@,
            final(self).untouched(old(self)),
            types::bytes_of(r) == model::read_block(old(self)@, block as int),
            r matches Ok(d) ==> d@.len() == BLOCK_SIZE,
    {
        if block >= MAX_PAGES {
            return Err(Error::AhciError);
        }
        match self.device.read_page(self.starting_lba / 8 + block) {
            Ok(p) => Ok(p),
            Err(_) => Err(Error::AhciError),
        }
    }

    /// Writes a metadata block through the cache and enrolls it in the open transaction. The
    /// medium keeps its copy, unless the cache has no room for the block.
    pub fn write_block(&mut self, block: u64, data: &[u8]) -> (r: Result<(), Error>)
        requires
            old(self).wf(),
            data@.len() == BLOCK_SIZE,
        ensures
            final(self).wf(),
            final(self).staged_since(old(self)),
            (final(self)@, r) == model::write_block(old(self)@, block as int, data@),
            r is Ok ==> block_device::cached_write(
                old(self).site(),
                (old(self)@.base + block) as u64,
                data@,
                final(self).site(),
            ),
            r is Err ==> final(self).untouched(old(self)),
    {
        if block >= MAX_PAGES {
            return Err(Error::AhciError);
        }
        let idx: u64 = self.starting_lba / 8 + block;
        match self.device.write_page(&mut self.journal.checkpoint_tracker, idx, data) {
            Ok(_) => {
                self.tx.enroll_block(idx);
                proof {
                    journal::lemma_same_pending(old(self).journal@, self.journal@);
                    assert(block_device::cached_write(
                        old(self).site(),
                        idx,
                        data@,
                        self.site(),
                    ));
                }
                Ok(())
            },
            Err(_) => Err(Error::AhciError),
        }
    }

    /// Writes a block of file data, which is not journalled: it goes straight to the medium, and
    /// what is cached of the block is dropped.
    pub fn write_data(&mut self, block: u64, data: &[u8]) -> (r: Result<(), Error>)
        requires
            old(self).wf(),
            data@.len() == BLOCK_SIZE,
        ensures
            final(self).wf(),
            final(self).written_since(old(self)),
            (final(self)@, r) == model::write_data(old(self)@, block as int, data@),
            r is Ok ==> block_device::direct_write(
                old(self).site(),
                (old(self)@.base + block) as u64,
                data@,
                final(self).site(),
            ) && final(self).logged_since(
                old(self),
                seq![((old(self)@.base + block) as u64, data@)],
            ),
            r is Err ==> final(self).untouched(old(self)),
    {
        if block >= MAX_PAGES {
            return Err(Error::AhciError);
        }
        let idx: u64 = self.starting_lba / 8 + block;
        let r = self.device.write_direct(&mut self.journal.checkpoint_tracker, idx, data);
        proof {
            journal::lemma_same_pending(old(self).journal@, self.journal@);
            if r is Ok {
                assert(block_device::direct_write(old(self).site(), idx, data@, self.site()));
                block_device::logged_direct(
                    old(self).site(),
                    idx,
                    data@,
                    self.site(),
                    self@.blocks,
                );
                assert(self@ =~= model::write_data(old(self)@, block as int, data@).0);
            } else {
                assert(block_device::looked(old(self).site(), self.site()));
                assert(self@ =~= old(self)@);
            }
        }
        match r {
            Ok(_) => Ok(()),
            Err(_) => Err(Error::AhciError),
        }
    }

    /// Enrolls a block in the open transaction as it stands, if the device has it.
    pub(crate) fn enroll_at(&mut self, block: u64)
        requires
            old(self).wf(),
        ensures
            final(self).wf(),
            final(self).staged_since(old(self)),
            final(self)@ == model::enroll(old(self)@, block as int),
    {
        match self.read_block(block) {
            Ok(_) => {
                let idx: u64 = self.starting_lba / 8 + block;
                self.tx.enroll_block(idx);
            },
            Err(_) => {},
        }
    }

    /// Enrolls the pages that hold group `g`'s descriptor and the superblock.
    fn enroll_counters(&mut self, g: usize)
        requires
            old(self).wf(),
            g < old(self)@.bgds.len(),
        ensures
            final(self).wf(),
            final(self).staged_since(old(self)),
            final(self)@ == model::enroll_counters(old(self)@, g as int),
    {
        self.enroll_at(2 + (g / 64) as u64);
        self.enroll_at(1);
    }

    /// The inode table block that holds an inode, and where in it the inode lies.
    fn inode_location(&self, ino: u64) -> (r: Option<(u64, usize)>)
        requires
            self.wf(),
        ensures
            match r {
                Some((b, off)) => off == model::inode_offset(self@, ino) && off + INODE_SIZE
                    <= BLOCK_SIZE && (model::inode_block(self@, ino) == Some(b as int) || (
                model::inode_block(self@, ino) matches Some(x) && x >= MAX_PAGES && b
                    >= MAX_PAGES)),
                None => model::inode_block(self@, ino) is None,
            },
    {
        if ino == 0 {
            return None;
        }
        let ipg: u64 = self.superblock.inodes_per_group as u64;
        let group: u64 = (ino - 1) / ipg;
        if group >= self.bgd_table.len() as u64 {
            return None;
        }
        let idx: u64 = (ino - 1) % ipg;
        let table: u64 = self.bgd_table[group as usize].inode_table_block;
        let off: usize = (idx % 16 * 256) as usize;
        if table >= MAX_PAGES {
            return Some((table, off));
        }
        Some((table + idx / 16, off))
    }

    /// Reads an inode.
    pub fn read_inode(&mut self, ino: u64) -> (r: Result<EfsInode, Error>)
        requires
            old(self).wf(),
        ensures
            final(self).wf(),
            final(self)@ == old(self)@,
            final(self).untouched(old(self)),
            inode_of(r) == model::read_inode(old(self)@, ino),
            r matches Ok(i) ==> i.wf(),
    {
        proof {
            reveal(model::read_inode);
            self.device.lemma_wf();
        }
        let (b, off) = match self.inode_location(ino) {
            Some(x) => x,
            None => return Err(Error::Corrupted),
        };
        match self.read_block(b) {
            Ok(d) => Ok(EfsInode::decode(d.as_slice(), off)),
            Err(e) => Err(e),
        }
    }

    /// Writes an inode, in the open transaction.
    pub fn write_inode(&mut self, ino: u64, inode: &EfsInode) -> (r: Result<(), Error>)
        requires
            old(self).wf(),
            inode.wf(),
        ensures
            final(self).wf(),
            final(self).staged_since(old(self)),
            (final(self)@, r) == model::write_inode(old(self)@, ino, inode@),
    {
        proof {
            reveal(model::write_inode);
            self.device.lemma_wf();
        }
        let (b, off) = match self.inode_location(ino) {
            Some(x) => x,
            None => return Err(Error::Corrupted),
        };
        let mut d = match self.read_block(b) {
            Ok(d) => d,
            Err(e) => return Err(e),
        };
        let e = inode.encode();
        write_at(&mut d, off, e.as_slice());
        self.write_block(b, d.as_slice())
    }
}

// ---- Allocation -------------------------------------------------------------------

impl EfsDriver {
    /// Bits of a bitmap block that stand for anything.
    fn usable_bits(per_group: u32) -> (n: usize)
        ensures
            n == model::usable_bits(per_group),
            n <= 32768,
    {
        if per_group < 32768 {
            per_group as usize
        } else {
            32768
        }
    }

    /// Marks `len` blocks from `bit` of group `g` used, and enrolls every metadata
    /// page the claim concerns.
    fn claim_run(&mut self, g: usize, map: Vec<u8>, bit: usize, len: usize) -> (r: Result<
        Vec<u64>,
        Error,
    >)
        requires
            old(self).wf(),
            g < old(self)@.bgds.len(),
            map@.len() == BLOCK_SIZE,
            bit + len <= 32768,
        ensures
            final(self).wf(),
            final(self).staged_since(old(self)),
            final(self)@.bgds.len() == old(self)@.bgds.len(),
            (final(self)@, blocks_of(r)) == model::claim_run(
                old(self)@,
                g as int,
                map@,
                bit as int,
                len as int,
            ),
    {
        proof {
            reveal(model::claim_run);
        }
        let mut map = map;
        set_run(&mut map, bit, len);
        let d = self.bgd_table[g];
        self.bgd_table[g] = EfsBlockGroupDesc {
            free_blocks_count: d.free_blocks_count.wrapping_sub(len as u64),
            ..d
        };
        self.superblock.free_blocks = self.superblock.free_blocks.wrapping_sub(len as u64);
        assert(g * self.superblock.blocks_per_group <= 0xFFFF_FFFF * 0xFFFF_FFFF)
            by (nonlinear_arith)
            requires
                g <= 0xFFFF_FFFF,
                self.superblock.blocks_per_group <= 0xFFFF_FFFF,
        ;
        let first: u64 = g as u64 * self.superblock.blocks_per_group as u64 + bit as u64;
        match self.write_block(d.block_bitmap_block, map.as_slice()) {
            Ok(_) => {},
            Err(e) => return Err(e),
        }
        self.enroll_counters(g);
        let mut out: Vec<u64> = Vec::new();
        let mut i: usize = 0;
        while i < len
            invariant
                i <= len <= 32768,
                first <= 0xFFFF_FFFF * 0xFFFF_FFFF + 32768,
                out@ == model::block_seq(first as int, i as int),
            decreases len - i,
        {
            out.push(first + i as u64);
            i = i + 1;
            assert(out@ =~= model::block_seq(first as int, i as int));
        }
        Ok(out)
    }

    /// Allocates up to `want` blocks, preferring a single physically contiguous
    /// run, and returns them in ascending order. `goal` is the block the caller
    /// would like the run to start at.
    pub fn alloc_blocks(&mut self, want: usize, goal: Option<u64>) -> (r: Result<Vec<u64>, Error>)
        requires
            old(self).wf(),
            want > 0,
        ensures
            final(self).wf(),
            final(self).staged_since(old(self)),
            final(self)@.bgds.len() == old(self)@.bgds.len(),
            (final(self)@, blocks_of(r)) == model::alloc_blocks(old(self)@, want as int, goal),
    {
        proof {
            reveal(model::alloc_blocks);
            self.device.lemma_wf();
        }
        let bpg: u64 = self.superblock.blocks_per_group as u64;
        let bits: usize = Self::usable_bits(self.superblock.blocks_per_group);
        let n: usize = self.bgd_table.len();
        let mut first: usize = 0;
        match goal {
            Some(b) => {
                if b / bpg < n as u64 {
                    let g: usize = (b / bpg) as usize;
                    first = g;
                    let bit: u64 = b % bpg;
                    let free: u64 = self.bgd_table[g].free_blocks_count;
                    if free > 0 && bit < bits as u64 {
                        let map = match self.read_block(self.bgd_table[g].block_bitmap_block) {
                            Ok(m) => m,
                            Err(e) => return Err(e),
                        };
                        let want_here: usize = if (want as u64) < free {
                            want
                        } else {
                            free as usize
                        };
                        let len: usize = free_run_at(map.as_slice(), bits, want_here, bit as usize);
                        if len > 0 {
                            return self.claim_run(g, map, bit as usize, len);
                        }
                    }
                }
            },
            None => {},
        }
        let mut i: usize = 0;
        while i < n
            invariant
                self.wf(),
                self.staged_since(old(self)),
                self@ == old(self)@,
                n == self@.bgds.len(),
                n <= u32::MAX,
                i <= n,
                first < n || first == 0,
                want > 0,
                bits == model::usable_bits(self@.sb.blocks_per_group),
                bits <= 32768,
                model::alloc_blocks(old(self)@, want as int, goal) == model::first_fit(
                    self@,
                    first as int,
                    i as int,
                    want as int,
                ),
            decreases n - i,
        {
            let g: usize = ((first as u64 + i as u64) % (n as u64)) as usize;
            let free: u64 = self.bgd_table[g].free_blocks_count;
            if free > 0 {
                let map = match self.read_block(self.bgd_table[g].block_bitmap_block) {
                    Ok(m) => m,
                    Err(e) => return Err(e),
                };
                let want_here: usize = if (want as u64) < free {
                    want
                } else {
                    free as usize
                };
                match find_free_run(map.as_slice(), bits, want_here) {
                    Some((bit, len)) => {
                        return self.claim_run(g, map, bit, len);
                    },
                    None => {},
                }
            }
            i = i + 1;
        }
        Err(Error::IoError)
    }

    /// Allocates a block.
    pub fn alloc_block(&mut self) -> (r: Result<u64, Error>)
        requires
            old(self).wf(),
        ensures
            final(self).wf(),
            final(self).staged_since(old(self)),
            final(self)@.bgds.len() == old(self)@.bgds.len(),
            (final(self)@, r) == model::alloc_block(old(self)@),
    {
        match self.alloc_blocks(1, None) {
            Ok(bs) => if bs.len() == 0 {
                Err(Error::IoError)
            } else {
                Ok(bs[0])
            },
            Err(e) => Err(e),
        }
    }

    /// Frees a block and revokes its journal copies.
    pub fn free_block(&mut self, block: u64) -> (r: Result<(), Error>)
        requires
            old(self).wf(),
        ensures
            final(self).wf(),
            final(self).staged_since(old(self)),
            final(self)@.bgds.len() == old(self)@.bgds.len(),
            (final(self)@, r) == model::free_block(old(self)@, block),
    {
        proof {
            reveal(model::free_block);
            self.device.lemma_wf();
        }
        let bpg: u64 = self.superblock.blocks_per_group as u64;
        let group: u64 = block / bpg;
        let bit: u64 = block % bpg;
        if group >= self.bgd_table.len() as u64 || bit >= 32768 || block >= MAX_PAGES {
            return Err(Error::Corrupted);
        }
        let g: usize = group as usize;
        let bitmap_block: u64 = self.bgd_table[g].block_bitmap_block;
        let mut map = match self.read_block(bitmap_block) {
            Ok(m) => m,
            Err(e) => return Err(e),
        };
        clear_bit(&mut map, bit as usize);
        match self.write_block(bitmap_block, map.as_slice()) {
            Ok(_) => {},
            Err(e) => return Err(e),
        }
        let d = self.bgd_table[g];
        self.bgd_table[g] = EfsBlockGroupDesc {
            free_blocks_count: d.free_blocks_count.wrapping_add(1),
            ..d
        };
        self.superblock.free_blocks = self.superblock.free_blocks.wrapping_add(1);
        self.enroll_counters(g);
        self.tx.enroll_revoke(self.starting_lba / 8 + block);
        Ok(())
    }

    /// Allocates an inode and returns its number.
    pub fn alloc_inode(&mut self) -> (r: Result<u64, Error>)
        requires
            old(self).wf(),
        ensures
            final(self).wf(),
            final(self).staged_since(old(self)),
            final(self)@.bgds.len() == old(self)@.bgds.len(),
            (final(self)@, r) == model::alloc_inode(old(self)@),
    {
        proof {
            reveal(model::alloc_inode);
            self.device.lemma_wf();
        }
        let bits: usize = Self::usable_bits(self.superblock.inodes_per_group);
        let n: usize = self.bgd_table.len();
        let mut g: usize = 0;
        while g < n
            invariant
                self.wf(),
                self.staged_since(old(self)),
                self@ == old(self)@,
                n == self@.bgds.len(),
                g <= n,
                bits == model::usable_bits(self@.sb.inodes_per_group),
                bits <= 32768,
                model::alloc_inode(old(self)@) == model::alloc_inode_from(self@, g as int),
            decreases n - g,
        {
            let d = self.bgd_table[g];
            if d.free_inodes_count > 0 {
                let mut map = match self.read_block(d.inode_bitmap_block) {
                    Ok(m) => m,
                    Err(e) => return Err(e),
                };
                match find_free_bit(map.as_slice(), bits) {
                    Some(bit) => {
                        set_bit(&mut map, bit);
                        self.bgd_table[g] = EfsBlockGroupDesc {
                            free_inodes_count: d.free_inodes_count.wrapping_sub(1),
                            ..d
                        };
                        self.superblock.free_inodes = self.superblock.free_inodes.wrapping_sub(1);
                        assert(g * self.superblock.inodes_per_group <= 0xFFFF_FFFF * 0xFFFF_FFFF)
                            by (nonlinear_arith)
                            requires
                                g <= 0xFFFF_FFFF,
                                self.superblock.inodes_per_group <= 0xFFFF_FFFF,
                        ;
                        let ino: u64 = g as u64 * self.superblock.inodes_per_group as u64
                            + bit as u64 + 1;
                        match self.write_block(d.inode_bitmap_block, map.as_slice()) {
                            Ok(_) => {},
                            Err(e) => return Err(e),
                        }
                        self.enroll_counters(g);
                        return Ok(ino);
                    },
                    None => {},
                }
            }
            g = g + 1;
        }
        Err(Error::IoError)
    }

    /// Frees an inode.
    pub fn free_inode(&mut self, ino: u64) -> (r: Result<(), Error>)
        requires
            old(self).wf(),
        ensures
            final(self).wf(),
            final(self).staged_since(old(self)),
            final(self)@.bgds.len() == old(self)@.bgds.len(),
            (final(self)@, r) == model::free_inode(old(self)@, ino),
    {
        proof {
            reveal(model::free_inode);
            self.device.lemma_wf();
        }
        if ino == 0 {
            return Err(Error::Corrupted);
        }
        let ipg: u64 = self.superblock.inodes_per_group as u64;
        let group: u64 = (ino - 1) / ipg;
        let bit: u64 = (ino - 1) % ipg;
        if group >= self.bgd_table.len() as u64 || bit >= 32768 {
            return Err(Error::Corrupted);
        }
        let g: usize = group as usize;
        let bitmap_block: u64 = self.bgd_table[g].inode_bitmap_block;
        let mut map = match self.read_block(bitmap_block) {
            Ok(m) => m,
            Err(e) => return Err(e),
        };
        clear_bit(&mut map, bit as usize);
        match self.write_block(bitmap_block, map.as_slice()) {
            Ok(_) => {},
            Err(e) => return Err(e),
        }
        let d = self.bgd_table[g];
        self.bgd_table[g] = EfsBlockGroupDesc {
            free_inodes_count: d.free_inodes_count.wrapping_add(1),
            ..d
        };
        self.superblock.free_inodes = self.superblock.free_inodes.wrapping_add(1);
        self.enroll_counters(g);
        Ok(())
    }
}

} // verus!
