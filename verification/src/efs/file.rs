//! File data: reading and writing it through the block map, and the page cache's
//! side of the driver.
use vstd::prelude::*;
use crate::types;
use crate::bytes;
use crate::bytes::{push_slice, sub_vec, write_at, zero_vec};
use crate::error::Error;
use crate::journal;
use crate::journal::tx::TxHandle;
use super::driver;
use super::driver::EfsDriver;
use super::extents::{BlockRun, ExtentMap};
use super::layout::{EfsInode, INODE_DATA_AREA_SIZE, INODE_FLAG_INLINE_DATA};
use super::model;
use super::model::{ExtentRead, PlannedRun, MAX_RUN_BLOCKS};

verus! {

broadcast use crate::block_device::staging;

/// Reads kept in flight by one bulk file-data read.
pub const MAX_INFLIGHT_READS: usize = 16;

/// Bytes those reads may stage at once.
pub const MAX_INFLIGHT_BYTES: usize = 2_097_152;

/// What to prefetch: how many pages the window covers, and the reads to queue.
pub struct PrefetchPlan {
    pub pages: u64,
    pub runs: Vec<PlannedRun>,
}

/// Every read of a plan fits the buffer it fills and the run it takes from.
pub open spec fn plan_fits(runs: Seq<ExtentRead>, count: int) -> bool {
    forall|k: int|
        0 <= k < runs.len() ==> {
            let r = #[trigger] runs[k];
            &&& r.dest + r.len <= count
            &&& r.skew + r.len <= (r.sectors / 8) * 4096
            &&& r.sectors <= 1984
            &&& r.lba / 8 < 0x80_0000_0000_0000
        }
}

/// One past the last read of the batch that starts at `idx`: as many as may be in
/// flight at once and may stage their bytes at once, and at least one.
pub open spec fn batch_end_spec(runs: Seq<ExtentRead>, idx: int, end: int, staged: int) -> int
    decreases runs.len() - end,
{
    if end >= runs.len() || end - idx >= MAX_INFLIGHT_READS || (end > idx && staged
        + runs[end].sectors * 512 > MAX_INFLIGHT_BYTES) {
        end
    } else {
        batch_end_spec(runs, idx, end + 1, staged + runs[end].sectors * 512)
    }
}

/// Computes [`batch_end_spec`].
pub fn batch_end(runs: &Vec<ExtentRead>, idx: usize) -> (end: usize)
    requires
        idx < runs@.len(),
    ensures
        end == batch_end_spec(runs@, idx as int, idx as int, 0),
        idx < end <= runs@.len(),
{
    let mut end: usize = idx;
    let mut staged: usize = 0;
    while end < runs.len() && end - idx < MAX_INFLIGHT_READS
        invariant_except_break
            idx <= end <= runs@.len(),
            idx < runs@.len(),
            end - idx <= 16,
            staged <= (end - idx) * 0x200_0000,
            end > idx || staged == 0,
            batch_end_spec(runs@, idx as int, idx as int, 0) == batch_end_spec(
                runs@,
                idx as int,
                end as int,
                staged as int,
            ),
        ensures
            end == batch_end_spec(runs@, idx as int, idx as int, 0),
            idx < end <= runs@.len(),
        decreases runs@.len() - end,
    {
        let n: usize = runs[end].sectors as usize * 512;
        if end > idx && staged + n > MAX_INFLIGHT_BYTES {
            break;
        }
        staged = staged + n;
        end = end + 1;
    }
    end
}

// ---- Transactions -----------------------------------------------------------------

impl EfsDriver {
    /// Opens a transaction.
    pub(crate) fn begin_tx(&mut self)
        requires
            old(self).wf(),
        ensures
            final(self).wf(),
            final(self).untouched(old(self)),
            final(self)@ == model::begin(old(self)@),
    {
        self.tx = self.journal.begin_tx();
    }

    /// Ends the open transaction: what it staged is merged into the journal's active
    /// transaction when the operation succeeded, and dropped otherwise.
    pub(crate) fn end_tx(&mut self, ok: bool)
        requires
            old(self).wf(),
        ensures
            final(self).wf(),
            final(self)@ == model::ended(old(self)@, ok),
            final(self).device == old(self).device,
            final(self).starting_lba == old(self).starting_lba,
            final(self).journal.same_region(&old(self).journal),
            final(self).journal@ == (if ok {
                journal::merge(
                    old(self).journal@,
                    journal::tx_limit(old(self).journal.block_count),
                    old(self)@.blocks,
                    old(self)@.revokes,
                    old(self).device.dirty(),
                )
            } else {
                old(self).journal@
            }),
    {
        let mut tx = TxHandle::new();
        std::mem::swap(&mut tx, &mut self.tx);
        if !ok {
            tx.abort();
        }
        proof {
            journal::merge_adds_pending(
                self.journal@,
                journal::tx_limit(self.journal.block_count),
                tx.staged_blocks@,
                tx.staged_revokes@,
                self.device.dirty(),
            );
        }
        self.journal.end_tx(tx, &self.device);
    }
}

// ---- Reading ----------------------------------------------------------------------

impl EfsDriver {
    /// Plans every device read that `count` bytes at `off` need, so that the runs
    /// can be queued together.
    fn plan_reads(&self, map: &ExtentMap, off: u64, count: usize) -> (runs: Vec<ExtentRead>)
        requires
            self.wf(),
            off + count <= u64::MAX,
        ensures
            runs@ == model::plan_reads(
                map@,
                self@.base * 8,
                off as int,
                count as int,
                0,
                Seq::empty(),
            ),
            plan_fits(runs@, count as int),
    {
        let mut runs: Vec<ExtentRead> = Vec::new();
        let mut dest: usize = 0;
        let mut remaining: usize = count;
        let mut pos: u64 = off;
        let ghost plan = model::plan_reads(
            map@,
            self@.base * 8,
            off as int,
            count as int,
            0,
            Seq::empty(),
        );
        assert(runs@ =~= Seq::<ExtentRead>::empty());
        while remaining > 0
            invariant
                self.wf(),
                pos + remaining <= u64::MAX,
                dest + remaining == count,
                plan == model::plan_reads(
                    map@,
                    self@.base * 8,
                    pos as int,
                    remaining as int,
                    dest as int,
                    runs@,
                ),
                plan_fits(runs@, count as int),
            decreases remaining,
        {
            let lb: u32 = ((pos / 4096) % 0x1_0000_0000) as u32;
            let skew: usize = (pos % 4096) as usize;
            let needed: u64 = remaining as u64 / 4096 + (remaining as u64 % 4096 + skew as u64
                + 4095) / 4096;
            assert(needed == (remaining + pos % 4096 + 4095) / 4096);
            let take: u64;
            let mut mapped: Option<u64> = None;
            match map.run_at(lb) {
                BlockRun::Mapped { phys, blocks } => {
                    let a: u64 = if needed < blocks as u64 {
                        needed
                    } else {
                        blocks as u64
                    };
                    take = if a < MAX_RUN_BLOCKS as u64 {
                        a
                    } else {
                        MAX_RUN_BLOCKS as u64
                    };
                    mapped = Some(phys);
                },
                BlockRun::Hole { blocks } => {
                    take = match blocks {
                        Some(n) => if (n as u64) < needed {
                            n as u64
                        } else {
                            needed
                        },
                        None => needed,
                    };
                },
            }
            assert(take == model::run_take(map@, pos as int, remaining as int));
            assert(0 < take <= needed);
            let adv: usize = if take == needed {
                remaining
            } else {
                (take * 4096 - skew as u64) as usize
            };
            assert(adv == model::run_advance(map@, pos as int, remaining as int));
            match mapped {
                Some(phys) => {
                    runs.push(
                        ExtentRead {
                            lba: self.starting_lba + phys * 8,
                            sectors: (take * 8) as u16,
                            dest,
                            skew,
                            len: adv,
                        },
                    );
                },
                None => {},
            }
            dest = dest + adv;
            remaining = remaining - adv;
            pos = pos + adv as u64;
        }
        runs
    }

    /// Carries one planned read out.
    fn read_run(&mut self, r: &ExtentRead, out: &mut Vec<u8>) -> (res: Result<(), Error>)
        requires
            old(self).wf(),
            r.dest + r.len <= old(out).len(),
            r.skew + r.len <= (r.sectors / 8) * 4096,
            r.sectors <= 1984,
            r.lba / 8 < 0x80_0000_0000_0000,
        ensures
            final(self).wf(),
            final(self)@ == old(self)@,
            final(self).untouched(old(self)),
            final(out)@.len() == old(out)@.len(),
            res matches Err(e) ==> r.lba / 8 + r.sectors / 8 > old(self)@.pages.len() && e
                == Error::AhciError,
            res is Ok ==> r.lba / 8 + r.sectors / 8 <= old(self)@.pages.len() && final(out)@
                == bytes::splice(
                old(out)@,
                r.dest as int,
                model::device_bytes(
                    old(self)@.pages,
                    r.lba as int / 8,
                    r.skew as int,
                    r.len as int,
                ),
            ),
    {
        let first: u64 = r.lba / 8;
        let n: u64 = (r.sectors / 8) as u64;
        let mut staging: Vec<u8> = Vec::new();
        let mut i: u64 = 0;
        while i < n
            invariant
                self.wf(),
                self@ == old(self)@,
                self.untouched(old(self)),
                i <= n <= 248,
                first < 0x80_0000_0000_0000,
                first + i <= self@.pages.len() || i == 0,
                first == r.lba / 8,
                n == r.sectors / 8,
                out@ == old(out)@,
                staging@.len() == i * 4096,
                forall|x: int|
                    0 <= x < i * 4096 ==> staging@[x] == self@.pages[first + x / 4096][x % 4096],
            decreases n - i,
        {
            let page = match self.device.read_page(first + i) {
                Ok(p) => p,
                Err(_) => return Err(Error::AhciError),
            };
            let ghost before = staging@;
            push_slice(&mut staging, page.as_slice());
            i = i + 1;
            assert forall|x: int| 0 <= x < i * 4096 implies staging@[x] == self@.pages[first + x
                / 4096][x % 4096] by {
                if x >= before.len() {
                    assert(x / 4096 == i - 1);
                    assert(staging@[x] == page@[x - before.len()]);
                } else {
                    assert(staging@[x] == before[x]);
                }
            }
        }
        let wanted = sub_vec(staging.as_slice(), r.skew, r.skew + r.len);
        assert(wanted@ =~= model::device_bytes(
            old(self)@.pages,
            r.lba as int / 8,
            r.skew as int,
            r.len as int,
        ));
        write_at(out, r.dest, wanted.as_slice());
        if n == 0 && first > self.device.page_count() {
            return Err(Error::AhciError);
        }
        Ok(())
    }

    /// Reads `count` bytes at `off` of a file that is not inline. The reads are
    /// planned first, then issued in batches.
    pub fn read_via_extents(&mut self, inode: &EfsInode, off: u64, count: usize) -> (r: Result<
        Vec<u8>,
        Error,
    >)
        requires
            old(self).wf(),
            inode.wf(),
            off + count <= u64::MAX,
        ensures
            final(self).wf(),
            final(self)@ == old(self)@,
            final(self).untouched(old(self)),
            types::bytes_of(r) == (match model::load_map(old(self)@, inode@) {
                Err(e) => Err(e),
                Ok(m) => model::read_mapped(old(self)@, m, off as int, count as int),
            }),
    {
        let map = match self.load_extent_map(inode) {
            Ok(m) => m,
            Err(e) => return Err(e),
        };
        let mut out = zero_vec(count);
        let runs = self.plan_reads(&map, off, count);
        let mut idx: usize = 0;
        while idx < runs.len()
            invariant
                self.wf(),
                self@ == old(self)@,
                self.untouched(old(self)),
                idx <= runs@.len(),
                out@.len() == count,
                plan_fits(runs@, count as int),
                model::run_reads(self@.pages, runs@, 0, bytes::zeros(count as int))
                    == model::run_reads(self@.pages, runs@, idx as int, out@),
                driver::map_of(Ok(map)) == model::load_map(old(self)@, inode@),
                runs@ == model::plan_reads(
                    map@,
                    self@.base * 8,
                    off as int,
                    count as int,
                    0,
                    Seq::empty(),
                ),
            decreases runs@.len() - idx,
        {
            let end: usize = batch_end(&runs, idx);
            let mut k: usize = idx;
            while k < end
                invariant
                    self.wf(),
                    self@ == old(self)@,
                    self.untouched(old(self)),
                    idx <= k <= end <= runs@.len(),
                    out@.len() == count,
                    plan_fits(runs@, count as int),
                    model::run_reads(self@.pages, runs@, 0, bytes::zeros(count as int))
                        == model::run_reads(self@.pages, runs@, k as int, out@),
                    driver::map_of(Ok(map)) == model::load_map(old(self)@, inode@),
                    runs@ == model::plan_reads(
                        map@,
                        self@.base * 8,
                        off as int,
                        count as int,
                        0,
                        Seq::empty(),
                    ),
                decreases end - k,
            {
                let r = runs[k];
                match self.read_run(&r, &mut out) {
                    Ok(_) => {},
                    Err(e) => return Err(e),
                }
                k = k + 1;
            }
            idx = end;
        }
        Ok(out)
    }

    /// Reads up to `count` bytes at `offset` of a file.
    pub fn read_file_data(&mut self, inode: &EfsInode, offset: usize, count: usize) -> (r: Result<
        Vec<u8>,
        Error,
    >)
        requires
            old(self).wf(),
            inode.wf(),
        ensures
            final(self).wf(),
            final(self)@ == old(self)@,
            final(self).untouched(old(self)),
            types::bytes_of(r) == model::read_file_data(
                old(self)@,
                inode@,
                offset as int,
                count as int,
            ),
    {
        proof {
            reveal(model::read_file_data);
        }
        if offset as u64 >= inode.size || count == 0 {
            let v: Vec<u8> = Vec::new();
            assert(v@ =~= Seq::<u8>::empty());
            return Ok(v);
        }
        let available: u64 = inode.size - offset as u64;
        let n: usize = if (count as u64) < available {
            count
        } else {
            available as usize
        };
        if inode.flags & INODE_FLAG_INLINE_DATA != 0 {
            let end: usize = if offset as u64 + (n as u64) < INODE_DATA_AREA_SIZE as u64 {
                offset + n
            } else {
                INODE_DATA_AREA_SIZE
            };
            if offset > end {
                return Err(Error::Corrupted);
            }
            return Ok(sub_vec(inode.data_area.as_slice(), offset, end));
        }
        self.read_via_extents(inode, offset as u64, n)
    }
}

} // verus!
