//! The page cache's side of the driver: filling pages from a file and flushing them
//! back.
use vstd::prelude::*;
use crate::types;
use crate::block_device;
use crate::block_device::PageWrite;
use crate::bytes::{sub_vec, write_at, zero_vec};
use crate::error::Error;
use crate::page_cache;
use crate::page_cache::{BulkSteps, DirtyPage, PageCacheOps, PageSteps};
use super::driver;
use super::bulk;
use super::datalog;
use super::driver::{concluded, concluded_staged, concluded_with, settled, settled_staged, settled_with, EfsDriver};
use super::extents::{BlockRun, ExtentMap};
use super::file::PrefetchPlan;
use super::layout;
use super::layout::{checksum_inode, EfsInode, InodeView, BLOCK_SIZE, INODE_DATA_AREA_SIZE, INODE_FLAG_INLINE_DATA, S_IFMT, S_IFREG};
use super::model;
use super::model::{Assigned, PlannedRun, MAX_BULK_PAGES, MAX_PREFETCH_RUNS, MAX_RUN_BLOCKS};

verus! {

broadcast use crate::block_device::writing;

/// A plan seen through its view.
pub open spec fn plan_of(r: Result<Option<PrefetchPlan>, Error>) -> Result<
    Option<(u64, Seq<PlannedRun>)>,
    Error,
> {
    match r {
        Ok(Some(p)) => Ok(Some((p.pages, p.runs@))),
        Ok(None) => Ok(None),
        Err(e) => Err(e),
    }
}

impl EfsDriver {

    fn put_page(&mut self, ino: u64, inode: &EfsInode, index: u64, data: &[u8]) -> (r: Result<
        (),
        Error,
    >)
        requires
            old(self).wf(),
            inode.wf(),
            data@.len() == BLOCK_SIZE,
        ensures
            final(self).wf(),
            final(self).written_since(old(self)),
            (final(self)@, r) == model::put_page(old(self)@, ino, inode@, index, data@),
            r is Ok ==> final(self).logged_since(
                old(self),
                datalog::put_page_log(old(self)@, ino, inode@, index, data@),
            ) && block_device::all_home(
                final(self).site(),
                datalog::put_page_log(old(self)@, ino, inode@, index, data@),
            ),
    {
        if inode.flags & INODE_FLAG_INLINE_DATA != 0 {
            match self.convert_inline_to_extents(ino, inode) {
                Ok(_) => {},
                Err(e) => return Err(e),
            }
        }
        let phys: u64 = match self.ensure_block_for_logical(
            ino,
            (index % 0x1_0000_0000) as u32,
            false,
        ) {
            Ok(p) => p,
            Err(e) => return Err(e),
        };
        let ghost before = *self;
        let r = self.write_data(phys, data);
        proof {
            if r is Ok {
                let one = seq![datalog::block_write(before@, phys, data@)];
                let none = Seq::<PageWrite>::empty();
                driver::lemma_logged_on(*old(self), before, *self, none, one);
                assert(none + one =~= one);
                block_device::logged_direct(
                    before.site(),
                    one[0].0,
                    one[0].1,
                    self.site(),
                    Set::empty(),
                );
                driver::lemma_all_home(before, *self, one);
            }
        }
        r
    }

    fn raise_size(&mut self, ino: u64, inode: EfsInode, size: u64, now: u64) -> (r: Result<
        (),
        Error,
    >)
        requires
            old(self).wf(),
            inode.wf(),
        ensures
            final(self).wf(),
            final(self).staged_since(old(self)),
            (final(self)@, r) == model::raise_size(old(self)@, ino, inode@, size, now),
    {
        let mut updated = inode;
        if updated.flags & INODE_FLAG_INLINE_DATA != 0 && size > INODE_DATA_AREA_SIZE as u64 {
            match self.convert_inline_to_extents(ino, &updated) {
                Ok(_) => {},
                Err(e) => return Err(e),
            }
            updated = match self.read_inode(ino) {
                Ok(i) => i,
                Err(e) => return Err(e),
            };
        }
        updated.size = size;
        updated.mtime_sec = now;
        checksum_inode(&mut updated);
        self.write_inode(ino, &updated)
    }
}

// ---- Batches ----------------------------------------------------------------------

impl EfsDriver {
    fn count_unmapped(map: &ExtentMap, lbs: &Vec<u32>) -> (n: usize)
        ensures
            n == model::unmapped(map@, lbs@, lbs@.len() as int),
            n <= lbs@.len(),
    {
        let mut n: usize = 0;
        let mut k: usize = 0;
        while k < lbs.len()
            invariant
                n <= k <= lbs@.len(),
                n == model::unmapped(map@, lbs@, k as int),
            decreases lbs@.len() - k,
        {
            if map.lookup(lbs[k]).is_none() {
                n = n + 1;
            }
            k = k + 1;
        }
        n
    }

    fn batch_goal(map: &ExtentMap, lbs: &Vec<u32>) -> (g: Option<u64>)
        ensures
            g == model::batch_goal(map@, lbs@, 0),
    {
        let mut k: usize = 0;
        while k < lbs.len()
            invariant
                k <= lbs@.len(),
                model::batch_goal(map@, lbs@, 0) == model::batch_goal(map@, lbs@, k as int),
            decreases lbs@.len() - k,
        {
            if map.lookup(lbs[k]).is_none() {
                return map.goal_for(lbs[k]);
            }
            k = k + 1;
        }
        None
    }

    fn alloc_pool(&mut self, need: usize, goal: Option<u64>) -> (r: Result<Vec<u64>, Error>)
        requires
            old(self).wf(),
        ensures
            final(self).wf(),
            final(self).staged_since(old(self)),
            (final(self)@, driver::blocks_of(r)) == model::alloc_pool(
                old(self)@,
                need as int,
                goal,
                Seq::empty(),
            ),
    {
        let mut pool: Vec<u64> = Vec::new();
        assert(pool@ =~= Seq::<u64>::empty());
        while pool.len() < need
            invariant
                self.wf(),
                self.staged_since(old(self)),
                pool@.len() <= need,
                model::alloc_pool(old(self)@, need as int, goal, Seq::empty())
                    == model::alloc_pool(self@, need as int, goal, pool@),
            decreases need - pool@.len(),
        {
            let g: Option<u64> = if pool.len() > 0 {
                Some(pool[pool.len() - 1].wrapping_add(1))
            } else {
                goal
            };
            let ghost before = pool@;
            assert(before.len() > 0 ==> g == Some(model::inc64(before.last())));
            let mut run = match self.alloc_blocks(need - pool.len(), g) {
                Ok(b) => b,
                Err(e) => return Err(e),
            };
            if run.len() == 0 || run.len() > need - pool.len() {
                return Err(Error::IoError);
            }
            let ghost rv = run@;
            pool.append(&mut run);
            assert(pool@ =~= before + rv);
        }
        Ok(pool)
    }

    fn map_batch(
        &mut self,
        ino: u64,
        inode: EfsInode,
        lbs: &Vec<u32>,
        size: Option<u64>,
        now: u64,
    ) -> (r: Result<Vec<u64>, Error>)
        requires
            old(self).wf(),
            inode.wf(),
        ensures
            final(self).wf(),
            final(self).staged_since(old(self)),
            (final(self)@, driver::blocks_of(r)) == model::map_batch(
                old(self)@,
                ino,
                inode@,
                lbs@,
                size,
                now,
            ),
            r matches Ok(v) ==> v@.len() == lbs@.len(),
    {
        let mut map = match self.load_extent_map(&inode) {
            Ok(m) => m,
            Err(e) => return Err(e),
        };
        let need: usize = Self::count_unmapped(&map, lbs);
        let goal: Option<u64> = Self::batch_goal(&map, lbs);
        let pool = match self.alloc_pool(need, goal) {
            Ok(p) => p,
            Err(e) => return Err(e),
        };
        let mut used: usize = 0;
        let mut phys: Vec<u64> = Vec::new();
        let mut k: usize = 0;
        let ghost start = Assigned { map: map@, used: 0, phys: Seq::empty() };
        let ghost st1 = self@;
        assert(phys@ =~= Seq::<u64>::empty());
        while k < lbs.len()
            invariant
                k <= lbs@.len(),
                used <= pool@.len(),
                phys@.len() == k,
                self.wf(),
                self@ == st1,
                self.staged_since(old(self)),
                model::map_batch(old(self)@, ino, inode@, lbs@, size, now) == (match model::assign(
                    lbs@,
                    pool@,
                    k as int,
                    Assigned { map: map@, used: used as int, phys: phys@ },
                ) {
                    None => (st1, Err::<Seq<u64>, Error>(Error::Corrupted)),
                    Some(a) => after_assign(st1, ino, inode@, pool@, a, size, now),
                }),
            decreases lbs@.len() - k,
        {
            match map.lookup(lbs[k]) {
                Some(p) => phys.push(p),
                None => {
                    if used >= pool.len() {
                        return Err(Error::Corrupted);
                    }
                    map.insert(lbs[k], pool[used]);
                    phys.push(pool[used]);
                    used = used + 1;
                },
            }
            k = k + 1;
        }
        let mut i: usize = used;
        while i < pool.len()
            invariant
                self.wf(),
                self.staged_since(old(self)),
                model::free_list(st1, pool@, used as int) == model::free_list(
                    self@,
                    pool@,
                    i as int,
                ),
                model::map_batch(old(self)@, ino, inode@, lbs@, size, now) == after_assign(
                    st1,
                    ino,
                    inode@,
                    pool@,
                    Assigned { map: map@, used: used as int, phys: phys@ },
                    size,
                    now,
                ),
            decreases pool@.len() - i,
        {
            match self.free_block(pool[i]) {
                Ok(_) => {},
                Err(e) => return Err(e),
            }
            i = i + 1;
        }
        let mut updated = inode;
        match self.store_extent_map(&mut updated, &map) {
            Ok(_) => {},
            Err(e) => return Err(e),
        }
        match size {
            Some(s) => if s > updated.size {
                updated.size = s;
            },
            None => {},
        }
        updated.mtime_sec = now;
        checksum_inode(&mut updated);
        match self.write_inode(ino, &updated) {
            Ok(_) => Ok(phys),
            Err(e) => Err(e),
        }
    }

    /// Resolves or allocates the physical blocks of a batch of logical ones, writing
    /// the inode once, and returns them in the order of the batch.
    pub fn ensure_blocks_for_logical_batch(
        &mut self,
        ino: u64,
        lbs: &Vec<u32>,
        size: Option<u64>,
        now: u64,
    ) -> (r: Result<Vec<u64>, Error>)
        requires
            old(self).wf(),
        ensures
            final(self).wf(),
            final(self).staged_since(old(self)),
            (final(self)@, driver::blocks_of(r)) == model::ensure_batch(
                old(self)@,
                ino,
                lbs@,
                size,
                now,
            ),
            r matches Ok(v) ==> v@.len() == lbs@.len(),
    {
        proof {
            reveal(model::ensure_batch);
        }
        if lbs.len() == 0 {
            let v: Vec<u64> = Vec::new();
            assert(v@ =~= Seq::<u64>::empty());
            return Ok(v);
        }
        let mut inode = match self.read_inode(ino) {
            Ok(i) => i,
            Err(e) => return Err(e),
        };
        if inode.flags & INODE_FLAG_INLINE_DATA != 0 {
            match self.convert_inline_to_extents(ino, &inode) {
                Ok(_) => {},
                Err(e) => return Err(e),
            }
            inode = match self.read_inode(ino) {
                Ok(i) => i,
                Err(e) => return Err(e),
            };
        }
        self.map_batch(ino, inode, lbs, size, now)
    }

    /// Writes `n` pages from `pages[k]` on to the blocks from `first` on.
    fn write_run(&mut self, first: u64, pages: &Vec<DirtyPage>, k: usize, n: usize) -> (r: Result<
        (),
        Error,
    >)
        requires
            old(self).wf(),
            page_cache::whole_pages(pages@),
            k + n <= pages@.len(),
            0 < n <= 248,
        ensures
            final(self).wf(),
            final(self).written_since(old(self)),
            r matches Err(e) ==> e == Error::AhciError && old(self)@.base + first + n > old(
                self,
            )@.pages.len() && final(self)@ == old(self)@,
            r is Ok ==> old(self)@.base + first + n <= old(self)@.pages.len() && final(self)@ == (
            model::FsState {
                pages: model::overlay(
                    old(self)@.pages,
                    old(self)@.base + first,
                    page_cache::contents(pages@).subrange(k as int, k + n),
                ),
                ..old(self)@
            }),
            r is Ok ==> final(self).logged_since(
                old(self),
                run_log(
                    old(self)@,
                    first,
                    page_cache::contents(pages@).subrange(k as int, k + n),
                    n as int,
                ),
            ) && block_device::logged(
                old(self).site(),
                final(self).site(),
                Set::empty(),
                run_log(
                    old(self)@,
                    first,
                    page_cache::contents(pages@).subrange(k as int, k + n),
                    n as int,
                ),
            ),
    {
        if first >= block_device::MAX_PAGES || self.starting_lba / 8 + first + n as u64
            > self.device.page_count() {
            return Err(Error::AhciError);
        }
        let mut i: usize = 0;
        let ghost p0 = self@.pages;
        let ghost d = page_cache::contents(pages@).subrange(k as int, k + n);
        assert(model::overlay(p0, self@.base + first, d.take(0)) =~= p0);
        assert(run_log(old(self)@, first, d, 0) =~= Seq::<PageWrite>::empty());
        assert(self.logged_since(old(self), run_log(old(self)@, first, d, 0)));
        assert(block_device::logged(
            self.site(),
            self.site(),
            Set::empty(),
            Seq::<PageWrite>::empty(),
        ));
        while i < n
            invariant
                self.wf(),
                self.written_since(old(self)),
                self.logged_since(old(self), run_log(old(self)@, first, d, i as int)),
                block_device::logged(
                    old(self).site(),
                    self.site(),
                    Set::empty(),
                    run_log(old(self)@, first, d, i as int),
                ),
                page_cache::whole_pages(pages@),
                k + n <= pages.len(),
                i <= n <= 248,
                first < block_device::MAX_PAGES,
                d == page_cache::contents(pages@).subrange(k as int, k + n),
                old(self)@.base + first + n <= p0.len(),
                p0 == old(self)@.pages,
                self@ == (model::FsState {
                    pages: model::overlay(p0, old(self)@.base + first, d.take(i as int)),
                    ..old(self)@
                }),
            decreases n - i,
        {
            let ghost top = *self;
            match self.write_data(first + i as u64, pages[k + i].data.as_slice()) {
                Ok(_) => {},
                Err(_) => {
                    assert(false);
                },
            }
            assert(d[i as int] == pages@[k + i].data@);
            proof {
                let l = run_log(old(self)@, first, d, i as int);
                let one = seq![((top@.base + (first + i)) as u64, d[i as int])];
                driver::lemma_logged_on(*old(self), top, *self, l, one);
                block_device::logged_direct(
                    top.site(),
                    one[0].0,
                    one[0].1,
                    self.site(),
                    Set::empty(),
                );
                block_device::logged_on(
                    old(self).site(),
                    top.site(),
                    self.site(),
                    Set::empty(),
                    Set::empty(),
                    l,
                    one,
                );
                assert(l + one =~= run_log(old(self)@, first, d, i + 1));
            }
            i = i + 1;
            assert(self@.pages =~= model::overlay(p0, old(self)@.base + first, d.take(i as int)));
        }
        assert(d.take(n as int) =~= d);
        Ok(())
    }

    /// How many blocks from `phys[k]` on lie one after the other, at most 248.
    fn contiguous(phys: &Vec<u64>, k: usize) -> (n: usize)
        requires
            k < phys@.len(),
        ensures
            n == model::contiguous(phys@, k as int, MAX_RUN_BLOCKS as int),
            0 < n <= 248,
            k + n <= phys@.len(),
    {
        let mut n: usize = 1;
        while n < MAX_RUN_BLOCKS as usize && phys.len() - k > n && phys[k + n - 1] != u64::MAX
            && phys[k + n] == phys[k + n - 1] + 1
            invariant
                0 < n <= 248,
                k + n <= phys@.len(),
                model::contiguous(phys@, k as int, MAX_RUN_BLOCKS as int) == (n - 1)
                    + model::contiguous(phys@, k + n - 1, MAX_RUN_BLOCKS - (n - 1)),
            decreases 248 - n,
        {
            n = n + 1;
        }
        n
    }

    /// Writes pages to blocks, one command per run.
    fn write_runs(&mut self, phys: &Vec<u64>, pages: &Vec<DirtyPage>) -> (r: Result<(), Error>)
        requires
            old(self).wf(),
            page_cache::whole_pages(pages@),
            phys@.len() == pages@.len(),
        ensures
            final(self).wf(),
            final(self).written_since(old(self)),
            (final(self)@, r) == model::write_runs(old(self)@, phys@, page_cache::contents(pages@), 0),
            r is Ok ==> final(self).logged_since(
                old(self),
                datalog::runs_log(old(self)@, phys@, page_cache::contents(pages@)),
            ) && block_device::all_home(
                final(self).site(),
                datalog::runs_log(old(self)@, phys@, page_cache::contents(pages@)),
            ),
    {
        let mut k: usize = 0;
        let ghost data = page_cache::contents(pages@);
        let ghost all = datalog::runs_log(self@, phys@, data);
        assert(all.take(0) =~= Seq::<PageWrite>::empty());
        assert(self.logged_since(old(self), all.take(0)));
        assert(block_device::logged(
            self.site(),
            self.site(),
            Set::empty(),
            Seq::<PageWrite>::empty(),
        ));
        while k < phys.len()
            invariant
                self.wf(),
                self.written_since(old(self)),
                data == page_cache::contents(pages@),
                all == datalog::runs_log(old(self)@, phys@, data),
                self@.base == old(self)@.base,
                self.logged_since(old(self), all.take(k as int)),
                block_device::logged(
                    old(self).site(),
                    self.site(),
                    Set::empty(),
                    all.take(k as int),
                ),
                page_cache::whole_pages(pages@),
                phys@.len() == pages@.len(),
                k <= phys@.len(),
                model::write_runs(old(self)@, phys@, page_cache::contents(pages@), 0) == model::write_runs(
                    self@,
                    phys@,
                    page_cache::contents(pages@),
                    k as int,
                ),
            decreases phys@.len() - k,
        {
            let n: usize = Self::contiguous(phys, k);
            let ghost top = *self;
            match self.write_run(phys[k], pages, k, n) {
                Ok(_) => {},
                Err(e) => return Err(e),
            }
            proof {
                let d = data.subrange(k as int, k + n);
                let l = run_log(top@, phys@[k as int], d, n as int);
                bulk::lemma_contiguous(phys@, k as int, MAX_RUN_BLOCKS as int);
                driver::lemma_logged_on(*old(self), top, *self, all.take(k as int), l);
                block_device::logged_on(
                    old(self).site(),
                    top.site(),
                    self.site(),
                    Set::empty(),
                    Set::empty(),
                    all.take(k as int),
                    l,
                );
                assert(all.take(k as int) + l =~= all.take(k + n)) by {
                    assert forall|i: int| k <= i < k + n implies #[trigger] all[i] == l[i - k] by {
                        assert(phys@[k + (i - k)] == phys@[k as int] + (i - k));
                    }
                }
            }
            k = k + n;
        }
        assert(all.take(phys@.len() as int) =~= all);
        proof {
            driver::lemma_all_home(*old(self), *self, all);
        }
        Ok(())
    }

    fn flush_chunk(
        &mut self,
        ino: u64,
        pages: &Vec<DirtyPage>,
        size: Option<u64>,
        now: u64,
    ) -> (r: Result<(), Error>)
        requires
            old(self).wf(),
            page_cache::whole_pages(pages@),
        ensures
            final(self).wf(),
            final(self).written_since(old(self)),
            (final(self)@, r) == model::flush_chunk(
                old(self)@,
                ino,
                page_cache::indices(pages@),
                page_cache::contents(pages@),
                size,
                now,
            ),
            r is Ok ==> final(self).logged_since(
                old(self),
                datalog::chunk_log(
                    old(self)@,
                    ino,
                    page_cache::indices(pages@),
                    page_cache::contents(pages@),
                    size,
                    now,
                ),
            ) && block_device::all_home(
                final(self).site(),
                datalog::chunk_log(
                    old(self)@,
                    ino,
                    page_cache::indices(pages@),
                    page_cache::contents(pages@),
                    size,
                    now,
                ),
            ),
    {
        let mut lbs: Vec<u32> = Vec::new();
        let mut i: usize = 0;
        while i < pages.len()
            invariant
                i <= pages@.len(),
                lbs@ == model::page_blocks(page_cache::indices(pages@).take(i as int)),
            decreases pages@.len() - i,
        {
            lbs.push((pages[i].index % 0x1_0000_0000) as u32);
            i = i + 1;
            assert(lbs@ =~= model::page_blocks(page_cache::indices(pages@).take(i as int)));
        }
        assert(page_cache::indices(pages@).take(pages@.len() as int) =~= page_cache::indices(pages@));
        match self.ensure_blocks_for_logical_batch(ino, &lbs, size, now) {
            Ok(phys) => {
                let ghost mid = *self;
                let r = self.write_runs(&phys, pages);
                proof {
                    if r is Ok {
                        let none = Seq::<PageWrite>::empty();
                        let l = datalog::runs_log(mid@, phys@, page_cache::contents(pages@));
                        driver::lemma_logged_on(*old(self), mid, *self, none, l);
                        assert(none + l =~= l);
                        assert(l =~= datalog::runs_log(
                            old(self)@,
                            phys@,
                            page_cache::contents(pages@),
                        ));
                    }
                }
                r
            },
            Err(e) => Err(e),
        }
    }
}

/// The first `n` writes of consecutive blocks from `first` on.
spec fn run_log(st: model::FsState, first: u64, data: Seq<Seq<u8>>, n: int) -> Seq<PageWrite> {
    Seq::new(n as nat, |i: int| ((st.base + (first + i)) as u64, data[i]))
}

impl PageSteps for EfsDriver {
    open spec fn ready(&self) -> bool {
        self.wf()
    }

    open spec fn flush_step(
        pre: &Self,
        ino: u64,
        index: u64,
        data: Seq<u8>,
        post: &Self,
        r: Result<(), Error>,
    ) -> bool {
        &&& (post@, r) == model::flush_page(pre@, ino, index, data)
        &&& if r is Ok {
            &&& settled_with(
                *pre,
                *post,
                datalog::flush_page_state(pre@, ino, index, data),
                datalog::flush_page_log(pre@, ino, index, data),
            )
            &&& block_device::all_home(
                post.site(),
                datalog::flush_page_log(pre@, ino, index, data),
            )
        } else {
            settled(*pre, *post, false)
        }
    }

    open spec fn size_step(
        pre: &Self,
        ino: u64,
        size: u64,
        now: u64,
        post: &Self,
        r: Result<(), Error>,
    ) -> bool {
        &&& (post@, r) == model::update_size(pre@, ino, size, now)
        &&& settled_staged(*pre, *post, r is Ok) || post.untouched(pre)
    }
}

impl BulkSteps for EfsDriver {
    open spec fn bulk_step(
        pre: &Self,
        ino: u64,
        index: Seq<u64>,
        data: Seq<Seq<u8>>,
        size: Option<u64>,
        now: u64,
        post: &Self,
        r: Result<(), Error>,
    ) -> bool {
        &&& (post@, r) == model::flush_pages_bulk(pre@, ino, index, data, 0, size, now)
        &&& datalog::bulk_settled(*pre, ino, index, data, 0, size, now, *post, r)
    }
}

impl PageCacheOps for EfsDriver {
    /// Page `index` of a file, zero past the end of the file, and how many of its
    /// bytes are the file's.
    fn fill_page(&mut self, ino: u64, index: u64) -> (r: Result<(Vec<u8>, usize), Error>)
        ensures
            final(self)@ == old(self)@,
            final(self).untouched(old(self)),
            match r {
                Ok((b, n)) => model::fill_page(old(self)@, ino, index) == Ok::<
                    (Seq<u8>, int),
                    Error,
                >((b@, n as int)) && b@.len() == BLOCK_SIZE,
                Err(e) => model::fill_page(old(self)@, ino, index) == Err::<(Seq<u8>, int), Error>(
                    e,
                ),
            },
    {
        proof {
            reveal(model::fill_page);
        }
        let inode = match self.read_inode(ino) {
            Ok(i) => i,
            Err(e) => return Err(e),
        };
        let mut buf = zero_vec(BLOCK_SIZE);
        if index >= 0x10_0000_0000_0000 || index * 4096 >= inode.size {
            return Ok((buf, 0));
        }
        let off: u64 = index * 4096;
        let valid: usize = if inode.size - off < 4096 {
            (inode.size - off) as usize
        } else {
            4096
        };
        if inode.flags & INODE_FLAG_INLINE_DATA != 0 {
            if off > INODE_DATA_AREA_SIZE as u64 {
                return Err(Error::Corrupted);
            }
            let o: usize = off as usize;
            let end: usize = if o + valid < INODE_DATA_AREA_SIZE {
                o + valid
            } else {
                INODE_DATA_AREA_SIZE
            };
            let piece = sub_vec(inode.data_area.as_slice(), o, end);
            write_at(&mut buf, 0, piece.as_slice());
            return Ok((buf, valid));
        }
        let map = match self.load_extent_map(&inode) {
            Ok(m) => m,
            Err(e) => return Err(e),
        };
        let lb: u32 = (index % 0x1_0000_0000) as u32;
        assert(off as int / 4096 == index);
        match map.lookup(lb) {
            None => Ok((buf, valid)),
            Some(p) => match self.read_block(p) {
                Ok(b) => {
                    let piece = sub_vec(b.as_slice(), 0, valid);
                    write_at(&mut buf, 0, piece.as_slice());
                    Ok((buf, valid))
                },
                Err(e) => Err(e),
            },
        }
    }

    /// Up to `count` bytes at `offset` of a regular file, for filling several pages
    /// at once.
    fn fill_pages_bulk(&mut self, ino: u64, offset: usize, count: usize) -> (r: Result<
        Vec<u8>,
        Error,
    >)
        ensures
            final(self)@ == old(self)@,
            final(self).untouched(old(self)),
            types::bytes_of(r) == (match model::read_inode(old(self)@, ino) {
                Err(e) => Err(e),
                Ok(i) => if i.kind() != S_IFREG {
                    Err(Error::NotAFile)
                } else {
                    model::read_file_data(old(self)@, i, offset as int, count as int)
                },
            }),
    {
        let inode = match self.read_inode(ino) {
            Ok(i) => i,
            Err(e) => return Err(e),
        };
        if inode.mode & S_IFMT != S_IFREG {
            return Err(Error::NotAFile);
        }
        self.read_file_data(&inode, offset, count)
    }

    /// Plans the reads that would prefetch `count` bytes at `offset` of a regular
    /// file. Whoever queues them gets them to the device.
    fn submit_prefetch_pages(&mut self, ino: u64, offset: usize, count: usize) -> (r: Result<
        Option<PrefetchPlan>,
        Error,
    >)
        ensures
            final(self)@ == old(self)@,
            final(self).untouched(old(self)),
            plan_of(r) == model::prefetch(old(self)@, ino, offset as int, count as int),
    {
        proof {
            reveal(model::prefetch);
        }
        let inode = match self.read_inode(ino) {
            Ok(i) => i,
            Err(e) => return Err(e),
        };
        if inode.mode & S_IFMT != S_IFREG {
            return Err(Error::NotAFile);
        }
        if offset as u64 >= inode.size || count == 0 || inode.flags & INODE_FLAG_INLINE_DATA != 0 {
            return Ok(None);
        }
        let left: u64 = inode.size - offset as u64;
        let n: u64 = if (count as u64) < left {
            count as u64
        } else {
            left
        };
        let map = match self.load_extent_map(&inode) {
            Ok(m) => m,
            Err(_) => return Ok(None),
        };
        let end: u64 = offset as u64 + n;
        let first: u32 = ((offset as u64 / 4096) % 0x1_0000_0000) as u32;
        let blocks: u64 = end / 4096 + (end % 4096 + 4095) / 4096;
        assert(blocks == (end + 4095) / 4096);
        let last: u32 = (blocks % 0x1_0000_0000) as u32;
        let mut runs: Vec<PlannedRun> = Vec::new();
        let mut at: u32 = first;
        let ghost plan = model::plan_prefetch(
            map@,
            self@.base * 8,
            first,
            first,
            last,
            Seq::empty(),
        );
        assert(runs@ =~= Seq::<PlannedRun>::empty());
        while at < last
            invariant_except_break
                self.wf(),
                first <= at,
                runs@.len() <= MAX_PREFETCH_RUNS,
                plan == model::plan_prefetch(map@, self@.base * 8, first, at, last, runs@),
            ensures
                first <= at,
                plan == (runs@, at),
            decreases last - at,
        {
            let want: u32 = last - at;
            match map.run_at(at) {
                BlockRun::Mapped { phys, blocks } => {
                    if runs.len() == MAX_PREFETCH_RUNS {
                        break;
                    }
                    let a: u32 = if want < blocks {
                        want
                    } else {
                        blocks
                    };
                    let take: u32 = if a < MAX_RUN_BLOCKS {
                        a
                    } else {
                        MAX_RUN_BLOCKS
                    };
                    runs.push(
                        PlannedRun {
                            lba: self.starting_lba + phys * 8,
                            sectors: take * 8,
                            page_offset: (at - first) as u64,
                            blocks: take,
                        },
                    );
                    at = at + take;
                },
                BlockRun::Hole { blocks } => {
                    let take: u32 = match blocks {
                        Some(b) => if b < want {
                            b
                        } else {
                            want
                        },
                        None => want,
                    };
                    at = at + take;
                },
            }
        }
        if runs.len() == 0 {
            return Ok(None);
        }
        Ok(Some(PrefetchPlan { pages: (at - first) as u64, runs }))
    }

    /// Writes page `index` of a file, in a transaction of its own.
    fn flush_page(&mut self, ino: u64, index: u64, data: &[u8]) -> (r: Result<(), Error>)
        ensures
            (final(self)@, r) == model::flush_page(old(self)@, ino, index, data@),
    {
        proof {
            reveal(model::flush_page);
        }
        let inode = match self.read_inode(ino) {
            Ok(i) => i,
            Err(e) => return Err(e),
        };
        self.begin_tx();
        let r = self.put_page(ino, &inode, index, data);
        let ghost mid = *self;
        self.end_tx(r.is_ok());
        proof {
            assert(concluded(*old(self), mid, *self, r is Ok));
            if r is Ok {
                assert(concluded_with(
                    *old(self),
                    mid,
                    *self,
                    datalog::flush_page_state(old(self)@, ino, index, data@),
                    datalog::flush_page_log(old(self)@, ino, index, data@),
                ));
            }
        }
        r
    }

    /// Raises a file's size to `size`; a smaller size changes nothing. Inline data
    /// leaves the inode first when the new size does not fit there.
    fn update_size(&mut self, ino: u64, size: u64, now: u64) -> (r: Result<(), Error>)
        ensures
            (final(self)@, r) == model::update_size(old(self)@, ino, size, now),
    {
        proof {
            reveal(model::update_size);
        }
        let inode = match self.read_inode(ino) {
            Ok(i) => i,
            Err(e) => return Err(e),
        };
        if size <= inode.size {
            return Ok(());
        }
        self.begin_tx();
        let r = self.raise_size(ino, inode, size, now);
        let ghost mid = *self;
        self.end_tx(r.is_ok());
        assert(concluded_staged(*old(self), mid, *self, r is Ok));
        r
    }

    /// Flushes dirty pages of a file, in transactions of at most 512 pages. Within
    /// one, all blocks are resolved first and the inode is written once; then the
    /// data goes out, one command per contiguous run. The new size goes with the last
    /// transaction.
    fn flush_pages_bulk(
        &mut self,
        ino: u64,
        pages: Vec<DirtyPage>,
        size: Option<u64>,
        now: u64,
    ) -> (r: Result<(), Error>) {
        let mut rest = pages;
        let ghost all = pages@;
        let ghost mut k: int = 0;
        assert(rest@ =~= all.skip(0));
        let ghost index = page_cache::indices(all);
        let ghost data = page_cache::contents(all);
        while rest.len() > 0
            invariant
                self.wf(),
                page_cache::whole_pages(all),
                all == pages@,
                index == page_cache::indices(all),
                data == page_cache::contents(all),
                forall|x: EfsDriver, z: Result<(), Error>| #[trigger]
                    datalog::bulk_settled(*self, ino, index, data, k, size, now, x, z)
                        ==> datalog::bulk_settled(
                        *old(self),
                        ino,
                        index,
                        data,
                        0,
                        size,
                        now,
                        x,
                        z,
                    ),
                0 <= k <= all.len(),
                rest@ == all.skip(k),
                model::flush_pages_bulk(
                    old(self)@,
                    ino,
                    page_cache::indices(all),
                    page_cache::contents(all),
                    0,
                    size,
                    now,
                ) == model::flush_pages_bulk(
                    self@,
                    ino,
                    page_cache::indices(all),
                    page_cache::contents(all),
                    k,
                    size,
                    now,
                ),
            decreases rest@.len(),
        {
            let n: usize = if rest.len() < MAX_BULK_PAGES {
                rest.len()
            } else {
                MAX_BULK_PAGES
            };
            let ghost r0 = rest@;
            let tail = rest.split_off(n);
            let last: bool = tail.len() == 0;
            let hint: Option<u64> = if last {
                size
            } else {
                None
            };
            proof {
                let end = model::min(k + MAX_BULK_PAGES, all.len() as int);
                assert(end == k + n);
                assert(rest@ =~= all.subrange(k, end));
                assert(page_cache::indices(rest@) =~= page_cache::indices(all).subrange(k, end));
                assert(page_cache::contents(rest@) =~= page_cache::contents(all).subrange(k, end));
                assert(tail@ =~= all.skip(end));
                assert(page_cache::whole_pages(rest@));
            }
            let ghost top = *self;
            self.begin_tx();
            let r = self.flush_chunk(ino, &rest, hint, now);
            let ghost mid = *self;
            self.end_tx(r.is_ok());
            let ghost end = model::min(k + MAX_BULK_PAGES, index.len() as int);
            match r {
                Ok(_) => {
                    proof {
                        let log = datalog::chunk_log(
                            model::begin(top@),
                            ino,
                            index.subrange(k, end),
                            data.subrange(k, end),
                            hint,
                            now,
                        );
                        assert(concluded_with(top, mid, *self, mid@, log));
                        assert(datalog::chunk_settled(
                            top,
                            ino,
                            index,
                            data,
                            k,
                            end,
                            size,
                            now,
                            *self,
                        ));
                        assert forall|x: EfsDriver, z: Result<(), Error>| #[trigger]
                            datalog::bulk_settled(
                                *self,
                                ino,
                                index,
                                data,
                                end,
                                size,
                                now,
                                x,
                                z,
                            ) implies datalog::bulk_settled(
                            *old(self),
                            ino,
                            index,
                            data,
                            0,
                            size,
                            now,
                            x,
                            z,
                        ) by {
                            assert(datalog::bulk_settled(
                                top,
                                ino,
                                index,
                                data,
                                k,
                                size,
                                now,
                                x,
                                z,
                            ));
                        }
                    }
                },
                Err(e) => {
                    proof {
                        assert(concluded(top, mid, *self, false));
                        assert(datalog::bulk_settled(
                            top,
                            ino,
                            index,
                            data,
                            k,
                            size,
                            now,
                            *self,
                            Err(e),
                        ));
                    }
                    return Err(e);
                },
            }
            rest = tail;
            proof {
                k = k + n;
            }
        }
        assert(datalog::bulk_settled(*self, ino, index, data, k, size, now, *self, Ok(())));
        Ok(())
    }
}

/// What [`model::map_batch`] does once the blocks are assigned.
spec fn after_assign(
    st: model::FsState,
    ino: u64,
    i: InodeView,
    pool: Seq<u64>,
    a: Assigned,
    size: Option<u64>,
    now: u64,
) -> (model::FsState, Result<Seq<u64>, Error>) {
    match model::free_list(st, pool, a.used) {
        (st2, Err(e)) => (st2, Err(e)),
        (st2, Ok(_)) => match model::store_map(st2, i, a.map) {
            (st3, Err(e)) => (st3, Err(e)),
            (st3, Ok(j)) => match model::write_inode(
                st3,
                ino,
                layout::stamped(
                    InodeView {
                        size: match size {
                            Some(s) => if s > j.size {
                                s
                            } else {
                                j.size
                            },
                            None => j.size,
                        },
                        mtime_sec: now,
                        ..j
                    },
                ),
            ) {
                (st4, Err(e)) => (st4, Err(e)),
                (st4, Ok(_)) => (st4, Ok(a.phys)),
            },
        },
    }
}

} // verus!
