//! Mounting a volume.
use vstd::prelude::*;
use crate::block_device;
use crate::block_device::{BlockDevice, MAX_PAGES};
use crate::error::Error;
use crate::journal;
use crate::journal::layout::{build_jsb_block, journal_sb_checksum, read_jsb, JOURNAL_MAGIC};
use crate::journal::live;
use crate::journal::replay;
use crate::journal::replay::Extent;
use crate::journal::ring;
use crate::journal::tx::TxHandle;
use crate::journal::{CheckpointTracker, Journal};
use crate::sorted::SortedMap;
use super::dirmodel;
use super::driver::{concluded_staged, settled_staged, transactions, EfsDriver};
use super::layout;
use super::layout::{read_bgd, EfsBlockGroupDesc, EfsSuperblock, SuperblockView, INCOMPAT_JOURNAL};
use super::model::FsState;

verus! {

/// The superblock of the volume that starts at page `base`.
pub open spec fn disk_superblock(pages: block_device::Pages, base: int) -> SuperblockView {
    layout::dec_superblock(pages[base + 1])
}

/// Pages that the block group descriptors take.
pub open spec fn bgd_pages(sb: SuperblockView) -> int {
    let n = (sb.block_group_count * 64 + 4095) / 4096;
    if n < 1 {
        1
    } else {
        n
    }
}

/// The block group descriptors of the volume that starts at page `base`.
pub open spec fn disk_bgds(pages: block_device::Pages, base: int) -> Seq<EfsBlockGroupDesc> {
    Seq::new(
        disk_superblock(pages, base).block_group_count as nat,
        |i: int| layout::dec_bgd(pages[base + 2 + i / 64], i % 64 * 64),
    )
}

/// The journal superblock of the volume that starts at page `base`.
pub open spec fn disk_jsb(pages: block_device::Pages, base: int) -> journal::layout::JournalSuperblock {
    journal::layout::dec_jsb(pages[base + disk_superblock(pages, base).journal_first_block])
}

/// Where the journal lies.
pub open spec fn disk_region(pages: block_device::Pages, base: int) -> ring::Region {
    ring::Region {
        start: base + disk_superblock(pages, base).journal_first_block,
        count: disk_jsb(pages, base).block_count,
    }
}

/// The transactions that the journal holds.
pub open spec fn disk_txs(pages: block_device::Pages, base: int) -> Seq<replay::TxRec> {
    let r = disk_region(pages, base);
    let j = disk_jsb(pages, base);
    replay::scan(
        pages,
        r,
        j.tail_seq,
        j.tail_block as int,
        replay::span(r, j.tail_block as int),
    )
}

/// Whether the search for those transactions comes to a block past the end of the device.
pub open spec fn journal_cut_off(pages: block_device::Pages, base: int) -> bool {
    let r = disk_region(pages, base);
    let j = disk_jsb(pages, base);
    replay::scan_cut_off(
        pages,
        r,
        j.tail_seq,
        j.tail_block as int,
        replay::span(r, j.tail_block as int),
    )
}

/// Why the volume that starts at page `base` cannot be mounted, if it cannot: its superblock or
/// its journal superblock is not valid, or something that mounting reads or replays lies past
/// the end of the device.
#[verifier::opaque]
pub open spec fn mount_error(pages: block_device::Pages, base: int) -> Option<Error> {
    let n = pages.len();
    let sb = disk_superblock(pages, base);
    let j = disk_jsb(pages, base);
    let r = disk_region(pages, base);
    if base + 1 >= n {
        Some(Error::AhciError)
    } else if !layout::valid_superblock(sb) || sb.incompatible_features & INCOMPAT_JOURNAL == 0
        || sb.block_size_log2 != 12 {
        Some(Error::InvalidFs)
    } else if base + 2 + bgd_pages(sb) > n || r.start >= n {
        Some(Error::AhciError)
    } else if j.magic != JOURNAL_MAGIC || j.version != 1 || j.crc32
        != journal::layout::jsb_checksum(j) {
        Some(Error::InvalidFs)
    } else if journal_cut_off(pages, base) || !replay::replayed(pages, disk_txs(pages, base)).1 {
        Some(Error::AhciError)
    } else {
        None
    }
}

/// The pages once the journal has been replayed and its superblock says so.
pub open spec fn recovered_pages(pages: block_device::Pages, base: int) -> block_device::Pages {
    let txs = disk_txs(pages, base);
    let r = disk_region(pages, base);
    let p = replay::replayed(pages, txs).0;
    if txs.len() == 0 {
        p
    } else {
        p.update(r.start, journal::layout::jsb_block(recovered_jsb(pages, base)))
    }
}

/// What is on the medium once the journal has been replayed and its superblock says so, where
/// `home` was there before: the blocks of committed transactions are in their home locations.
pub open spec fn recovered_medium(
    pages: block_device::Pages,
    home: block_device::Pages,
    base: int,
) -> block_device::Pages {
    let txs = disk_txs(pages, base);
    let p = replay::replayed(home, txs).0;
    if txs.len() == 0 {
        p
    } else {
        p.update(
            disk_region(pages, base).start,
            journal::layout::jsb_block(recovered_jsb(pages, base)),
        )
    }
}

/// The pages that replay and the reset of the journal superblock write.
pub open spec fn recovered_set(pages: block_device::Pages, base: int) -> Set<u64> {
    let txs = disk_txs(pages, base);
    let ws = replay::all_writes(txs, txs.len() as int);
    Set::new(
        |k: u64|
            replay::writes_to(ws, k) || (txs.len() > 0 && k == disk_region(pages, base).start),
    )
}

/// The journal superblock after replay: nothing is live.
pub open spec fn recovered_jsb(
    pages: block_device::Pages,
    base: int,
) -> journal::layout::JournalSuperblock {
    let txs = disk_txs(pages, base);
    let j = disk_jsb(pages, base);
    let seq = replay::next_seq(j.tail_seq, txs.len());
    let pos = (j.tail_block + replay::total_len(txs)) as u64;
    journal::layout::make_jsb(j.block_count, seq, seq, pos, pos)
}

/// The state of the volume once it has been opened.
pub open spec fn opened(pages: block_device::Pages, base: int) -> FsState {
    FsState {
        pages: recovered_pages(pages, base),
        base,
        sb: disk_superblock(pages, base),
        bgds: disk_bgds(pages, base),
        orphans: Map::empty(),
        blocks: Set::empty(),
        revokes: Set::empty(),
        logged: Set::empty(),
        logged_revokes: Set::empty(),
    }
}

/// Whether `after` is `before` with everything pending committed to the journal.
pub open spec fn committed_from(before: EfsDriver, after: EfsDriver) -> bool {
    &&& ring::committed(
        ring::ring_state(before.journal, before.device),
        before.journal.region(),
    ).0 == ring::ring_state(after.journal, after.device)
    &&& after@ == (FsState {
        pages: after.device@,
        logged: journal::pending_blocks(after.journal@),
        logged_revokes: journal::pending_revokes(after.journal@),
        ..before@
    })
}

/// What committing everything pending answers: an error if a transaction could not be written,
/// or if the newest one is still not in the journal.
pub open spec fn commit_result(before: EfsDriver, after: EfsDriver) -> Result<(), Error> {
    let newest = ring::newest_pending(before.journal@);
    if ring::committed(
        ring::ring_state(before.journal, before.device),
        before.journal.region(),
    ).1 is Err || (newest is Some && after.journal@.committed_seq < newest->Some_0) {
        Err::<(), Error>(Error::IoError)
    } else {
        Ok::<(), Error>(())
    }
}

/// Whether freeing `n` inodes, each in a transaction of its own, leads from `pre` to `mid`; at
/// most one more was begun in vain.
pub open spec fn reclaimed(pre: EfsDriver, mid: EfsDriver, n: nat) -> bool {
    exists|x: EfsDriver| transactions(pre, x, n) && #[trigger] settled_staged(x, mid, false)
}

/// The journal as it starts once replay is done: where replay found the live part of the ring to
/// end.
pub open spec fn restarted(pages: block_device::Pages, base: int) -> journal::JournalView {
    let j = disk_jsb(pages, base);
    let txs = disk_txs(pages, base);
    let seq = replay::next_seq(j.tail_seq, txs.len());
    journal::new_journal(seq, seq, (j.tail_block + replay::total_len(txs)) as u64)
}

/// Whether finishing the interrupted deletions leads from `pre` to `post` with result `r`. With
/// nothing freed the journal only holds back less; else what was freed has been committed.
#[verifier::opaque]
pub open spec fn orphans_finished(pre: EfsDriver, post: EfsDriver, r: Result<(), Error>) -> bool {
    let (st, freed) = dirmodel::reclaim_orphans(
        pre@,
        pre@.sb.last_orphan as u64,
        Set::empty(),
        0,
    );
    &&& freed == 0 ==> post@ == st && r is Ok && settled_staged(pre, post, false)
    &&& freed != 0 ==> exists|mid: EfsDriver|
        mid@ == st && reclaimed(pre, mid, freed as nat) && #[trigger] committed_from(mid, post)
            && r is Ok == commit_result(mid, post) is Ok && (r is Err ==> r == Err::<(), Error>(
            Error::AhciError,
        ))
}

/// Whether finishing the interrupted deletions leads from the volume `start`, just opened, to
/// `d`: with nothing freed the journal is as it was; else what was freed has been committed.
#[verifier::opaque]
pub open spec fn orphans_processed(start: EfsDriver, d: EfsDriver) -> bool {
    let (st, freed) = dirmodel::reclaim_orphans(
        start@,
        start@.sb.last_orphan as u64,
        Set::empty(),
        0,
    );
    &&& freed == 0 ==> d@ == st && d.journal@ == start.journal@ && settled_staged(
        start,
        d,
        false,
    )
    &&& freed != 0 ==> exists|mid: EfsDriver|
        mid@ == st && reclaimed(start, mid, freed as nat) && #[trigger] committed_from(mid, d)
}

/// Whether `d` is the volume once it has been opened and the interrupted deletions have been
/// finished, where `home` was on the medium and `dirty` in the cache alone: what the journal held
/// is on the medium, and the journal starts where replay found the live part of the ring to end.
#[verifier::opaque]
pub open spec fn mounted_as(
    pages: block_device::Pages,
    home: block_device::Pages,
    dirty: Set<u64>,
    base: int,
    d: EfsDriver,
) -> bool {
    exists|start: EfsDriver|
        {
            &&& start@ == opened(pages, base)
            &&& start.journal@ == restarted(pages, base)
            &&& start.device.persisted() == recovered_medium(pages, home, base)
            &&& start.device.dirty() == dirty.difference(recovered_set(pages, base))
            &&& #[trigger] orphans_processed(start, d)
        }
}

proof fn lemma_processed(
    pages: block_device::Pages,
    home: block_device::Pages,
    dirty: Set<u64>,
    base: int,
    start: EfsDriver,
    d: EfsDriver,
    r: Result<(), Error>,
)
    requires
        start.wf(),
        start@ == opened(pages, base),
        start.journal@ == restarted(pages, base),
        start.device.persisted() == recovered_medium(pages, home, base),
        start.device.dirty() == dirty.difference(recovered_set(pages, base)),
        orphans_finished(start, d, r),
    ensures
        mounted_as(pages, home, dirty, base, d),
{
    reveal(mounted_as);
    reveal(orphans_finished);
    reveal(orphans_processed);
    start.device.lemma_wf();
    if settled_staged(start, d, false) {
        if !d.untouched(&start) {
            let mid = choose|mid: EfsDriver| #[trigger] concluded_staged(start, mid, d, false);
            block_device::waiting_shrinks(start.site(), mid.site(), mid@.blocks);
            assert forall|k: u64| !d.journal@.tracker.contains_key(k) by {
                if mid.site().tracker.dom().contains(k) {
                    assert(start.site().tracker.dom().contains(k));
                }
            }
        }
        assert(d.journal@.tracker =~= Map::<u64, u64>::empty());
        assert(d.journal@ =~= start.journal@);
    }
    assert(orphans_processed(start, d));
}

impl EfsDriver {
    /// Reads the superblock, the block group descriptors and the journal superblock,
    /// and replays the journal.
    pub fn open(device: BlockDevice, starting_lba: u64) -> (r: Result<EfsDriver, Error>)
        requires
            device.wf(),
            starting_lba % 8 == 0,
            starting_lba / 8 < MAX_PAGES,
        ensures
            match r {
                Ok(d) => {
                    &&& mount_error(device@, starting_lba as int / 8) is None
                    &&& d.wf()
                    &&& d@ == opened(device@, starting_lba as int / 8)
                    &&& d.starting_lba == starting_lba
                    &&& d.journal.region() == disk_region(device@, starting_lba as int / 8)
                    &&& d.journal@ == restarted(device@, starting_lba as int / 8)
                    &&& d.device.persisted() == recovered_medium(
                        device@,
                        device.persisted(),
                        starting_lba as int / 8,
                    )
                    &&& d.device.dirty() == device.dirty().difference(
                        recovered_set(device@, starting_lba as int / 8),
                    )
                },
                Err(e) => mount_error(device@, starting_lba as int / 8) == Some(e),
            },
    {
        reveal(mount_error);
        let mut device = device;
        let ghost pages = device@;
        let ghost home = device.persisted();
        let ghost dirty = device.dirty();
        let base: u64 = starting_lba / 8;
        let n: u64 = device.page_count();
        proof {
            device.lemma_wf();
        }
        let sb_page = match device.read_page(base + 1) {
            Ok(p) => p,
            Err(_) => {
                return Err(Error::AhciError);
            },
        };
        let superblock = EfsSuperblock::decode(sb_page.as_slice());
        if !superblock.validate() || superblock.incompatible_features & INCOMPAT_JOURNAL == 0
            || superblock.block_size_log2 != 12 {
            return Err(Error::InvalidFs);
        }
        let count: u64 = superblock.block_group_count as u64;
        let want: u64 = (count * 64 + 4095) / 4096;
        let bgd_page_count: u64 = if want < 1 {
            1
        } else {
            want
        };
        let j_first: u64 = superblock.journal_first_block;
        if base + 2 + bgd_page_count > n || j_first >= n - base {
            return Err(Error::AhciError);
        }
        let mut bgd_table: Vec<EfsBlockGroupDesc> = Vec::new();
        let mut i: u64 = 0;
        let mut page: Vec<u8> = Vec::new();
        while i < count
            invariant
                i <= count,
                count <= u32::MAX,
                bgd_page_count >= (count * 64 + 4095) / 4096,
                base + 2 + bgd_page_count <= n,
                n == device@.len(),
                n < MAX_PAGES,
                device.wf(),
                device@ == pages,
                device.persisted() == home,
                device.dirty() == dirty,
                bgd_table@.len() == i,
                i % 64 != 0 ==> page@ == pages[base + 2 + i / 64] && page@.len() == 4096,
                forall|k: int|
                    0 <= k < i ==> #[trigger] bgd_table@[k] == layout::dec_bgd(
                        pages[base + 2 + k / 64],
                        k % 64 * 64,
                    ),
            decreases count - i,
        {
            if i % 64 == 0 {
                match device.read_page(base + 2 + i / 64) {
                    Ok(p) => {
                        page = p;
                    },
                    Err(e) => {
                        assert(false);
                        return Err(e);
                    },
                }
            }
            bgd_table.push(read_bgd(page.as_slice(), (i % 64 * 64) as usize));
            i = i + 1;
        }
        assert(bgd_table@ =~= disk_bgds(pages, base as int));
        let j_page = match device.read_page(base + j_first) {
            Ok(p) => p,
            Err(_) => {
                return Err(Error::AhciError);
            },
        };
        let jsb = read_jsb(j_page.as_slice());
        if jsb.magic != JOURNAL_MAGIC || jsb.version != 1 || jsb.crc32 != journal_sb_checksum(
            &jsb,
        ) {
            return Err(Error::InvalidFs);
        }
        let ext = Extent { start: base + j_first, count: jsb.block_count };
        assert(ext.region() == disk_region(pages, base as int));
        let res = match replay::replay(&mut device, ext, jsb.tail_seq, jsb.tail_block) {
            Ok(x) => x,
            Err(_) => {
                return Err(Error::AhciError);
            },
        };
        let seq: u64 = res.next_seq;
        let pos: u64 = res.next_block;
        if res.txs_applied > 0 {
            let block = build_jsb_block(jsb.block_count, seq, seq, pos, pos);
            let mut none = CheckpointTracker::new(0);
            match device.write_direct(&mut none, base + j_first, block.as_slice()) {
                Ok(_) => {},
                Err(e) => {
                    assert(false);
                    return Err(e);
                },
            }
        }
        let journal = Journal::new(
            device.device_id,
            starting_lba,
            j_first,
            jsb.block_count,
            seq,
            seq,
            pos,
        );
        let d = EfsDriver {
            device,
            starting_lba,
            superblock,
            bgd_table,
            orphan_prev: SortedMap::new(),
            tx: TxHandle::new(),
            journal,
        };
        proof {
            d.device.lemma_wf();
            assert(journal::pending_blocks(d.journal@) =~= Set::<u64>::empty());
            assert(journal::pending_revokes(d.journal@) =~= Set::<u64>::empty());
            assert(d.device@ =~= recovered_pages(pages, base as int));
            assert(d.device.persisted() =~= recovered_medium(pages, home, base as int));
            assert(d.device.dirty() =~= dirty.difference(recovered_set(pages, base as int)));
            assert(d@ =~= opened(pages, base as int));
        }
        Ok(d)
    }

    /// Finishes the deletions that an unclean shutdown interrupted, and commits them
    /// if there were any.
    pub fn process_orphan_list(&mut self) -> (r: Result<(), Error>)
        requires
            old(self).wf(),
        ensures
            final(self).wf(),
            final(self).starting_lba == old(self).starting_lba,
            final(self).journal.same_region(&old(self).journal),
            orphans_finished(*old(self), *final(self), r),
    {
        reveal(orphans_finished);
        broadcast use crate::block_device::staging;

        let freed: u64 = self.reclaim_orphans();
        assert(reclaimed(*old(self), *self, freed as nat));
        if freed == 0 {
            proof {
                let x = choose|x: EfsDriver|
                    transactions(*old(self), x, 0) && #[trigger] settled_staged(x, *self, false);
                assert(x.untouched(old(self)));
                if !self.untouched(&x) {
                    let mid = choose|mid: EfsDriver| #[trigger]
                        concluded_staged(x, mid, *self, false);
                    assert(concluded_staged(*old(self), mid, *self, false));
                }
                assert(settled_staged(*old(self), *self, false));
            }
            return Ok(());
        }
        let ghost mid = *self;
        let r = self.commit();
        assert(mid@ == dirmodel::reclaim_orphans(
            old(self)@,
            old(self)@.sb.last_orphan as u64,
            Set::empty(),
            0,
        ).0);
        assert(committed_from(mid, *self));
        match r {
            Ok(_) => Ok(()),
            Err(_) => Err(Error::AhciError),
        }
    }

    /// Commits everything pending to the journal.
    pub fn commit(&mut self) -> (r: Result<(), Error>)
        requires
            old(self).wf(),
        ensures
            final(self).wf(),
            final(self).starting_lba == old(self).starting_lba,
            final(self).journal.same_region(&old(self).journal),
            committed_from(*old(self), *final(self)),
            r == commit_result(*old(self), *final(self)),
    {
        let r = self.journal.force_commit_and_wait(&mut self.device);
        proof {
            self.device.lemma_wf();
            assert(self@ =~= (FsState {
                pages: self.device@,
                logged: journal::pending_blocks(self.journal@),
                logged_revokes: journal::pending_revokes(self.journal@),
                ..old(self)@
            }));
        }
        r
    }

    /// Mounts the volume that starts at `starting_lba`: opens it and finishes the
    /// deletions that an unclean shutdown interrupted. Deletions that cannot be
    /// finished do not keep the volume from being mounted.
    pub fn new(device: BlockDevice, starting_lba: u64) -> (r: Result<EfsDriver, Error>)
        requires
            device.wf(),
            starting_lba % 8 == 0,
            starting_lba / 8 < MAX_PAGES,
        ensures
            match r {
                Ok(d) => {
                    &&& mount_error(device@, starting_lba as int / 8) is None
                    &&& d.wf()
                    &&& d.starting_lba == starting_lba
                    &&& d.journal.region() == disk_region(device@, starting_lba as int / 8)
                    &&& mounted_as(
                        device@,
                        device.persisted(),
                        device.dirty(),
                        starting_lba as int / 8,
                        d,
                    )
                },
                Err(e) => mount_error(device@, starting_lba as int / 8) == Some(e),
            },
    {
        let ghost pages = device@;
        let ghost home = device.persisted();
        let ghost dirty = device.dirty();
        let ghost base = starting_lba as int / 8;
        match EfsDriver::open(device, starting_lba) {
            Ok(d) => {
                let mut d = d;
                let ghost start = d;
                let _r = d.process_orphan_list();
                proof {
                    lemma_processed(pages, home, dirty, base, start, d, _r);
                }
                Ok(d)
            },
            Err(e) => Err(e),
        }
    }
}

/// A volume that was just opened from a device with an empty cache has a journal that is live, if
/// its region lies on the device: what holds of it from then on is said in [`live`].
pub proof fn opened_journal_is_live(pages: block_device::Pages, base: int, d: EfsDriver)
    requires
        mount_error(pages, base) is None,
        0 <= base,
        d.wf(),
        d.journal.region() == disk_region(pages, base),
        d.journal@ == restarted(pages, base),
        d.device@ == recovered_pages(pages, base),
        d.device.persisted() == recovered_medium(pages, pages, base),
        d.device.dirty() == Set::<u64>::empty(),
        d.journal.region().fits(pages.len() as int),
        d.journal@.head_seq > 0,
    ensures
        live::live(ring::ring_state(d.journal, d.device), d.journal.region(), Seq::empty()),
{
    reveal(mount_error);
    d.device.lemma_wf();
    let txs = disk_txs(pages, base);
    let r = disk_region(pages, base);
    let s = ring::ring_state(d.journal, d.device);
    let ws = replay::all_writes(txs, txs.len() as int);
    lemma_applied_len(pages, ws, ws.len() as int);
    if txs.len() == 0 {
        assert(replay::replayed(pages, txs).0 == pages);
    } else {
        journal::layout::jsb_round_trip(recovered_jsb(pages, base));
    }
    live::new_journal_is_live(s, r, d.journal@.head_seq, d.journal@.head_block);
}

proof fn lemma_applied_len(pages: block_device::Pages, ws: Seq<(u64, Seq<u8>)>, n: int)
    ensures
        replay::applied(pages, ws, n).0.len() == pages.len(),
    decreases n,
{
    if n > 0 {
        lemma_applied_len(pages, ws, n - 1);
    }
}

} // verus!
