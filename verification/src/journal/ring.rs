//! The journal ring: committing transactions to it, checkpointing what it holds, and
//! reclaiming its space.
use vstd::prelude::*;
use crate::block_device;
use crate::block_device::{BlockDevice, MAX_PAGES, PAGE_SIZE};
use crate::bytes;
use crate::bytes::{checksum, get_u32, push_slice, write_at, zero_vec};
use crate::error::Error;
use crate::journal;
use crate::journal::layout;
use crate::journal::layout::{
    build_commit_block, build_descriptor_block, build_jsb_block, build_revoke_block,
    DESC_FLAG_ESCAPED, JOURNAL_BLOCK_MAGIC, MAX_RECORDS,
};
use crate::journal::{Journal, JournalView, Transaction, TxnView};
use crate::sorted;
use crate::sorted::{SortedMap, SortedSet};

verus! {

/// How often a commit looks for room in the ring before it gives up.
pub const CHECKPOINT_ATTEMPTS: usize = 3;

/// Where the journal lies on its device, in pages.
pub struct Region {
    /// Page of the journal superblock; the ring follows it.
    pub start: int,
    /// Pages of the region.
    pub count: u32,
}

impl Region {
    /// Number of ring blocks.
    pub open spec fn ring(self) -> int {
        if self.count == 0 {
            0
        } else {
            self.count - 1
        }
    }

    /// The page that ring position `pos` lies on.
    pub open spec fn page(self, pos: int) -> int {
        self.start + 1 + pos % self.ring()
    }

    /// Whether the region has a ring and lies on a device of `n` pages.
    pub open spec fn fits(self, n: int) -> bool {
        0 <= self.start && self.count >= 2 && self.start + self.count <= n
    }
}

/// A journal together with the device it protects.
#[verifier::ext_equal]
pub struct RingState {
    pub j: JournalView,
    /// The device as its users see it.
    pub pages: block_device::Pages,
    /// What is on the medium.
    pub home: block_device::Pages,
    /// The pages that are newer than what is on the medium.
    pub dirty: Set<u64>,
}

/// A page written straight to the medium.
pub open spec fn put(s: RingState, idx: int, data: Seq<u8>) -> RingState {
    RingState {
        j: JournalView { tracker: s.j.tracker.remove(idx as u64), ..s.j },
        pages: s.pages.update(idx, data),
        home: s.home.update(idx, data),
        dirty: s.dirty.remove(idx as u64),
    }
}

/// Blocks written to the ring from position `pos` on.
pub open spec fn put_ring(s: RingState, r: Region, pos: int, blocks: Seq<Seq<u8>>) -> RingState
    decreases blocks.len(),
{
    if blocks.len() == 0 {
        s
    } else {
        put(
            put_ring(s, r, pos, blocks.drop_last()),
            r.page(pos + blocks.len() - 1),
            blocks.last(),
        )
    }
}

/// How many of the `len` ring positions from `pos` on come before the first that lies past the
/// end of a device of `n` pages.
pub open spec fn landing(r: Region, n: int, pos: int, len: int) -> int
    decreases len,
{
    if len <= 0 {
        0
    } else {
        let k = landing(r, n, pos, len - 1);
        if k == len - 1 && r.page(pos + len - 1) < n {
            len
        } else {
            k
        }
    }
}

/// The journal superblock written from the journal's cursors.
pub open spec fn put_jsb(s: RingState, r: Region) -> RingState {
    put(
        s,
        r.start,
        layout::jsb_block(
            layout::make_jsb(r.count, s.j.tail_seq, s.j.head_seq, s.j.tail_block, s.j.head_block),
        ),
    )
}

// ---- Checkpointing ------------------------------------------------------------------

/// Whether a page may be written to its home location.
pub open spec fn flushable(j: JournalView, k: u64) -> bool {
    j.tracker.contains_key(k) ==> !j.paused && j.tracker[k] <= j.committed_seq
}

/// Every dirty page whose transaction has been committed written home.
pub open spec fn flushed(s: RingState) -> RingState {
    let due = s.dirty.filter(|k: u64| flushable(s.j, k));
    RingState {
        j: JournalView { tracker: s.j.tracker.remove_keys(due), ..s.j },
        home: Seq::new(
            s.pages.len(),
            |i: int|
                if due.contains(i as u64) {
                    s.pages[i]
                } else {
                    s.home[i]
                },
        ),
        dirty: s.dirty.difference(due),
        ..s
    }
}

/// The lowest sequence number some block is still waiting under; one past the
/// highest committed one if none is waiting.
pub open spec fn lowest(j: JournalView) -> u64 {
    if j.tracker.dom() == Set::<u64>::empty() {
        if j.committed_seq == u64::MAX {
            u64::MAX
        } else {
            (j.committed_seq + 1) as u64
        }
    } else {
        choose|m: u64| is_lowest(j.tracker, m)
    }
}

/// Whether `m` is the least value of `t`.
pub open spec fn is_lowest(t: Map<u64, u64>, m: u64) -> bool {
    &&& exists|k: u64| #[trigger] t.contains_key(k) && t[k] == m
    &&& forall|k: u64| #[trigger] t.contains_key(k) ==> t[k] >= m
}

/// The journal without the entries of blocks that are not dirty: those are at home.
pub open spec fn pruned(j: JournalView, dirty: Set<u64>) -> JournalView {
    JournalView { tracker: j.tracker.restrict(dirty), ..j }
}

/// The journal after the committed transactions below `bound` at the front of the
/// list have been retired.
pub open spec fn retired(j: JournalView, bound: u64) -> JournalView
    decreases j.committed_pending.len(),
{
    if j.committed_pending.len() == 0 || j.committed_pending[0].0 >= bound {
        j
    } else {
        let (seq, blocks) = j.committed_pending[0];
        retired(
            JournalView {
                committed_pending: j.committed_pending.skip(1),
                tail_block: journal::wrap_add(j.tail_block, blocks),
                tail_seq: journal::wrap_add(seq, 1),
                ..j
            },
            bound,
        )
    }
}

/// The journal with its tail moved up to its head if nothing lies between them.
pub open spec fn caught_up(j: JournalView) -> JournalView {
    if j.committed_pending.len() == 0 && j.sealed.len() == 0 && j.tail_seq < j.head_seq {
        JournalView { tail_seq: j.head_seq, tail_block: j.head_block, ..j }
    } else {
        j
    }
}

/// The state after the tail has been advanced as far as checkpointing allows; the
/// superblock is rewritten if the tail moved.
pub open spec fn advanced(s: RingState, r: Region) -> RingState {
    let p = pruned(s.j, s.dirty);
    let q = retired(p, lowest(p));
    let c = caught_up(q);
    let t = RingState { j: c, ..s };
    if q.committed_pending.len() != p.committed_pending.len() || c != q {
        put_jsb(t, r)
    } else {
        t
    }
}

// ---- Committing ---------------------------------------------------------------------

/// The blocks of a transaction in the order in which they are stored.
pub open spec fn tx_order(t: TxnView) -> Seq<u64> {
    sorted::in_order(t.blocks)
}

/// Descriptor records of blocks.
pub open spec fn entries_of(pages: block_device::Pages, order: Seq<u64>) -> Seq<(u64, u64)> {
    order.map_values(|b: u64| (b, layout::escape_flag(pages[b as int])))
}

/// Blocks as the ring stores them.
pub open spec fn data_of(pages: block_device::Pages, order: Seq<u64>) -> Seq<Seq<u8>> {
    order.map_values(|b: u64| layout::escaped(pages[b as int]))
}

/// Revoke records of blocks.
pub open spec fn revokes_of(order: Seq<u64>, seq: u64) -> Seq<(u64, u64)> {
    order.map_values(|b: u64| (b, seq))
}

/// The revoke block of a transaction, if it revokes anything.
pub open spec fn revoke_part(t: TxnView) -> Seq<Seq<u8>> {
    let rs = revokes_of(sorted::in_order(t.revokes), t.seq);
    if rs.len() == 0 {
        Seq::empty()
    } else {
        seq![layout::enc_ring_block(layout::KIND_REVOKE, t.seq, t.tx_id, rs.len() as u32, rs)]
    }
}

/// The descriptor block of a transaction.
pub open spec fn descriptor_part(pages: block_device::Pages, t: TxnView) -> Seq<u8> {
    let es = entries_of(pages, tx_order(t));
    layout::enc_ring_block(layout::KIND_DESCRIPTOR, t.seq, t.tx_id, es.len() as u32, es)
}

/// The commit block of a transaction: it carries the checksum of the stored blocks.
pub open spec fn commit_part(pages: block_device::Pages, t: TxnView) -> Seq<u8> {
    layout::enc_ring_block(
        layout::KIND_COMMIT,
        t.seq,
        t.tx_id,
        bytes::crc32(layout::concat(data_of(pages, tx_order(t)))),
        Seq::empty(),
    )
}

/// The ring blocks of a transaction.
pub open spec fn tx_blocks(pages: block_device::Pages, t: TxnView) -> Seq<Seq<u8>> {
    seq![descriptor_part(pages, t)] + data_of(pages, tx_order(t)) + revoke_part(t) + seq![
        commit_part(pages, t),
    ]
}

/// How many ring blocks a transaction takes.
pub open spec fn needed(t: TxnView) -> int {
    2 + t.blocks.len() + (if t.revokes.len() == 0 {
        0int
    } else {
        1
    })
}

/// Whether a transaction can be stored at all: its records fit in one block each and
/// its blocks are on the device.
pub open spec fn storable(pages: block_device::Pages, t: TxnView) -> bool {
    &&& t.blocks.len() <= MAX_RECORDS
    &&& t.revokes.len() <= MAX_RECORDS
    &&& forall|b: u64| #[trigger] t.blocks.contains(b) ==> b < pages.len()
}

/// Ring blocks in use.
pub open spec fn used(j: JournalView) -> int {
    if j.head_block >= j.tail_block {
        j.head_block - j.tail_block
    } else {
        j.head_block - j.tail_block + 0x1_0000_0000_0000_0000
    }
}

/// Whether the ring has room for `n` more blocks.
pub open spec fn has_room(j: JournalView, r: Region, n: int) -> bool {
    used(j) + n <= r.ring() && j.head_block + n <= u64::MAX
}

/// The state after making room for `n` blocks, looking `attempts` times with a
/// checkpoint between one look and the next, and whether there is room now.
pub open spec fn made_room(s: RingState, r: Region, n: int, attempts: int) -> (RingState, bool)
    decreases attempts,
{
    if attempts <= 0 {
        (s, false)
    } else if has_room(s.j, r, n) {
        (s, true)
    } else if attempts == 1 {
        (s, false)
    } else {
        made_room(advanced(flushed(s), r), r, n, attempts - 1)
    }
}

/// The state after transaction `t` has been stored at the head of the ring.
pub open spec fn stored(s: RingState, r: Region, t: TxnView) -> RingState {
    let w = put_ring(s, r, s.j.head_block as int, tx_blocks(s.pages, t));
    let n = needed(t);
    put_jsb(
        RingState {
            j: JournalView {
                head_block: (s.j.head_block + n) as u64,
                committed_seq: t.seq,
                committed_pending: s.j.committed_pending.push((t.seq, n as u64)),
                ..w.j
            },
            ..w
        },
        r,
    )
}

/// The state after the oldest sealed transaction has been committed, or could not be. One that
/// the ring has no room for stays where it was. Where the ring goes past the end of the device,
/// the blocks before that are written and the transaction is given up.
#[verifier::opaque]
pub open spec fn commit_first(s: RingState, r: Region) -> (RingState, Result<(), Error>)
    recommends
        s.j.sealed.len() > 0,
{
    let t = s.j.sealed[0];
    let popped = RingState { j: JournalView { sealed: s.j.sealed.skip(1), ..s.j }, ..s };
    if t.empty() {
        (
            RingState { j: JournalView { committed_seq: t.seq, ..popped.j }, ..popped },
            Ok::<(), Error>(()),
        )
    } else if !storable(s.pages, t) {
        (s, Err::<(), Error>(Error::IoError))
    } else {
        let (m, ok) = made_room(popped, r, needed(t), CHECKPOINT_ATTEMPTS as int);
        if !ok {
            (
                RingState { j: JournalView { sealed: seq![t] + m.j.sealed, ..m.j }, ..m },
                Err::<(), Error>(Error::IoError),
            )
        } else {
            let head = m.j.head_block as int;
            let blocks = tx_blocks(m.pages, t);
            let k = landing(r, m.pages.len() as int, head, needed(t));
            if k < needed(t) {
                (put_ring(m, r, head, blocks.take(k)), Err::<(), Error>(Error::IoError))
            } else {
                (stored(m, r, t), Ok::<(), Error>(()))
            }
        }
    }
}

/// The state after all sealed transactions have been committed in turn, up to the
/// first that could not be.
pub open spec fn drained(s: RingState, r: Region, fuel: nat) -> (RingState, Result<(), Error>)
    decreases fuel,
{
    if s.j.sealed.len() == 0 || fuel == 0 {
        (s, Ok::<(), Error>(()))
    } else {
        let (t, res) = commit_first(s, r);
        if res is Err {
            (t, res)
        } else {
            drained(t, r, (fuel - 1) as nat)
        }
    }
}

/// The state after the active transaction has been sealed and everything sealed
/// committed.
pub open spec fn committed(s: RingState, r: Region) -> (RingState, Result<(), Error>) {
    let sealed = RingState { j: journal::seal(s.j), ..s };
    drained(sealed, r, sealed.j.sealed.len())
}

// ---- Operations ---------------------------------------------------------------------

/// A journal and a device.
pub open spec fn ring_state(j: Journal, d: BlockDevice) -> RingState {
    RingState { j: j@, pages: d@, home: d.persisted(), dirty: d.dirty() }
}

proof fn lemma_lowest(j: JournalView, m: u64)
    requires
        is_lowest(j.tracker, m),
    ensures
        lowest(j) == m,
{
    let k = choose|k: u64| #[trigger] j.tracker.contains_key(k) && j.tracker[k] == m;
    assert(j.tracker.dom().contains(k));
    let n = lowest(j);
    assert(is_lowest(j.tracker, n));
}

impl Journal {
    /// Where the journal lies.
    pub open spec fn region(&self) -> Region {
        Region { start: self.partition_start_lba / 8 + self.first_block, count: self.block_count }
    }

    /// Whether the journal superblock lies on the device.
    pub open spec fn on(&self, dev: &BlockDevice) -> bool {
        dev.wf() && self.region().start < dev@.len()
    }

    /// The page that the journal superblock lies on.
    fn sb_page(&self) -> (idx: u64)
        requires
            self.region().start < MAX_PAGES,
        ensures
            idx == self.region().start,
    {
        self.partition_start_lba / 8 + self.first_block
    }

    /// The page that ring position `pos` lies on.
    pub fn journal_block_page(&self, pos: u64) -> (idx: u64)
        requires
            self.region().start < MAX_PAGES,
            self.block_count >= 2,
        ensures
            idx == self.region().page(pos as int),
    {
        let ring: u64 = self.block_count as u64 - 1;
        self.sb_page() + 1 + pos % ring
    }

    /// Writes a page straight to the medium.
    fn put_page(&mut self, dev: &mut BlockDevice, idx: u64, data: &[u8])
        requires
            old(dev).wf(),
            idx < old(dev)@.len(),
            data@.len() == PAGE_SIZE,
        ensures
            final(self).same_region(old(self)),
            final(dev).wf(),
            final(dev)@.len() == old(dev)@.len(),
            ring_state(*final(self), *final(dev)) == put(
                ring_state(*old(self), *old(dev)),
                idx as int,
                data@,
            ),
    {
        let r = dev.write_direct(&mut self.checkpoint_tracker, idx, data);
        assert(r is Ok);
        assert(ring_state(*self, *dev) =~= put(
            ring_state(*old(self), *old(dev)),
            idx as int,
            data@,
        ));
    }

    /// Writes the journal superblock from the cursors.
    pub fn write_journal_sb(&mut self, dev: &mut BlockDevice)
        requires
            old(self).on(old(dev)),
        ensures
            final(self).same_region(old(self)),
            final(self).on(final(dev)),
            final(dev)@.len() == old(dev)@.len(),
            ring_state(*final(self), *final(dev)) == put_jsb(
                ring_state(*old(self), *old(dev)),
                old(self).region(),
            ),
    {
        proof {
            dev.lemma_wf();
        }
        let block = build_jsb_block(
            self.block_count,
            self.tail_seq,
            self.head_seq,
            self.tail_block,
            self.head_block,
        );
        let idx: u64 = self.sb_page();
        self.put_page(dev, idx, block.as_slice());
    }

    /// Writes blocks to consecutive ring positions, in runs that are contiguous on
    /// the medium: a run ends where the ring wraps around. Stops at the first position that
    /// lies past the end of the device.
    fn submit_journal_blocks(
        &mut self,
        dev: &mut BlockDevice,
        start: u64,
        blocks: &Vec<Vec<u8>>,
    ) -> (res: Result<(), Error>)
        requires
            old(self).on(old(dev)),
            old(self).block_count >= 2,
            start + blocks.len() <= u64::MAX,
            forall|i: int| 0 <= i < blocks@.len() ==> (#[trigger] blocks@[i])@.len() == PAGE_SIZE,
        ensures
            final(self).same_region(old(self)),
            final(self).on(final(dev)),
            final(dev)@.len() == old(dev)@.len(),
            ring_state(*final(self), *final(dev)) == put_ring(
                ring_state(*old(self), *old(dev)),
                old(self).region(),
                start as int,
                crate::block_page_cache::home(blocks@).take(
                    landing(
                        old(self).region(),
                        old(dev)@.len() as int,
                        start as int,
                        blocks@.len() as int,
                    ),
                ),
            ),
            res == (if landing(
                old(self).region(),
                old(dev)@.len() as int,
                start as int,
                blocks@.len() as int,
            ) < blocks@.len() {
                Err::<(), Error>(Error::IoError)
            } else {
                Ok::<(), Error>(())
            }),
    {
        let ghost s0 = ring_state(*self, *dev);
        let ghost all = crate::block_page_cache::home(blocks@);
        let ghost r = self.region();
        let ring: u64 = self.block_count as u64 - 1;
        let pages: u64 = dev.page_count();
        let total: u64 = blocks.len() as u64;
        let mut done: u64 = 0;
        assert(all.take(0) =~= Seq::<Seq<u8>>::empty());
        while done < total
            invariant
                done <= total,
                total == blocks.len(),
                start + total <= u64::MAX,
                self.on(dev),
                self.region() == r,
                self.same_region(old(self)),
                dev@.len() == old(dev)@.len(),
                ring == r.ring(),
                ring > 0,
                r == old(self).region(),
                s0 == ring_state(*old(self), *old(dev)),
                pages == dev@.len(),
                landing(r, pages as int, start as int, done as int) == done,
                all == crate::block_page_cache::home(blocks@),
                forall|i: int|
                    0 <= i < blocks@.len() ==> (#[trigger] blocks@[i])@.len() == PAGE_SIZE,
                ring_state(*self, *dev) == put_ring(s0, r, start as int, all.take(done as int)),
            decreases total - done,
        {
            let idx: u64 = (start + done) % ring;
            let until_wrap: u64 = ring - idx;
            let run: u64 = if total - done < until_wrap {
                total - done
            } else {
                until_wrap
            };
            proof {
                dev.lemma_wf();
            }
            let first: u64 = self.journal_block_page(start + done);
            let mut k: u64 = 0;
            let ghost base = done;
            while k < run
                invariant
                    k <= run,
                    run <= ring - idx,
                    base + run <= total,
                    total == blocks.len(),
                    start + total <= u64::MAX,
                    idx == (start + base) % (ring as int),
                    ring == r.ring(),
                    ring > 0,
                    r == old(self).region(),
                    s0 == ring_state(*old(self), *old(dev)),
                    pages == dev@.len(),
                    landing(r, pages as int, start as int, base + k) == base + k,
                    first == r.page(start + base),
                    done == base,
                    self.on(dev),
                    self.region() == r,
                    self.same_region(old(self)),
                    dev@.len() == old(dev)@.len(),
                    all == crate::block_page_cache::home(blocks@),
                    forall|i: int|
                        0 <= i < blocks@.len() ==> (#[trigger] blocks@[i])@.len() == PAGE_SIZE,
                    ring_state(*self, *dev) == put_ring(
                        s0,
                        r,
                        start as int,
                        all.take(base + k),
                    ),
                decreases run - k,
            {
                proof {
                    dev.lemma_wf();
                    let n = base + k;
                    assert(all.take(n + 1).drop_last() =~= all.take(n));
                    assert(all.take(n + 1).last() == blocks@[n]@);
                    lemma_wrap(start + base, k as int, ring as int);
                    assert(r.page(start + n) == first + k);
                }
                if first + k >= pages {
                    proof {
                        lemma_landing(
                            r,
                            pages as int,
                            start as int,
                            base + k,
                            base + k + 1,
                            total as int,
                        );
                    }
                    return Err(Error::IoError);
                }
                self.put_page(dev, first + k, blocks[(done + k) as usize].as_slice());
                k = k + 1;
            }
            done = done + run;
        }
        Ok(())
    }
}

proof fn lemma_landing(r: Region, n: int, pos: int, k: int, a: int, b: int)
    requires
        0 <= k < a <= b,
        landing(r, n, pos, a) == k,
    ensures
        landing(r, n, pos, b) == k,
    decreases b - a,
{
    if a < b {
        lemma_landing(r, n, pos, k, a, b - 1);
    }
}

/// Where the whole region lies on the device, every ring position can be written.
pub proof fn whole_ring_is_written(r: Region, n: int, pos: int, len: int)
    requires
        r.fits(n),
        0 <= pos,
        0 <= len,
    ensures
        landing(r, n, pos, len) == len,
    decreases len,
{
    if len > 0 {
        whole_ring_is_written(r, n, pos, len - 1);
        vstd::arithmetic::div_mod::lemma_mod_bound(pos + len - 1, r.ring());
    }
}

proof fn lemma_wrap(x: int, k: int, ring: int)
    requires
        0 <= x,
        0 <= k,
        0 < ring,
        x % ring + k < ring,
    ensures
        (x + k) % ring == x % ring + k,
{
    vstd::arithmetic::div_mod::lemma_fundamental_div_mod(x, ring);
    let q = x / ring;
    assert(x + k == q * ring + (x % ring + k)) by (nonlinear_arith)
        requires
            x == ring * q + x % ring,
    ;
    vstd::arithmetic::div_mod::lemma_fundamental_div_mod_converse(x + k, ring, q, x % ring + k);
}

impl Journal {
    /// Drops the tracker entries of blocks that are not dirty: they are at home.
    fn prune_checkpointed(&mut self, dev: &BlockDevice)
        requires
            dev.wf(),
        ensures
            final(self).same_region(old(self)),
            final(self)@ == pruned(old(self)@, dev.dirty()),
    {
        let keys = self.checkpoint_tracker.seqs.keys();
        let n: usize = keys.len();
        let ghost t0 = self.checkpoint_tracker.seqs@;
        let ghost order = keys@;
        let mut kept: SortedMap<u64> = SortedMap::new();
        let mut i: usize = 0;
        assert(kept@ =~= t0.restrict(dev.dirty().intersect(order.take(0).to_set())));
        while i < n
            invariant
                i <= n,
                n == order.len(),
                dev.wf(),
                order == keys@,
                t0 == self.checkpoint_tracker.seqs@,
                order.to_set() == t0.dom(),
                self == old(self),
                kept@ == t0.restrict(dev.dirty().intersect(order.take(i as int).to_set())),
            decreases n - i,
        {
            let k: u64 = keys[i];
            assert(order.to_set().contains(order[i as int]));
            if dev.is_dirty(k) {
                if let Some(v) = self.checkpoint_tracker.seqs.get(k) {
                    kept.insert(k, *v);
                }
            }
            proof {
                let a = order.take(i as int);
                let b = order.take(i + 1);
                assert(b =~= a.push(k));
                assert forall|x: u64| b.to_set().contains(x) <==> (a.to_set().contains(x) || x
                    == k) by {
                    if b.contains(x) {
                        let q = choose|q: int| 0 <= q < b.len() && b[q] == x;
                        if q < a.len() {
                            assert(a[q] == x);
                        }
                    }
                    if a.contains(x) {
                        let q = choose|q: int| 0 <= q < a.len() && a[q] == x;
                        assert(b[q] == x);
                    }
                    assert(b[i as int] == k);
                }
                assert(kept@ =~= t0.restrict(dev.dirty().intersect(b.to_set())));
            }
            i = i + 1;
        }
        self.checkpoint_tracker.seqs = kept;
        proof {
            assert(order.take(n as int) =~= order);
            assert(self.checkpoint_tracker.seqs@ =~= t0.restrict(dev.dirty()));
            assert(self@ =~= pruned(old(self)@, dev.dirty()));
        }
    }

    /// The oldest sequence number that some block is still waiting under.
    fn min_journaled_seq(&self) -> (m: u64)
        ensures
            m == lowest(self@),
    {
        let keys = self.checkpoint_tracker.seqs.keys();
        let n: usize = keys.len();
        let ghost t = self.checkpoint_tracker.seqs@;
        let ghost order = keys@;
        if n == 0 {
            assert(order =~= Seq::<u64>::empty());
            assert(t.dom() =~= Set::<u64>::empty()) by {
                assert forall|k: u64| !t.dom().contains(k) by {
                    if t.dom().contains(k) {
                        assert(order.to_set().contains(k));
                        assert(order.contains(k));
                    }
                }
            }
            return self.checkpoint_tracker.committed_seq.saturating_add(1);
        }
        let mut m: u64 = u64::MAX;
        let mut i: usize = 0;
        while i < n
            invariant
                i <= n,
                n == order.len(),
                order == keys@,
                order.to_set() == t.dom(),
                t == self.checkpoint_tracker.seqs@,
                i == 0 ==> m == u64::MAX,
                i > 0 ==> exists|k: u64| #[trigger] t.contains_key(k) && t[k] == m,
                forall|q: int| 0 <= q < i ==> t[#[trigger] order[q]] >= m,
            decreases n - i,
        {
            assert(order.to_set().contains(order[i as int]));
            if let Some(v) = self.checkpoint_tracker.seqs.get(keys[i]) {
                assert(t.contains_key(order[i as int]));
                if *v <= m {
                    m = *v;
                }
            }
            i = i + 1;
        }
        proof {
            assert forall|k: u64| #[trigger] t.contains_key(k) implies t[k] >= m by {
                assert(order.to_set().contains(k));
                let q = choose|q: int| 0 <= q < order.len() && order[q] == k;
            }
            lemma_lowest(self@, m);
        }
        m
    }

    /// Advances the tail past transactions that have been both committed and
    /// checkpointed, and records the new tail in the journal superblock.
    pub fn advance_tail(&mut self, dev: &mut BlockDevice)
        requires
            old(self).on(old(dev)),
        ensures
            final(self).same_region(old(self)),
            final(self).on(final(dev)),
            final(dev)@.len() == old(dev)@.len(),
            ring_state(*final(self), *final(dev)) == advanced(
                ring_state(*old(self), *old(dev)),
                old(self).region(),
            ),
    {
        self.prune_checkpointed(dev);
        let bound: u64 = self.min_journaled_seq();
        let ghost p = self@;
        let mut changed: bool = false;
        while self.committed_pending.len() > 0 && self.committed_pending[0].0 < bound
            invariant
                self.same_region(old(self)),
                retired(self@, bound) == retired(p, bound),
                changed == (self@.committed_pending.len() != p.committed_pending.len()),
                self@.committed_pending.len() <= p.committed_pending.len(),
            decreases self.committed_pending.len(),
        {
            let ghost before = self@;
            let e = self.committed_pending.remove(0);
            self.tail_block = self.tail_block.wrapping_add(e.1);
            self.tail_seq = e.0.wrapping_add(1);
            changed = true;
            proof {
                assert(self@.committed_pending =~= before.committed_pending.skip(1));
                assert(self@ =~= (JournalView {
                    committed_pending: before.committed_pending.skip(1),
                    tail_block: journal::wrap_add(before.tail_block, e.1),
                    tail_seq: journal::wrap_add(e.0, 1),
                    ..before
                }));
            }
        }
        assert(retired(self@, bound) == self@);
        let ghost q = self@;
        if self.committed_pending.len() == 0 && self.sealed.len() == 0 && self.tail_seq
            < self.head_seq {
            self.tail_seq = self.head_seq;
            self.tail_block = self.head_block;
            changed = true;
        }
        assert(self@ =~= caught_up(q));
        if changed {
            self.write_journal_sb(dev);
        }
    }

    /// Writes every block that has been committed to its home location.
    pub fn flush_home(&mut self, dev: &mut BlockDevice)
        requires
            old(dev).wf(),
        ensures
            final(self).same_region(old(self)),
            final(dev).wf(),
            final(dev)@ == old(dev)@,
            ring_state(*final(self), *final(dev)) == flushed(ring_state(*old(self), *old(dev))),
    {
        let ghost s = ring_state(*self, *dev);
        let ghost t0 = self.checkpoint_tracker;
        proof {
            dev.lemma_forced(self.checkpoint_tracker);
            dev.lemma_wf();
        }
        dev.flush(&mut self.checkpoint_tracker);
        proof {
            let due = s.dirty.filter(|k: u64| flushable(s.j, k));
            assert(due =~= old(dev).dirty().filter(|k: u64| t0.flushable(k)));
            dev.lemma_wf();
            let a = ring_state(*self, *dev);
            let b = flushed(s);
            assert forall|i: int| 0 <= i < a.home.len() implies a.home[i] == b.home[i] by {
                assert(dev.persisted()[i] == (if t0.flushable(i as u64) {
                    old(dev)@[i]
                } else {
                    old(dev).persisted()[i]
                }));
                if !s.dirty.contains(i as u64) {
                    assert(old(dev)@[i] == old(dev).persisted()[i]);
                }
            }
            assert(a.home =~= b.home);
            assert(a.dirty =~= b.dirty);
            assert(a.j =~= b.j);
            assert(a =~= b);
        }
    }

    /// Writes committed blocks to their home locations and advances the tail past
    /// what that freed.
    fn checkpoint_and_advance(&mut self, dev: &mut BlockDevice)
        requires
            old(self).on(old(dev)),
        ensures
            final(self).same_region(old(self)),
            final(self).on(final(dev)),
            final(dev)@.len() == old(dev)@.len(),
            ring_state(*final(self), *final(dev)) == advanced(
                flushed(ring_state(*old(self), *old(dev))),
                old(self).region(),
            ),
    {
        self.flush_home(dev);
        self.advance_tail(dev);
    }
}

/// The descriptor records and stored blocks of a transaction.
fn gather(dev: &mut BlockDevice, blocks: &SortedSet) -> (r: (Vec<(u64, u64)>, Vec<Vec<u8>>))
    requires
        old(dev).wf(),
        forall|b: u64| #[trigger] blocks@.contains(b) ==> b < old(dev)@.len(),
    ensures
        final(dev).wf(),
        final(dev)@ == old(dev)@,
        final(dev).persisted() == old(dev).persisted(),
        final(dev).dirty() == old(dev).dirty(),
        r.0@ == entries_of(old(dev)@, sorted::in_order(blocks@)),
        crate::block_page_cache::home(r.1@) == data_of(old(dev)@, sorted::in_order(blocks@)),
        r.0@.len() == blocks@.len(),
        r.1@.len() == blocks@.len(),
        forall|i: int| 0 <= i < r.1@.len() ==> (#[trigger] r.1@[i])@.len() == PAGE_SIZE,
{
    let mut entries: Vec<(u64, u64)> = Vec::new();
    let mut data: Vec<Vec<u8>> = Vec::new();
    let all = blocks.listed();
    let n: usize = all.len();
    let ghost order = all@;
    let ghost pages = dev@;
    let ghost d0 = *dev;
    let mut i: usize = 0;
    assert(crate::block_page_cache::home(data@) =~= data_of(pages, order.take(0)));
    assert(entries@ =~= entries_of(pages, order.take(0)));
    while i < n
        invariant
            i <= n,
            n == order.len(),
            order == all@,
            order.to_set() == blocks@,
            forall|b: u64| #[trigger] blocks@.contains(b) ==> b < pages.len(),
            dev.wf(),
            dev@ == pages,
            dev.persisted() == d0.persisted(),
            dev.dirty() == d0.dirty(),
            entries@ == entries_of(pages, order.take(i as int)),
            crate::block_page_cache::home(data@) == data_of(pages, order.take(i as int)),
            forall|k: int| 0 <= k < data@.len() ==> (#[trigger] data@[k])@.len() == PAGE_SIZE,
        decreases n - i,
    {
        let b: u64 = all[i];
        assert(order.to_set().contains(order[i as int]));
        match dev.read_page(b) {
            Ok(p) => {
                let mut p = p;
                let escape: bool = get_u32(p.as_slice(), 0) == JOURNAL_BLOCK_MAGIC;
                if escape {
                    let z = zero_vec(4);
                    write_at(&mut p, 0, z.as_slice());
                }
                let ghost before = data@;
                let ghost stored = p@;
                assert(stored =~= layout::escaped(pages[b as int]));
                entries.push((b, if escape {
                    DESC_FLAG_ESCAPED
                } else {
                    0
                }));
                data.push(p);
                proof {
                    assert(order.take(i + 1) =~= order.take(i as int).push(b));
                    assert(crate::block_page_cache::home(data@)
                        =~= crate::block_page_cache::home(before).push(stored));
                    assert(crate::block_page_cache::home(data@) =~= data_of(
                        pages,
                        order.take(i + 1),
                    ));
                    assert(entries@ =~= entries_of(pages, order.take(i + 1)));
                }
            },
            Err(_) => {
                assert(false);
            },
        }
        i = i + 1;
    }
    assert(order.take(n as int) =~= order);
    (entries, data)
}

/// The revoke records of a transaction.
fn gather_revokes(revokes: &SortedSet, seq: u64) -> (r: Vec<(u64, u64)>)
    ensures
        r@ == revokes_of(sorted::in_order(revokes@), seq),
        r@.len() == revokes@.len(),
{
    let mut out: Vec<(u64, u64)> = Vec::new();
    let all = revokes.listed();
    let n: usize = all.len();
    let ghost order = all@;
    let mut i: usize = 0;
    assert(out@ =~= revokes_of(order.take(0), seq));
    while i < n
        invariant
            i <= n,
            n == order.len(),
            order == all@,
            out@ == revokes_of(order.take(i as int), seq),
        decreases n - i,
    {
        let b: u64 = all[i];
        out.push((b, seq));
        assert(order.take(i + 1) =~= order.take(i as int).push(b));
        assert(out@ =~= revokes_of(order.take(i + 1), seq));
        i = i + 1;
    }
    assert(order.take(n as int) =~= order);
    out
}

/// The stored blocks one after the other.
fn join(blocks: &Vec<Vec<u8>>) -> (r: Vec<u8>)
    ensures
        r@ == layout::concat(crate::block_page_cache::home(blocks@)),
{
    let mut out: Vec<u8> = Vec::new();
    let ghost all = crate::block_page_cache::home(blocks@);
    let mut i: usize = 0;
    assert(all.take(0) =~= Seq::<Seq<u8>>::empty());
    while i < blocks.len()
        invariant
            i <= blocks.len(),
            all == crate::block_page_cache::home(blocks@),
            out@ == layout::concat(all.take(i as int)),
        decreases blocks.len() - i,
    {
        push_slice(&mut out, blocks[i].as_slice());
        assert(all.take(i + 1).drop_last() =~= all.take(i as int));
        assert(all.take(i + 1).last() == blocks@[i as int]@);
        i = i + 1;
    }
    assert(all.take(blocks@.len() as int) =~= all);
    out
}

/// Whether all of a set's members are below `n`.
fn all_below(s: &SortedSet, n: u64) -> (r: bool)
    ensures
        r == (forall|b: u64| #[trigger] s@.contains(b) ==> b < n),
{
    let all = s.listed();
    let m: usize = all.len();
    let ghost order = all@;
    if m == 0 {
        assert forall|b: u64| #[trigger] s@.contains(b) implies b < n by {
            assert(order.to_set().contains(b));
            let q = choose|q: int| 0 <= q < order.len() && order[q] == b;
        }
        return true;
    }
    let top: u64 = all[m - 1];
    proof {
        assert(order.to_set().contains(order[m - 1]));
        assert forall|b: u64| #[trigger] s@.contains(b) implies b <= top by {
            assert(order.to_set().contains(b));
            let q = choose|q: int| 0 <= q < order.len() && order[q] == b;
            if q < m - 1 {
                assert(order[q] < order[m - 1]);
            }
        }
    }
    top < n
}

impl Journal {
    /// Looks for room for `n` more ring blocks, checkpointing between looks.
    fn make_room(&mut self, dev: &mut BlockDevice, n: u64) -> (r: bool)
        requires
            old(self).on(old(dev)),
        ensures
            final(self).same_region(old(self)),
            final(self).on(final(dev)),
            final(dev)@.len() == old(dev)@.len(),
            made_room(
                ring_state(*old(self), *old(dev)),
                old(self).region(),
                n as int,
                CHECKPOINT_ATTEMPTS as int,
            ) == (ring_state(*final(self), *final(dev)), r),
            r ==> has_room(final(self)@, old(self).region(), n as int),
    {
        let ghost s0 = ring_state(*self, *dev);
        let ghost r = self.region();
        let ring: u64 = if self.block_count == 0 {
            0
        } else {
            self.block_count as u64 - 1
        };
        let mut attempt: usize = 0;
        while attempt < CHECKPOINT_ATTEMPTS
            invariant
                attempt <= CHECKPOINT_ATTEMPTS,
                self.on(dev),
                self.region() == r,
                r == old(self).region(),
                self.same_region(old(self)),
                dev@.len() == old(dev)@.len(),
                ring == r.ring(),
                s0 == ring_state(*old(self), *old(dev)),
                made_room(s0, r, n as int, CHECKPOINT_ATTEMPTS as int) == made_room(
                    ring_state(*self, *dev),
                    r,
                    n as int,
                    CHECKPOINT_ATTEMPTS - attempt,
                ),
            decreases CHECKPOINT_ATTEMPTS - attempt,
        {
            let in_use: u64 = self.head_block.wrapping_sub(self.tail_block);
            if in_use <= ring && n <= ring - in_use && self.head_block <= u64::MAX - n {
                return true;
            }
            if attempt + 1 == CHECKPOINT_ATTEMPTS {
                return false;
            }
            self.checkpoint_and_advance(dev);
            attempt = attempt + 1;
        }
        false
    }

    /// Stores a transaction at the head of the ring: descriptor, data and revoke
    /// blocks first, then the commit block, then the journal superblock. Gives up at the
    /// first ring position that lies past the end of the device.
    fn store(&mut self, dev: &mut BlockDevice, tx: Transaction) -> (res: Result<(), Error>)
        requires
            old(self).on(old(dev)),
            storable(old(dev)@, tx@),
            has_room(old(self)@, old(self).region(), needed(tx@)),
        ensures
            final(self).same_region(old(self)),
            final(self).on(final(dev)),
            final(dev)@.len() == old(dev)@.len(),
            ({
                let s = ring_state(*old(self), *old(dev));
                let r = old(self).region();
                let head = s.j.head_block as int;
                let k = landing(r, s.pages.len() as int, head, needed(tx@));
                if k < needed(tx@) {
                    &&& ring_state(*final(self), *final(dev)) == put_ring(
                        s,
                        r,
                        head,
                        tx_blocks(s.pages, tx@).take(k),
                    )
                    &&& res == Err::<(), Error>(Error::IoError)
                } else {
                    &&& ring_state(*final(self), *final(dev)) == stored(s, r, tx@)
                    &&& res == Ok::<(), Error>(())
                    &&& final(self)@.sealed == old(self)@.sealed
                }
            }),
    {
        let ghost s0 = ring_state(*self, *dev);
        let ghost r = self.region();
        let (entries, data) = gather(dev, &tx.enrolled_blocks);
        let revokes = gather_revokes(&tx.revokes, tx.seq);
        let payload = join(&data);
        let crc: u32 = checksum(payload.as_slice());
        let mut blocks: Vec<Vec<u8>> = Vec::new();
        blocks.push(build_descriptor_block(tx.seq, tx.tx_id, entries.as_slice()));
        let mut data = data;
        let ghost d = crate::block_page_cache::home(data@);
        blocks.append(&mut data);
        if revokes.len() > 0 {
            blocks.push(build_revoke_block(tx.seq, tx.tx_id, revokes.as_slice()));
        }
        blocks.push(build_commit_block(tx.seq, tx.tx_id, crc));
        proof {
            assert(crate::block_page_cache::home(blocks@) =~= tx_blocks(s0.pages, tx@));
            assert(blocks@.len() == needed(tx@));
        }
        let n: u64 = blocks.len() as u64;
        let pos: u64 = self.head_block;
        let ghost k = landing(r, s0.pages.len() as int, pos as int, n as int);
        match self.submit_journal_blocks(dev, pos, &blocks) {
            Ok(_) => {},
            Err(e) => {
                return Err(e);
            },
        }
        proof {
            lemma_landing_bound(r, s0.pages.len() as int, pos as int, n as int);
            assert(tx_blocks(s0.pages, tx@).take(k) =~= tx_blocks(s0.pages, tx@));
        }
        self.head_block = pos + n;
        self.checkpoint_tracker.committed_seq = tx.seq;
        self.committed_pending.push((tx.seq, n));
        proof {
            let w = put_ring(s0, r, pos as int, tx_blocks(s0.pages, tx@));
            old(dev).lemma_wf();
            lemma_put_ring_keeps(s0, r, pos as int, tx_blocks(s0.pages, tx@));
            assert(self@ =~= (JournalView {
                head_block: (s0.j.head_block + n) as u64,
                committed_seq: tx.seq,
                committed_pending: s0.j.committed_pending.push((tx.seq, n)),
                ..w.j
            }));
        }
        self.write_journal_sb(dev);
        Ok(())
    }
}

proof fn lemma_landing_bound(r: Region, n: int, pos: int, len: int)
    requires
        0 <= len,
    ensures
        0 <= landing(r, n, pos, len) <= len,
        landing(r, n, pos, len) == len && len > 0 ==> landing(r, n, pos, len - 1) == len - 1
            && r.page(pos + len - 1) < n,
        landing(r, n, pos, landing(r, n, pos, len)) == landing(r, n, pos, len),
    decreases len,
{
    if len > 0 {
        lemma_landing_bound(r, n, pos, len - 1);
    }
}

/// Writing to the ring changes nothing of the journal but the tracker.
pub proof fn lemma_put_ring_keeps(s: RingState, r: Region, pos: int, blocks: Seq<Seq<u8>>)
    requires
        landing(r, s.pages.len() as int, pos, blocks.len() as int) == blocks.len(),
        s.home.len() == s.pages.len(),
        0 <= r.start,
        0 < r.ring(),
        0 <= pos,
    ensures
        ({
            let w = put_ring(s, r, pos, blocks);
            &&& w.j == (JournalView { tracker: w.j.tracker, ..s.j })
            &&& w.pages.len() == s.pages.len()
            &&& w.home.len() == s.home.len()
        }),
    decreases blocks.len(),
{
    if blocks.len() > 0 {
        lemma_landing_bound(r, s.pages.len() as int, pos, blocks.len() as int);
        lemma_put_ring_keeps(s, r, pos, blocks.drop_last());
    }
}

pub proof fn lemma_retired_sealed(j: JournalView, bound: u64)
    ensures
        retired(j, bound).sealed == j.sealed,
        retired(j, bound).active == j.active,
    decreases j.committed_pending.len(),
{
    if !(j.committed_pending.len() == 0 || j.committed_pending[0].0 >= bound) {
        let (seq, blocks) = j.committed_pending[0];
        lemma_retired_sealed(
            JournalView {
                committed_pending: j.committed_pending.skip(1),
                tail_block: journal::wrap_add(j.tail_block, blocks),
                tail_seq: journal::wrap_add(seq, 1),
                ..j
            },
            bound,
        );
    }
}

proof fn lemma_room_sealed(s: RingState, r: Region, n: int, attempts: int)
    ensures
        made_room(s, r, n, attempts).0.j.sealed == s.j.sealed,
    decreases attempts,
{
    if attempts > 1 && !has_room(s.j, r, n) {
        let f = flushed(s);
        let p = pruned(f.j, f.dirty);
        lemma_retired_sealed(p, lowest(p));
        lemma_room_sealed(advanced(f, r), r, n, attempts - 1);
    }
}

impl Journal {
    /// Commits the oldest sealed transaction. One that cannot be stored stays where
    /// it was.
    fn commit_oldest(&mut self, dev: &mut BlockDevice) -> (res: Result<(), Error>)
        requires
            old(self).on(old(dev)),
            old(self)@.sealed.len() > 0,
        ensures
            final(self).same_region(old(self)),
            final(self).on(final(dev)),
            final(dev)@.len() == old(dev)@.len(),
            commit_first(ring_state(*old(self), *old(dev)), old(self).region()) == (
                ring_state(*final(self), *final(dev)),
                res,
            ),
            res is Ok ==> final(self)@.sealed == old(self)@.sealed.skip(1),
    {
        reveal(commit_first);
        let ghost s0 = ring_state(*self, *dev);
        let ghost r = self.region();
        let ghost j0 = self@;
        let tx = self.sealed.remove(0);
        let ghost popped = RingState {
            j: JournalView { sealed: s0.j.sealed.skip(1), ..s0.j },
            ..s0
        };
        proof {
            assert(j0.sealed[0] == tx@);
            assert(self@.sealed =~= s0.j.sealed.skip(1));
            assert(ring_state(*self, *dev) =~= popped);
        }
        if tx.is_empty() {
            self.checkpoint_tracker.committed_seq = tx.seq;
            assert(ring_state(*self, *dev) =~= commit_first(s0, r).0);
            return Ok(());
        }
        let n_data: usize = tx.enrolled_blocks.len();
        let n_revoke: usize = tx.revokes.len();
        let pages: u64 = dev.page_count();
        if n_data > MAX_RECORDS || n_revoke > MAX_RECORDS || !all_below(
            &tx.enrolled_blocks,
            pages,
        ) {
            self.sealed.insert(0, tx);
            assert(self@.sealed =~= s0.j.sealed);
            assert(ring_state(*self, *dev) =~= s0);
            return Err(Error::IoError);
        }
        let n: u64 = 2 + n_data as u64 + if n_revoke == 0 {
            0
        } else {
            1
        };
        assert(n == needed(tx@));
        let ok: bool = self.make_room(dev, n);
        let ghost m = ring_state(*self, *dev);
        proof {
            lemma_room_sealed(popped, r, n as int, CHECKPOINT_ATTEMPTS as int);
        }
        if !ok {
            self.sealed.insert(0, tx);
            assert(self@.sealed =~= seq![tx@] + m.j.sealed);
            assert(ring_state(*self, *dev) =~= commit_first(s0, r).0);
            return Err(Error::IoError);
        }
        proof {
            assert(dev@.len() == old(dev)@.len());
            dev.lemma_wf();
        }
        self.store(dev, tx)
    }

    /// Seals the active transaction, then commits everything sealed, oldest first.
    pub fn seal_and_commit(&mut self, dev: &mut BlockDevice) -> (res: Result<(), Error>)
        requires
            old(self).on(old(dev)),
        ensures
            final(self).same_region(old(self)),
            final(self).on(final(dev)),
            final(dev)@.len() == old(dev)@.len(),
            committed(ring_state(*old(self), *old(dev)), old(self).region()) == (
                ring_state(*final(self), *final(dev)),
                res,
            ),
    {
        let ghost r = self.region();
        let ghost s0 = ring_state(*self, *dev);
        self.seal_active();
        let ghost s1 = ring_state(*self, *dev);
        let ghost fuel = s1.j.sealed.len();
        assert(s1 =~= (RingState { j: journal::seal(s0.j), ..s0 }));
        while self.sealed.len() > 0
            invariant
                self.on(dev),
                self.region() == r,
                self.same_region(old(self)),
                dev@.len() == old(dev)@.len(),
                r == old(self).region(),
                s0 == ring_state(*old(self), *old(dev)),
                committed(s0, r) == drained(ring_state(*self, *dev), r, self@.sealed.len()),
            decreases self@.sealed.len(),
        {
            assert(self@.sealed.len() == self.sealed@.len());
            match self.commit_oldest(dev) {
                Ok(_) => {},
                Err(e) => {
                    return Err(e);
                },
            }
        }
        Ok(())
    }

    /// Commits if there is anything to commit.
    pub fn seal_and_commit_if_needed(&mut self, dev: &mut BlockDevice) -> (res: Result<(), Error>)
        requires
            old(self).on(old(dev)),
        ensures
            final(self).same_region(old(self)),
            final(self).on(final(dev)),
            final(dev)@.len() == old(dev)@.len(),
            committed(ring_state(*old(self), *old(dev)), old(self).region()) == (
                ring_state(*final(self), *final(dev)),
                res,
            ),
    {
        if self.has_pending_work() {
            self.seal_and_commit(dev)
        } else {
            assert(ring_state(*self, *dev) =~= (RingState {
                j: journal::seal(self@),
                ..ring_state(*self, *dev)
            }));
            Ok(())
        }
    }

    /// Commits everything, and fails if the newest transaction did not make it.
    pub fn force_commit_and_wait(&mut self, dev: &mut BlockDevice) -> (res: Result<(), Error>)
        requires
            old(self).on(old(dev)),
        ensures
            final(self).same_region(old(self)),
            final(self).on(final(dev)),
            final(dev)@.len() == old(dev)@.len(),
            committed(ring_state(*old(self), *old(dev)), old(self).region()).0 == ring_state(
                *final(self),
                *final(dev),
            ),
            res == (if committed(ring_state(*old(self), *old(dev)), old(self).region()).1 is Err
                || (newest_pending(old(self)@) is Some && final(self)@.committed_seq
                < newest_pending(old(self)@)->Some_0) {
                Err::<(), Error>(Error::IoError)
            } else {
                Ok::<(), Error>(())
            }),
    {
        let target: Option<u64> = if self.active.is_empty() {
            if self.sealed.len() > 0 {
                Some(self.sealed[self.sealed.len() - 1].seq)
            } else {
                None
            }
        } else {
            Some(self.active.seq)
        };
        assert(target == newest_pending(self@));
        match self.seal_and_commit_if_needed(dev) {
            Ok(_) => {},
            Err(_) => {
                return Err(Error::IoError);
            },
        }
        match target {
            Some(t) => if self.committed_seq() < t {
                Err(Error::IoError)
            } else {
                Ok(())
            },
            None => Ok(()),
        }
    }

    /// One round of the committer: the tail first, since that can free the space the
    /// commit needs; then the commit.
    pub fn commit_round(&mut self, dev: &mut BlockDevice) -> (res: Result<(), Error>)
        requires
            old(self).on(old(dev)),
        ensures
            final(self).same_region(old(self)),
            final(self).on(final(dev)),
            final(dev)@.len() == old(dev)@.len(),
            committed(
                advanced(ring_state(*old(self), *old(dev)), old(self).region()),
                old(self).region(),
            ) == (ring_state(*final(self), *final(dev)), res),
    {
        self.advance_tail(dev);
        self.seal_and_commit_if_needed(dev)
    }
}

/// The newest transaction that a commit would have to reach.
pub open spec fn newest_pending(j: JournalView) -> Option<u64> {
    if !j.active.empty() {
        Some(j.active.seq)
    } else if j.sealed.len() > 0 {
        Some(j.sealed.last().seq)
    } else {
        None
    }
}

} // verus!
