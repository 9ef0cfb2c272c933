//! The write-ahead journal: which metadata blocks are waiting to be committed to
//! the ring, and which committed ones are waiting to reach their home location.
use vstd::prelude::*;
use crate::block_device::BlockDevice;
use crate::sorted::{SortedMap, SortedSet};
use self::tx::TxHandle;

pub mod checkpoint;
pub mod faultinject;
pub mod layout;
pub mod live;
pub mod recovery;
pub mod replay;
pub mod ring;
pub mod tx;

verus! {

// ---- State ----------------------------------------------------------------------

/// What a transaction carries.
#[verifier::ext_equal]
pub struct TxnView {
    pub seq: u64,
    pub tx_id: u64,
    pub blocks: Set<u64>,
    pub revokes: Set<u64>,
}

impl TxnView {
    /// Whether the transaction carries nothing.
    pub open spec fn empty(self) -> bool {
        self.blocks == Set::<u64>::empty() && self.revokes == Set::<u64>::empty()
    }
}

/// A transaction.
pub struct Transaction {
    /// Sequence number assigned to this transaction.
    pub seq: u64,
    /// Unique transaction identifier (used in block headers).
    pub tx_id: u64,
    /// Metadata blocks enrolled in this transaction, by page index.
    pub enrolled_blocks: SortedSet,
    /// Blocks freed by this transaction, by page index.
    pub revokes: SortedSet,
}

impl View for Transaction {
    type V = TxnView;

    open spec fn view(&self) -> TxnView {
        TxnView {
            seq: self.seq,
            tx_id: self.tx_id,
            blocks: self.enrolled_blocks@,
            revokes: self.revokes@,
        }
    }
}

impl Transaction {
    /// An empty transaction.
    pub fn new(seq: u64, tx_id: u64) -> (r: Transaction)
        ensures
            r@ == fresh_txn(seq, tx_id),
    {
        Transaction {
            seq,
            tx_id,
            enrolled_blocks: SortedSet::new(),
            revokes: SortedSet::new(),
        }
    }

    /// Whether the transaction carries nothing.
    pub fn is_empty(&self) -> (r: bool)
        ensures
            r == self@.empty(),
    {
        self.enrolled_blocks.is_empty() && self.revokes.is_empty()
    }
}

/// An empty transaction.
pub open spec fn fresh_txn(seq: u64, tx_id: u64) -> TxnView {
    TxnView { seq, tx_id, blocks: Set::empty(), revokes: Set::empty() }
}

/// Which blocks still have to reach their home location, each with the sequence
/// number of the transaction that last enrolled it, and how far commits have got.
/// Writeback consults it before it writes a block out.
pub struct CheckpointTracker {
    pub seqs: SortedMap<u64>,
    /// Highest sequence number that has been written to the ring.
    pub committed_seq: u64,
    /// Whether the blocks waited for are held back for now, committed or not.
    pub paused: bool,
}

impl CheckpointTracker {
    /// A tracker that waits for nothing.
    pub fn new(committed_seq: u64) -> (r: CheckpointTracker)
        ensures
            r.seqs@ == Map::<u64, u64>::empty(),
            r.committed_seq == committed_seq,
            !r.paused,
    {
        CheckpointTracker { seqs: SortedMap::new(), committed_seq, paused: false }
    }

    /// Whether `block` may be written to its home location: it must not be before
    /// the transaction that enrolled it has been committed, nor while checkpoints
    /// are paused.
    pub open spec fn flushable(&self, block: u64) -> bool {
        self.seqs@.contains_key(block) ==> !self.paused && self.seqs@[block] <= self.committed_seq
    }

    /// Whether the transaction that enrolled `block`, if any, has been committed.
    pub fn is_safe_to_flush(&self, block: u64) -> (r: bool)
        ensures
            r == (self.seqs@.contains_key(block) ==> self.seqs@[block] <= self.committed_seq),
    {
        match self.seqs.get(block) {
            Some(seq) => *seq <= self.committed_seq,
            None => true,
        }
    }

    /// Whether `block` may be written to its home location now.
    pub fn may_flush(&self, block: u64) -> (r: bool)
        ensures
            r == self.flushable(block),
    {
        self.is_safe_to_flush(block) && !(self.paused && self.seqs.contains_key(block))
    }

    /// Sequence number `block` is enrolled under, if any.
    pub fn enrolled_seq(&self, block: u64) -> (r: Option<u64>)
        ensures
            match r {
                Some(s) => self.seqs@.contains_key(block) && s == self.seqs@[block],
                None => !self.seqs@.contains_key(block),
            },
    {
        match self.seqs.get(block) {
            Some(seq) => Some(*seq),
            None => None,
        }
    }

    /// Records that `block` has reached its home location as of sequence number
    /// `expected_seq`. An entry that a later transaction renewed stays.
    pub fn note_checkpointed(&mut self, block: u64, expected_seq: u64)
        ensures
            final(self).committed_seq == old(self).committed_seq,
            final(self).paused == old(self).paused,
            final(self).seqs@ == checkpointed(old(self).seqs@, block, expected_seq),
    {
        let hit: bool = match self.seqs.get(block) {
            Some(seq) => *seq == expected_seq,
            None => false,
        };
        if hit {
            self.seqs.remove(block);
        }
    }
}

/// `t` after `block` has reached its home location as of `expected_seq`.
pub open spec fn checkpointed(t: Map<u64, u64>, block: u64, expected_seq: u64) -> Map<u64, u64> {
    if t.contains_key(block) && t[block] == expected_seq {
        t.remove(block)
    } else {
        t
    }
}

/// The journal's state.
#[verifier::ext_equal]
pub struct JournalView {
    /// Sequence number of the active transaction.
    pub head_seq: u64,
    /// Oldest sequence number not yet checkpointed.
    pub tail_seq: u64,
    /// Ring position the next commit starts at; grows without wrapping.
    pub head_block: u64,
    /// Ring position of the oldest live transaction.
    pub tail_block: u64,
    /// The transaction that takes new work.
    pub active: TxnView,
    /// Transactions closed to new work, not yet in the ring.
    pub sealed: Seq<TxnView>,
    /// Committed transactions waiting to be checkpointed: sequence number and
    /// ring blocks.
    pub committed_pending: Seq<(u64, u64)>,
    pub committed_seq: u64,
    pub tracker: Map<u64, u64>,
    /// Whether checkpoints are paused.
    pub paused: bool,
    pub tx_ids: u64,
}

/// The journal of one volume.
pub struct Journal {
    pub device_id: u64,
    /// First journal block, counted from the start of the partition.
    pub first_block: u64,
    /// LBA the partition starts at.
    pub partition_start_lba: u64,
    /// Blocks of the journal region; block 0 of it holds the journal superblock
    /// and the others are the ring.
    pub block_count: u32,
    pub head_seq: u64,
    pub tail_seq: u64,
    pub head_block: u64,
    pub tail_block: u64,
    pub active: Transaction,
    pub sealed: Vec<Transaction>,
    pub committed_pending: Vec<(u64, u64)>,
    pub checkpoint_tracker: CheckpointTracker,
    pub tx_id_counter: u64,
}

/// The views of several transactions.
pub open spec fn txn_views(ts: Seq<Transaction>) -> Seq<TxnView> {
    ts.map_values(|t: Transaction| t@)
}

impl View for Journal {
    type V = JournalView;

    open spec fn view(&self) -> JournalView {
        JournalView {
            head_seq: self.head_seq,
            tail_seq: self.tail_seq,
            head_block: self.head_block,
            tail_block: self.tail_block,
            active: self.active@,
            sealed: txn_views(self.sealed@),
            committed_pending: self.committed_pending@,
            committed_seq: self.checkpoint_tracker.committed_seq,
            tracker: self.checkpoint_tracker.seqs@,
            paused: self.checkpoint_tracker.paused,
            tx_ids: self.tx_id_counter,
        }
    }
}

/// The blocks that some transaction not yet committed carries.
pub open spec fn pending_blocks(j: JournalView) -> Set<u64> {
    Set::new(
        |b: u64|
            j.active.blocks.contains(b) || exists|i: int|
                0 <= i < j.sealed.len() && (#[trigger] j.sealed[i]).blocks.contains(b),
    )
}

/// The blocks that some transaction not yet committed revokes.
pub open spec fn pending_revokes(j: JournalView) -> Set<u64> {
    Set::new(
        |b: u64|
            j.active.revokes.contains(b) || exists|i: int|
                0 <= i < j.sealed.len() && (#[trigger] j.sealed[i]).revokes.contains(b),
    )
}

/// `a + b`, wrapping around at 64 bits.
pub open spec fn wrap_add(a: u64, b: u64) -> u64 {
    (if a + b > u64::MAX {
        a + b - 0x1_0000_0000_0000_0000
    } else {
        a + b
    }) as u64
}

/// The journal with its active transaction moved to the sealed ones, unless it
/// carries nothing.
pub open spec fn seal(j: JournalView) -> JournalView {
    if j.active.empty() {
        j
    } else {
        let next = wrap_add(j.head_seq, 1);
        let id = wrap_add(j.tx_ids, 1);
        JournalView {
            head_seq: next,
            tx_ids: id,
            active: fresh_txn(next, id),
            sealed: j.sealed.push(j.active),
            ..j
        }
    }
}

/// Largest number of blocks a transaction may enroll before it is sealed: a
/// quarter of the ring, since it has to fit beside what the ring already holds.
pub open spec fn tx_limit(block_count: u32) -> int {
    if block_count == 0 {
        0
    } else {
        (block_count - 1) / 4
    }
}

/// The journal after a transaction that changed `blocks` and freed `revokes` has
/// been merged into the active one; `dirty` are the blocks whose home copy is out
/// of date.
pub open spec fn merge(
    j: JournalView,
    limit: int,
    blocks: Set<u64>,
    revokes: Set<u64>,
    dirty: Set<u64>,
) -> JournalView {
    if blocks == Set::<u64>::empty() && revokes == Set::<u64>::empty() {
        j
    } else {
        let seq = j.active.seq;
        let grown = JournalView {
            active: TxnView {
                blocks: j.active.blocks.union(blocks),
                revokes: j.active.revokes.union(revokes),
                ..j.active
            },
            tracker: track(j.tracker, blocks, dirty, seq),
            ..j
        };
        if grown.active.blocks.len() >= limit {
            seal(grown)
        } else {
            grown
        }
    }
}

/// `t` with the blocks that are both in `blocks` and `dirty` recorded under `seq`.
pub open spec fn track(
    t: Map<u64, u64>,
    blocks: Set<u64>,
    dirty: Set<u64>,
    seq: u64,
) -> Map<u64, u64> {
    Map::new(
        |k: u64| t.contains_key(k) || (blocks.contains(k) && dirty.contains(k)),
        |k: u64|
            if blocks.contains(k) && dirty.contains(k) {
                seq
            } else {
                t[k]
            },
    )
}

/// What is pending does not depend on which blocks wait for it.
pub proof fn lemma_same_pending(a: JournalView, b: JournalView)
    requires
        a.active == b.active,
        a.sealed == b.sealed,
    ensures
        pending_blocks(a) == pending_blocks(b),
        pending_revokes(a) == pending_revokes(b),
{
    assert(pending_blocks(a) =~= pending_blocks(b));
    assert(pending_revokes(a) =~= pending_revokes(b));
}

proof fn lemma_seal_pending(j: JournalView)
    ensures
        pending_blocks(seal(j)) == pending_blocks(j),
        pending_revokes(seal(j)) == pending_revokes(j),
{
    let k = seal(j);
    if !j.active.empty() {
        assert(k.sealed.last() == j.active);
        assert forall|i: int| 0 <= i < j.sealed.len() implies k.sealed[i] == #[trigger] j.sealed[i] by {}
        assert forall|b: u64| pending_blocks(j).contains(b) implies pending_blocks(k).contains(b) by {
            if j.active.blocks.contains(b) {
                assert(k.sealed[j.sealed.len() as int].blocks.contains(b));
            } else {
                let i = choose|i: int|
                    0 <= i < j.sealed.len() && (#[trigger] j.sealed[i]).blocks.contains(b);
                assert(k.sealed[i].blocks.contains(b));
            }
        }
        assert forall|b: u64| pending_revokes(j).contains(b) implies pending_revokes(k).contains(
            b,
        ) by {
            if j.active.revokes.contains(b) {
                assert(k.sealed[j.sealed.len() as int].revokes.contains(b));
            } else {
                let i = choose|i: int|
                    0 <= i < j.sealed.len() && (#[trigger] j.sealed[i]).revokes.contains(b);
                assert(k.sealed[i].revokes.contains(b));
            }
        }
        assert(pending_blocks(k) =~= pending_blocks(j));
        assert(pending_revokes(k) =~= pending_revokes(j));
    }
}

/// Merging a transaction makes exactly its blocks and revokes pending besides
/// those that were, whether or not the active transaction is sealed on the way.
pub proof fn merge_adds_pending(
    j: JournalView,
    limit: int,
    blocks: Set<u64>,
    revokes: Set<u64>,
    dirty: Set<u64>,
)
    ensures
        pending_blocks(merge(j, limit, blocks, revokes, dirty)) == pending_blocks(j).union(blocks),
        pending_revokes(merge(j, limit, blocks, revokes, dirty)) == pending_revokes(j).union(
            revokes,
        ),
{
    if blocks == Set::<u64>::empty() && revokes == Set::<u64>::empty() {
        assert(pending_blocks(j).union(blocks) =~= pending_blocks(j));
        assert(pending_revokes(j).union(revokes) =~= pending_revokes(j));
    } else {
        let grown = JournalView {
            active: TxnView {
                blocks: j.active.blocks.union(blocks),
                revokes: j.active.revokes.union(revokes),
                ..j.active
            },
            tracker: track(j.tracker, blocks, dirty, j.active.seq),
            ..j
        };
        assert(grown.sealed == j.sealed);
        assert(pending_blocks(grown) =~= pending_blocks(j).union(blocks));
        assert(pending_revokes(grown) =~= pending_revokes(j).union(revokes));
        lemma_seal_pending(grown);
    }
}

impl Journal {
    /// A journal over the given region, with an empty active transaction.
    pub fn new(
        device_id: u64,
        partition_start_lba: u64,
        first_block: u64,
        block_count: u32,
        head_seq: u64,
        tail_seq: u64,
        initial_head_block: u64,
    ) -> (r: Journal)
        ensures
            r.device_id == device_id,
            r.partition_start_lba == partition_start_lba,
            r.first_block == first_block,
            r.block_count == block_count,
            r@ == new_journal(head_seq, tail_seq, initial_head_block),
    {
        let committed: u64 = if head_seq == 0 {
            0
        } else {
            head_seq - 1
        };
        let r = Journal {
            device_id,
            first_block,
            partition_start_lba,
            block_count,
            head_seq,
            tail_seq,
            head_block: initial_head_block,
            tail_block: initial_head_block,
            active: Transaction::new(head_seq, head_seq),
            sealed: Vec::new(),
            committed_pending: Vec::new(),
            checkpoint_tracker: CheckpointTracker::new(committed),
            tx_id_counter: head_seq,
        };
        assert(r@.sealed =~= Seq::<TxnView>::empty());
        r
    }

    /// Opens a transaction to stage blocks in.
    pub fn begin_tx(&self) -> (r: TxHandle)
        ensures
            r.staged_blocks@ == Set::<u64>::empty(),
            r.staged_revokes@ == Set::<u64>::empty(),
            !r.aborted,
    {
        TxHandle::new()
    }

    /// Everything but the changing state is the same.
    pub open spec fn same_region(&self, other: &Journal) -> bool {
        &&& self.device_id == other.device_id
        &&& self.first_block == other.first_block
        &&& self.partition_start_lba == other.partition_start_lba
        &&& self.block_count == other.block_count
    }

    /// Highest sequence number that has been written to the ring.
    pub fn committed_seq(&self) -> (r: u64)
        ensures
            r == self@.committed_seq,
    {
        self.checkpoint_tracker.committed_seq
    }

    /// Whether the transaction that enrolled `block`, if any, has been committed, so that its
    /// journal copy is there to be replayed.
    pub fn is_safe_to_flush(&self, block: u64) -> (r: bool)
        ensures
            r == (self@.tracker.contains_key(block) ==> self@.tracker[block]
                <= self@.committed_seq),
    {
        self.checkpoint_tracker.is_safe_to_flush(block)
    }

    /// Sequence number `block` is enrolled under, if any.
    pub fn enrolled_seq(&self, block: u64) -> (r: Option<u64>)
        ensures
            match r {
                Some(s) => self@.tracker.contains_key(block) && s == self@.tracker[block],
                None => !self@.tracker.contains_key(block),
            },
    {
        self.checkpoint_tracker.enrolled_seq(block)
    }

    /// Records that `block` has reached its home location as of `expected_seq`.
    pub fn note_checkpointed(&mut self, block: u64, expected_seq: u64)
        ensures
            final(self).same_region(old(self)),
            final(self)@ == (JournalView {
                tracker: checkpointed(old(self)@.tracker, block, expected_seq),
                ..old(self)@
            }),
    {
        self.checkpoint_tracker.note_checkpointed(block, expected_seq);
    }

    /// Holds the blocks of committed transactions back from their home locations, or
    /// lets them go again. Paused, the ring is not emptied, so that commits fail once
    /// it is full.
    pub fn pause_checkpoints(&mut self, paused: bool)
        ensures
            final(self).same_region(old(self)),
            final(self)@ == (JournalView { paused, ..old(self)@ }),
    {
        self.checkpoint_tracker.paused = paused;
    }

    /// Whether there is anything to commit.
    pub fn has_pending_work(&self) -> (r: bool)
        ensures
            r == (!self@.active.empty() || self@.sealed.len() > 0),
    {
        !self.active.is_empty() || self.sealed.len() > 0
    }

    /// The same answer, for a caller that only wants to know whether to look.
    pub fn has_pending_work_hint(&self) -> (r: bool)
        ensures
            r == (!self@.active.empty() || self@.sealed.len() > 0),
    {
        self.has_pending_work()
    }

    /// Whether anything committed, or closed to new work, still has to be committed
    /// or checkpointed before the journal would replay as empty.
    pub fn needs_checkpoint(&self) -> (r: bool)
        ensures
            r == (self@.sealed.len() > 0 || self@.committed_pending.len() > 0),
    {
        self.sealed.len() > 0 || self.committed_pending.len() > 0
    }

    /// Sealed transactions, committed ones not yet retired, and blocks still
    /// awaited.
    pub fn depths(&self) -> (r: (usize, usize, usize))
        ensures
            r.0 == self@.sealed.len(),
            r.1 == self@.committed_pending.len(),
            r.2 == self@.tracker.dom().len(),
    {
        (self.sealed.len(), self.committed_pending.len(), self.checkpoint_tracker.seqs.len())
    }

    /// Ring cursors: `(head_seq, tail_seq, head_block, tail_block, ring_size)`.
    pub fn cursors(&self) -> (r: (u64, u64, u64, u64, u64))
        requires
            self.block_count > 0,
        ensures
            r == (
                self@.head_seq,
                self@.tail_seq,
                self@.head_block,
                self@.tail_block,
                (self.block_count - 1) as u64,
            ),
    {
        (
            self.head_seq,
            self.tail_seq,
            self.head_block,
            self.tail_block,
            self.block_count as u64 - 1,
        )
    }

    /// Largest number of blocks one transaction may enroll.
    pub fn max_tx_blocks(&self) -> (r: usize)
        ensures
            r == tx_limit(self.block_count),
    {
        if self.block_count == 0 {
            0
        } else {
            ((self.block_count - 1) / 4) as usize
        }
    }

    /// Moves the active transaction to the sealed ones. Returns whether there was
    /// anything to seal.
    pub fn seal_active(&mut self) -> (r: bool)
        ensures
            final(self).same_region(old(self)),
            final(self)@ == seal(old(self)@),
            r == !old(self)@.active.empty(),
    {
        if self.active.is_empty() {
            return false;
        }
        let next_seq: u64 = self.head_seq.wrapping_add(1);
        let next_tx_id: u64 = self.tx_id_counter.wrapping_add(1);
        let mut tx = Transaction::new(next_seq, next_tx_id);
        std::mem::swap(&mut tx, &mut self.active);
        self.tx_id_counter = next_tx_id;
        self.head_seq = next_seq;
        self.sealed.push(tx);
        assert(self@.sealed =~= old(self)@.sealed.push(old(self)@.active));
        true
    }

    /// Seals the active transaction once it has grown to [`tx_limit`] blocks.
    pub fn seal_if_full(&mut self) -> (r: bool)
        ensures
            final(self).same_region(old(self)),
            old(self)@.active.blocks.len() >= tx_limit(old(self).block_count) ==> final(self)@
                == seal(old(self)@) && r == !old(self)@.active.empty(),
            old(self)@.active.blocks.len() < tx_limit(old(self).block_count) ==> final(self)@ == old(
                self,
            )@ && !r,
    {
        if self.active.enrolled_blocks.len() < self.max_tx_blocks() {
            return false;
        }
        self.seal_active()
    }

    /// Ends a transaction: unless it was aborted, merges what it staged into the
    /// active transaction.
    pub fn end_tx(&mut self, tx: TxHandle, dev: &BlockDevice)
        requires
            dev.wf(),
        ensures
            final(self).same_region(old(self)),
            tx.aborted ==> final(self)@ == old(self)@,
            !tx.aborted ==> final(self)@ == merge(
                old(self)@,
                tx_limit(old(self).block_count),
                tx.staged_blocks@,
                tx.staged_revokes@,
                dev.dirty(),
            ),
    {
        if tx.aborted {
            return;
        }
        if tx.staged_blocks.is_empty() && tx.staged_revokes.is_empty() {
            return;
        }
        let seq: u64 = self.active.seq;
        self.active.enrolled_blocks.add_all(&tx.staged_blocks);
        self.active.revokes.add_all(&tx.staged_revokes);
        let mut i: usize = 0;
        let ghost t0 = self.checkpoint_tracker.seqs@;
        let ghost j0 = *self;
        let all = tx.staged_blocks.listed();
        let n: usize = all.len();
        let ghost order = all@;
        assert(self.checkpoint_tracker.seqs@ =~= track(
            t0,
            order.take(0).to_set(),
            dev.dirty(),
            seq,
        ));
        while i < n
            invariant
                dev.wf(),
                i <= n,
                n == order.len(),
                order == all@,
                self.same_region(&j0),
                self@ == (JournalView { tracker: self.checkpoint_tracker.seqs@, ..j0@ }),
                self.checkpoint_tracker.seqs@ == track(
                    t0,
                    order.take(i as int).to_set(),
                    dev.dirty(),
                    seq,
                ),
            decreases n - i,
        {
            let k: u64 = all[i];
            if dev.is_dirty(k) {
                self.checkpoint_tracker.seqs.insert(k, seq);
            }
            proof {
                let a = order.take(i as int);
                let b = order.take(i + 1);
                assert(b =~= a.push(k));
                assert forall|x: u64| b.to_set().contains(x) <==> (a.to_set().contains(x) || x
                    == k) by {
                    if b.to_set().contains(x) {
                        let q = choose|q: int| 0 <= q < b.len() && b[q] == x;
                        if q < a.len() {
                            assert(a[q] == x);
                        }
                    }
                    if a.to_set().contains(x) {
                        let q = choose|q: int| 0 <= q < a.len() && a[q] == x;
                        assert(b[q] == x);
                    }
                    assert(b[i as int] == k);
                }
                assert(self.checkpoint_tracker.seqs@ =~= track(
                    t0,
                    b.to_set(),
                    dev.dirty(),
                    seq,
                ));
            }
            i = i + 1;
        }
        assert(order.take(n as int) =~= order);
        self.seal_if_full();
    }
}

/// The state of a journal that has just been opened.
pub open spec fn new_journal(head_seq: u64, tail_seq: u64, head_block: u64) -> JournalView {
    JournalView {
        head_seq,
        tail_seq,
        head_block,
        tail_block: head_block,
        active: fresh_txn(head_seq, head_seq),
        sealed: Seq::empty(),
        committed_pending: Seq::empty(),
        committed_seq: (if head_seq == 0 {
            0
        } else {
            head_seq - 1
        }) as u64,
        tracker: Map::empty(),
        paused: false,
        tx_ids: head_seq,
    }
}

} // verus!
