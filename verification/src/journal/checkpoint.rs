//! What checkpointing promises: nothing reaches its home location before its transaction is in
//! the ring, no transaction leaves the ring before its blocks are at home, and once all are,
//! none stays.
use vstd::prelude::*;
use crate::journal;
use crate::journal::ring;
use crate::journal::ring::{Region, RingState};
use crate::journal::JournalView;

verus! {

/// A page whose transaction has not been committed stays what it was at its home location,
/// and is still awaited, and so is every page that a transaction carried while checkpoints
/// are paused; every other dirty page is at home.
pub proof fn commit_comes_before_home(s: RingState, k: u64)
    requires
        s.dirty.contains(k),
        k < s.pages.len(),
    ensures
        ({
            let z = ring::flushed(s);
            &&& s.j.tracker.contains_key(k) && (s.j.paused || s.j.tracker[k]
                > s.j.committed_seq) ==> {
                &&& z.home[k as int] == s.home[k as int]
                &&& z.dirty.contains(k)
                &&& z.j.tracker.contains_key(k) && z.j.tracker[k] == s.j.tracker[k]
            }
            &&& !(s.j.tracker.contains_key(k) && (s.j.paused || s.j.tracker[k]
                > s.j.committed_seq)) ==> {
                &&& z.home[k as int] == s.pages[k as int]
                &&& !z.dirty.contains(k)
                &&& !z.j.tracker.contains_key(k)
            }
        }),
{
    let due = s.dirty.filter(|k: u64| ring::flushable(s.j, k));
    assert(due.contains(k) == ring::flushable(s.j, k));
}

/// A map that holds anything holds a least value.
proof fn lemma_least(t: Map<u64, u64>, k: u64) -> (m: u64)
    requires
        t.contains_key(k),
    ensures
        ring::is_lowest(t, m),
    decreases t[k],
{
    if forall|x: u64| #[trigger] t.contains_key(x) ==> t[x] >= t[k] {
        t[k]
    } else {
        let x = choose|x: u64| #[trigger] t.contains_key(x) && t[x] < t[k];
        lemma_least(t, x)
    }
}

/// Retiring stops at the bound.
proof fn lemma_retired_keeps(j: JournalView, bound: u64, e: (u64, u64))
    requires
        j.committed_pending.contains(e),
        e.0 >= bound,
    ensures
        ring::retired(j, bound).committed_pending.contains(e),
    decreases j.committed_pending.len(),
{
    let list = j.committed_pending;
    if !(list.len() == 0 || list[0].0 >= bound) {
        let i = choose|i: int| 0 <= i < list.len() && list[i] == e;
        assert(i > 0);
        assert(list.skip(1)[i - 1] == e);
        let (seq, blocks) = list[0];
        lemma_retired_keeps(
            JournalView {
                committed_pending: list.skip(1),
                tail_block: journal::wrap_add(j.tail_block, blocks),
                tail_seq: journal::wrap_add(seq, 1),
                ..j
            },
            bound,
            e,
        );
    }
}

/// A transaction stays in the ring while a block of it, or of one before it, has not reached
/// its home location.
pub proof fn awaited_stays_in_the_ring(s: RingState, r: Region, e: (u64, u64), block: u64)
    requires
        s.j.committed_pending.contains(e),
        s.dirty.contains(block),
        s.j.tracker.contains_key(block),
        s.j.tracker[block] <= e.0,
    ensures
        ring::advanced(s, r).j.committed_pending.contains(e),
{
    let p = ring::pruned(s.j, s.dirty);
    assert(p.tracker.contains_key(block) && p.tracker[block] == s.j.tracker[block]);
    assert(p.tracker.dom().contains(block));
    let m = lemma_least(p.tracker, block);
    assert(ring::is_lowest(p.tracker, ring::lowest(p)));
    lemma_retired_keeps(p, ring::lowest(p), e);
}

/// While checkpoints are paused a committed transaction stays in the ring as long as a block
/// of it is dirty: writing back sends none of its blocks home, and advancing the tail leaves
/// it where it is.
pub proof fn paused_stays_in_the_ring(s: RingState, r: Region, e: (u64, u64), block: u64)
    requires
        s.j.paused,
        s.j.committed_pending.contains(e),
        s.dirty.contains(block),
        block < s.pages.len(),
        s.j.tracker.contains_key(block),
        s.j.tracker[block] <= e.0,
    ensures
        ring::flushed(s).home[block as int] == s.home[block as int],
        ring::advanced(ring::flushed(s), r).j.committed_pending.contains(e),
{
    commit_comes_before_home(s, block);
    awaited_stays_in_the_ring(ring::flushed(s), r, e, block);
}

/// Transactions that are all below the bound are all retired.
proof fn lemma_retired_all(j: JournalView, bound: u64)
    requires
        forall|i: int|
            0 <= i < j.committed_pending.len() ==> (#[trigger] j.committed_pending[i]).0 < bound,
    ensures
        ring::retired(j, bound).committed_pending.len() == 0,
        ring::retired(j, bound).sealed == j.sealed,
        ring::retired(j, bound).head_seq == j.head_seq,
    decreases j.committed_pending.len(),
{
    let list = j.committed_pending;
    if list.len() > 0 {
        let (seq, blocks) = list[0];
        assert(list[0].0 < bound);
        let next = JournalView {
            committed_pending: list.skip(1),
            tail_block: journal::wrap_add(j.tail_block, blocks),
            tail_seq: journal::wrap_add(seq, 1),
            ..j
        };
        assert forall|i: int| 0 <= i < list.skip(1).len() implies (#[trigger] list.skip(1)[i]).0
            < bound by {
            assert(list[i + 1].0 < bound);
        }
        lemma_retired_all(next, bound);
    }
}

/// Once every block that was awaited is at home, advancing the tail retires every committed
/// transaction, and with nothing sealed the ring is empty: the tail is at the head.
pub proof fn all_at_home_empties_the_ring(s: RingState, r: Region)
    requires
        forall|b: u64| #[trigger] s.j.tracker.contains_key(b) ==> !s.dirty.contains(b),
        s.j.committed_seq < u64::MAX,
        forall|i: int|
            0 <= i < s.j.committed_pending.len() ==> (#[trigger] s.j.committed_pending[i]).0
                <= s.j.committed_seq,
    ensures
        ring::advanced(s, r).j.committed_pending.len() == 0,
        ring::advanced(s, r).j.sealed == s.j.sealed,
        s.j.sealed.len() == 0 ==> ring::advanced(s, r).j.tail_seq >= s.j.head_seq,
{
    let p = ring::pruned(s.j, s.dirty);
    assert(p.tracker.dom() =~= Set::<u64>::empty()) by {
        assert forall|b: u64| !p.tracker.dom().contains(b) by {
            if p.tracker.dom().contains(b) {
                assert(s.j.tracker.contains_key(b));
            }
        }
    }
    lemma_retired_all(p, ring::lowest(p));
}

/// The active transaction stays below the limit whatever is merged into it, and one that is
/// sealed on that account fits an empty ring: the ring holds four times the limit, and what is
/// merged at once is no more than the limit.
pub proof fn sealed_fits_the_ring(
    j: JournalView,
    r: Region,
    blocks: Set<u64>,
    revokes: Set<u64>,
    dirty: Set<u64>,
)
    requires
        r.ring() >= 4,
        j.active.blocks.finite(),
        j.active.blocks.len() < journal::tx_limit(r.count),
        blocks.finite(),
        blocks.len() <= journal::tx_limit(r.count),
    ensures
        ({
            let z = journal::merge(j, journal::tx_limit(r.count), blocks, revokes, dirty);
            &&& z.active.blocks.len() < journal::tx_limit(r.count)
            &&& z.sealed.len() > j.sealed.len() ==> ring::needed(z.sealed.last()) <= r.ring()
        }),
{
    vstd::set_lib::lemma_len_union(j.active.blocks, blocks);
}

} // verus!
