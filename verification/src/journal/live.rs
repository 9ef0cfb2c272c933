//! What holds of a journal and its device from one operation to the next: the ring holds the
//! committed transactions that are still needed, in their order, and the journal superblock on
//! the medium says where they begin.
use vstd::prelude::*;
use crate::block_device;
use crate::error::Error;
use crate::journal;
use crate::journal::layout;
use crate::journal::layout::{KIND_COMMIT, KIND_DESCRIPTOR, KIND_REVOKE};
use crate::journal::recovery;
use crate::journal::recovery::logged;
use crate::journal::replay;
use crate::journal::replay::TxRec;
use crate::journal::ring;
use crate::journal::ring::{Region, RingState, CHECKPOINT_ATTEMPTS};
use crate::journal::{JournalView, TxnView};
use crate::sorted;

verus! {

/// Whether a transaction can be committed when its turn comes: it has the sequence number `seq`
/// and carries something.
pub open spec fn waits(t: TxnView, seq: int) -> bool {
    t.seq == seq && !t.empty() && t.blocks.finite() && t.revokes.finite()
}

/// Whether the transactions not yet committed follow the last committed one, one number after
/// the other, once `gap` more have been committed.
pub open spec fn in_step(j: JournalView, gap: int) -> bool {
    &&& j.committed_seq + 1 + gap + j.sealed.len() == j.head_seq
    &&& j.active.seq == j.head_seq
    &&& j.active.blocks.finite()
    &&& j.active.revokes.finite()
    &&& forall|i: int|
        0 <= i < j.sealed.len() ==> waits(#[trigger] j.sealed[i], j.committed_seq + 1 + gap + i)
}

/// Whether the committed transactions that wait to be checkpointed are those of `txs`, and the
/// cursors of the ring agree with them.
pub open spec fn accounts(j: JournalView, txs: Seq<TxRec>) -> bool {
    &&& j.tail_seq + txs.len() == j.committed_seq + 1
    &&& j.tail_block + replay::total_len(txs) == j.head_block
    &&& j.committed_pending.len() == txs.len()
    &&& forall|i: int|
        0 <= i < txs.len() ==> (#[trigger] j.committed_pending[i]).0 == j.tail_seq + i
            && j.committed_pending[i].1 == txs[i].len && txs[i].len > 0
}

/// Whether the journal superblock on the medium records where the live part of the ring begins.
pub open spec fn recorded(b: Seq<u8>, r: Region, j: JournalView) -> bool {
    let q = layout::dec_jsb(b);
    q.tail_seq == j.tail_seq && q.tail_block == j.tail_block && q.block_count == r.count
}

/// Whether no page of the journal region is dirty in the cache.
pub open spec fn region_clean(dirty: Set<u64>, r: Region) -> bool {
    forall|k: u64| #[trigger] dirty.contains(k) ==> !(r.start <= k < r.start + r.count)
}

/// What holds of a journal and its device between operations, with `txs` in the ring.
pub open spec fn live(s: RingState, r: Region, txs: Seq<TxRec>) -> bool {
    held(s, r, txs, 0)
}

/// The same while `gap` transactions are being committed.
pub open spec fn held(s: RingState, r: Region, txs: Seq<TxRec>, gap: int) -> bool {
    &&& r.fits(s.home.len() as int)
    &&& s.pages.len() == s.home.len()
    &&& s.pages.len() <= u64::MAX
    &&& in_step(s.j, gap)
    &&& accounts(s.j, txs)
    &&& replay::total_len(txs) <= r.ring()
    &&& logged(s.home, r, s.j.tail_seq, s.j.tail_block as int, r.ring(), txs)
    &&& recorded(s.home[r.start], r, s.j)
    &&& region_clean(s.dirty, r)
}

proof fn lemma_seq(seq: u64, n: nat)
    requires
        seq + n <= u64::MAX,
    ensures
        replay::next_seq(seq, n) == seq + n,
    decreases n,
{
    if n > 0 {
        lemma_seq(seq, (n - 1) as nat);
    }
}

proof fn lemma_positive(txs: Seq<TxRec>)
    requires
        forall|i: int| 0 <= i < txs.len() ==> (#[trigger] txs[i]).len > 0,
    ensures
        replay::total_len(txs) >= 0,
    decreases txs.len(),
{
    if txs.len() > 0 {
        assert forall|i: int| 0 <= i < txs.drop_last().len() implies (
        #[trigger] txs.drop_last()[i]).len > 0 by {
            assert(txs[i].len > 0);
        }
        lemma_positive(txs.drop_last());
        assert(txs[txs.len() - 1].len > 0);
    }
}

proof fn lemma_lens(j: JournalView, txs: Seq<TxRec>)
    requires
        accounts(j, txs),
    ensures
        forall|i: int| 0 <= i < txs.len() ==> (#[trigger] txs[i]).len > 0,
        replay::total_len(txs) >= 0,
{
    assert forall|i: int| 0 <= i < txs.len() implies (#[trigger] txs[i]).len > 0 by {
        assert(j.committed_pending[i].1 == txs[i].len);
    }
    lemma_positive(txs);
}

/// A log stays while its blocks do, and fits more room.
proof fn lemma_log_stays(
    a: block_device::Pages,
    b: block_device::Pages,
    r: Region,
    seq: u64,
    pos: int,
    room: int,
    more: int,
    txs: Seq<TxRec>,
)
    requires
        logged(a, r, seq, pos, room, txs),
        forall|i: int| 0 <= i < txs.len() ==> (#[trigger] txs[i]).len > 0,
        forall|k: int|
            pos <= k < pos + replay::total_len(txs) ==> #[trigger] replay::at(b, r, k)
                == replay::at(a, r, k),
        room <= more,
    ensures
        logged(b, r, seq, pos, more, txs),
    decreases txs.len(),
{
    if txs.len() > 0 {
        let rest = txs.skip(1);
        recovery::lemma_total_len(txs);
        assert forall|i: int| 0 <= i < rest.len() implies (#[trigger] rest[i]).len > 0 by {
            assert(rest[i] == txs[i + 1]);
        }
        lemma_positive(rest);
        recovery::lemma_scan_local(a, b, r, seq, pos, room, txs[0]);
        assert(replay::scan_tx(b, r, seq, pos, more) == Some(txs[0])) by {
            reveal(replay::scan_tx);
        }
        lemma_log_stays(
            a,
            b,
            r,
            journal::wrap_add(seq, 1),
            pos + txs[0].len,
            room - txs[0].len,
            more - txs[0].len,
            rest,
        );
    }
}

/// A journal that was just opened is live, with nothing in the ring.
pub proof fn new_journal_is_live(s: RingState, r: Region, seq: u64, pos: u64)
    requires
        s.j == journal::new_journal(seq, seq, pos),
        seq > 0,
        r.fits(s.home.len() as int),
        s.pages.len() == s.home.len(),
        s.pages.len() <= u64::MAX,
        recorded(s.home[r.start], r, s.j),
        region_clean(s.dirty, r),
    ensures
        live(s, r, Seq::empty()),
{
}

/// Merging a transaction keeps the journal live, while there are sequence numbers left.
pub proof fn merge_keeps_live(
    s: RingState,
    r: Region,
    txs: Seq<TxRec>,
    limit: int,
    blocks: Set<u64>,
    revokes: Set<u64>,
)
    requires
        live(s, r, txs),
        s.j.head_seq < u64::MAX,
        blocks.finite(),
        revokes.finite(),
    ensures
        live(
            RingState { j: journal::merge(s.j, limit, blocks, revokes, s.dirty), ..s },
            r,
            txs,
        ),
{
    let j = journal::merge(s.j, limit, blocks, revokes, s.dirty);
    if j.sealed.len() > s.j.sealed.len() {
        assert forall|i: int| 0 <= i < j.sealed.len() implies waits(
            #[trigger] j.sealed[i],
            j.committed_seq + 1 + i,
        ) by {
            if i < s.j.sealed.len() {
                assert(j.sealed[i] == s.j.sealed[i]);
            }
        }
    } else {
        assert forall|i: int| 0 <= i < j.sealed.len() implies waits(
            #[trigger] j.sealed[i],
            j.committed_seq + 1 + i,
        ) by {
            assert(j.sealed[i] == s.j.sealed[i]);
        }
    }
}

/// Sealing the active transaction keeps the journal live.
pub proof fn seal_keeps_live(s: RingState, r: Region, txs: Seq<TxRec>)
    requires
        live(s, r, txs),
        s.j.head_seq < u64::MAX,
    ensures
        live(RingState { j: journal::seal(s.j), ..s }, r, txs),
{
    let j = journal::seal(s.j);
    assert forall|i: int| 0 <= i < j.sealed.len() implies waits(
        #[trigger] j.sealed[i],
        j.committed_seq + 1 + i,
    ) by {
        if i < s.j.sealed.len() {
            assert(j.sealed[i] == s.j.sealed[i]);
        }
    }
}

proof fn lemma_page_in_region(r: Region, n: int, pos: int)
    requires
        r.fits(n),
        0 <= pos,
    ensures
        r.start < r.page(pos) < r.start + r.count,
        0 <= r.page(pos) < n,
{
    vstd::arithmetic::div_mod::lemma_mod_bound(pos, r.ring());
}

/// Writing committed pages home keeps the journal live: it touches no page of the ring.
pub proof fn flush_keeps_live(s: RingState, r: Region, txs: Seq<TxRec>, gap: int)
    requires
        held(s, r, txs, gap),
    ensures
        held(ring::flushed(s), r, txs, gap),
{
    let f = ring::flushed(s);
    lemma_lens(s.j, txs);
    assert forall|k: int|
        s.j.tail_block <= k < s.j.tail_block + replay::total_len(txs) implies #[trigger] replay::at(
        f.home,
        r,
        k,
    ) == replay::at(s.home, r, k) by {
        lemma_page_in_region(r, s.home.len() as int, k);
        assert(!s.dirty.contains(r.page(k) as u64));
    }
    lemma_log_stays(
        s.home,
        f.home,
        r,
        s.j.tail_seq,
        s.j.tail_block as int,
        r.ring(),
        r.ring(),
        txs,
    );
    assert(!s.dirty.contains(r.start as u64));
    assert(f.home[r.start] == s.home[r.start]);
    assert(region_clean(f.dirty, r));
}

/// How many of `txs` retiring takes away: those whose sequence number lies below the bound.
proof fn lemma_retired(
    j: JournalView,
    bound: u64,
    r: Region,
    home: block_device::Pages,
    txs: Seq<TxRec>,
    gap: int,
) -> (left: Seq<TxRec>)
    requires
        in_step(j, gap),
        accounts(j, txs),
        replay::total_len(txs) <= r.ring(),
        logged(home, r, j.tail_seq, j.tail_block as int, r.ring(), txs),
    ensures
        in_step(ring::retired(j, bound), gap),
        accounts(ring::retired(j, bound), left),
        replay::total_len(left) <= r.ring(),
        logged(
            home,
            r,
            ring::retired(j, bound).tail_seq,
            ring::retired(j, bound).tail_block as int,
            r.ring(),
            left,
        ),
        ring::retired(j, bound) == (JournalView {
            committed_pending: ring::retired(j, bound).committed_pending,
            tail_block: ring::retired(j, bound).tail_block,
            tail_seq: ring::retired(j, bound).tail_seq,
            ..j
        }),
        ring::retired(j, bound).committed_pending.len() == j.committed_pending.len()
            ==> ring::retired(j, bound) == j,
        ring::retired(j, bound).committed_pending.len() <= j.committed_pending.len(),
    decreases txs.len(),
{
    if j.committed_pending.len() == 0 || j.committed_pending[0].0 >= bound {
        txs
    } else {
        let (seq, blocks) = j.committed_pending[0];
        let k = JournalView {
            committed_pending: j.committed_pending.skip(1),
            tail_block: journal::wrap_add(j.tail_block, blocks),
            tail_seq: journal::wrap_add(seq, 1),
            ..j
        };
        let rest = txs.skip(1);
        lemma_lens(j, txs);
        recovery::lemma_total_len(txs);
        assert(seq == j.tail_seq + 0 && blocks == txs[0].len);
        assert forall|i: int| 0 <= i < rest.len() implies (#[trigger] rest[i]).len > 0 by {
            assert(rest[i] == txs[i + 1]);
        }
        lemma_positive(rest);
        assert(accounts(k, rest)) by {
            assert forall|i: int| 0 <= i < rest.len() implies (
            #[trigger] k.committed_pending[i]).0 == k.tail_seq + i && k.committed_pending[i].1
                == rest[i].len && rest[i].len > 0 by {
                assert(k.committed_pending[i] == j.committed_pending[i + 1]);
            }
        }
        lemma_log_stays(
            home,
            home,
            r,
            k.tail_seq,
            k.tail_block as int,
            r.ring() - txs[0].len,
            r.ring(),
            rest,
        );
        assert forall|i: int| 0 <= i < k.sealed.len() implies waits(
            #[trigger] k.sealed[i],
            k.committed_seq + 1 + gap + i,
        ) by {
            assert(waits(j.sealed[i], j.committed_seq + 1 + gap + i));
        }
        lemma_retired(k, bound, r, home, rest, gap)
    }
}

/// Rewriting the journal superblock keeps what the ring holds, and records the tail.
proof fn lemma_jsb(s: RingState, r: Region, txs: Seq<TxRec>, gap: int)
    requires
        r.fits(s.home.len() as int),
        s.pages.len() == s.home.len(),
        s.pages.len() <= u64::MAX,
        in_step(s.j, gap),
        accounts(s.j, txs),
        replay::total_len(txs) <= r.ring(),
        logged(s.home, r, s.j.tail_seq, s.j.tail_block as int, r.ring(), txs),
        region_clean(s.dirty, r),
    ensures
        held(ring::put_jsb(s, r), r, txs, gap),
{
    let w = ring::put_jsb(s, r);
    let q = layout::make_jsb(
        r.count,
        s.j.tail_seq,
        s.j.head_seq,
        s.j.tail_block,
        s.j.head_block,
    );
    layout::jsb_round_trip(q);
    lemma_lens(s.j, txs);
    assert forall|k: int|
        s.j.tail_block <= k < s.j.tail_block + replay::total_len(txs) implies #[trigger] replay::at(
        w.home,
        r,
        k,
    ) == replay::at(s.home, r, k) by {
        lemma_page_in_region(r, s.home.len() as int, k);
    }
    lemma_log_stays(
        s.home,
        w.home,
        r,
        s.j.tail_seq,
        s.j.tail_block as int,
        r.ring(),
        r.ring(),
        txs,
    );
    assert(in_step(w.j, gap)) by {
        assert(w.j.sealed == s.j.sealed);
    }
    assert(region_clean(w.dirty, r)) by {
        assert forall|k: u64| #[trigger] w.dirty.contains(k) implies !(r.start <= k < r.start
            + r.count) by {
            assert(s.dirty.contains(k));
        }
    }
}

/// Advancing the tail keeps the journal live, with what was retired gone from the front.
pub proof fn advance_keeps_live(s: RingState, r: Region, txs: Seq<TxRec>) -> (left: Seq<TxRec>)
    requires
        live(s, r, txs),
    ensures
        live(ring::advanced(s, r), r, left),
{
    lemma_advance(s, r, txs, 0)
}

/// Advancing the tail, unless it goes past a transaction that is being committed.
proof fn lemma_advance(s: RingState, r: Region, txs: Seq<TxRec>, gap: int) -> (left: Seq<TxRec>)
    requires
        held(s, r, txs, gap),
        gap >= 0,
    ensures
        ({
            let z = ring::advanced(s, r);
            &&& z.j.tail_seq <= z.j.committed_seq + 1 ==> held(z, r, left, gap)
            &&& z.j.tail_seq > z.j.committed_seq + 1 ==> overtaken(z.j)
            &&& gap == 0 ==> held(z, r, left, gap)
            &&& z.j.sealed == s.j.sealed
            &&& z.j.committed_seq == s.j.committed_seq
            &&& z.pages.len() == s.pages.len()
        }),
{
    let p = ring::pruned(s.j, s.dirty);
    assert(in_step(p, gap)) by {
        assert(p.sealed == s.j.sealed);
    }
    assert(accounts(p, txs)) by {
        assert(p.committed_pending == s.j.committed_pending);
    }
    let left = lemma_retired(p, ring::lowest(p), r, s.home, txs, gap);
    let q = ring::retired(p, ring::lowest(p));
    let c = ring::caught_up(q);
    if c != q {
        assert(left.len() == 0);
        assert(replay::total_len(left) == 0);
        assert(q.tail_seq == q.committed_seq + 1);
        if gap == 0 {
            assert(c =~= q);
        }
    } else {
        let t = RingState { j: c, ..s };
        if q.committed_pending.len() != p.committed_pending.len() {
            lemma_jsb(t, r, left, gap);
        } else {
            assert(q == p);
            assert(txs.len() == left.len());
        }
    }
    left
}

/// Whether the tail has gone past the one transaction that is being committed.
pub open spec fn overtaken(j: JournalView) -> bool {
    &&& j.committed_pending.len() == 0
    &&& j.sealed.len() == 0
    &&& j.tail_seq == j.head_seq
    &&& j.tail_seq > j.committed_seq + 1
}

proof fn lemma_overtaken(s: RingState, r: Region, n: int, attempts: int)
    requires
        overtaken(s.j),
    ensures
        overtaken(ring::made_room(s, r, n, attempts).0.j),
    decreases attempts,
{
    if attempts > 1 && !ring::has_room(s.j, r, n) {
        lemma_overtaken(ring::advanced(ring::flushed(s), r), r, n, attempts - 1);
    }
}

/// Making room keeps the journal live, unless the tail goes past the transaction that needs it.
proof fn lemma_room(
    s: RingState,
    r: Region,
    n: int,
    attempts: int,
    txs: Seq<TxRec>,
    gap: int,
) -> (left: Seq<TxRec>)
    requires
        held(s, r, txs, gap),
        gap >= 0,
    ensures
        ({
            let (z, ok) = ring::made_room(s, r, n, attempts);
            z.j.tail_seq <= z.j.committed_seq + 1 ==> {
                &&& held(z, r, left, gap)
                &&& z.j.sealed == s.j.sealed
                &&& z.j.committed_seq == s.j.committed_seq
                &&& z.pages.len() == s.pages.len()
                &&& ok ==> ring::has_room(z.j, r, n)
            }
        }),
    decreases attempts,
{
    if attempts <= 1 || ring::has_room(s.j, r, n) {
        txs
    } else {
        flush_keeps_live(s, r, txs, gap);
        let left = lemma_advance(ring::flushed(s), r, txs, gap);
        let z = ring::advanced(ring::flushed(s), r);
        if z.j.tail_seq > z.j.committed_seq + 1 {
            lemma_overtaken(z, r, n, attempts - 1);
            left
        } else {
            lemma_room(z, r, n, attempts - 1, left, gap)
        }
    }
}

proof fn lemma_put_ring_dirty(s: RingState, r: Region, pos: int, blocks: Seq<Seq<u8>>)
    ensures
        ring::put_ring(s, r, pos, blocks).dirty.subset_of(s.dirty),
    decreases blocks.len(),
{
    if blocks.len() > 0 {
        lemma_put_ring_dirty(s, r, pos, blocks.drop_last());
    }
}

/// Storing a transaction adds it to those in the ring.
#[verifier::spinoff_prover]
#[verifier::rlimit(60)]
proof fn lemma_stores(s: RingState, r: Region, t: TxnView, txs: Seq<TxRec>)
    requires
        held(s, r, txs, 1),
        ring::storable(s.pages, t),
        ring::has_room(s.j, r, ring::needed(t)),
        waits(t, s.j.committed_seq + 1),
    ensures
        live(ring::stored(s, r, t), r, txs.push(recovery::rec_of(s.pages, t))),
        ring::stored(s, r, t).j.sealed == s.j.sealed,
        ring::stored(s, r, t).j.committed_seq == t.seq,
{
    let z = ring::stored(s, r, t);
    let n = ring::needed(t);
    let rec = recovery::rec_of(s.pages, t);
    let all = txs.push(rec);
    let blocks = ring::tx_blocks(s.pages, t);
    let head = s.j.head_block as int;
    lemma_lens(s.j, txs);
    lemma_seq(s.j.tail_seq, txs.len());
    recovery::commit_extends_log(s, r, t, s.j.tail_seq, s.j.tail_block as int, txs);
    recovery::lemma_stored(s, r, t);
    ring::whole_ring_is_written(r, s.pages.len() as int, head, n);
    ring::lemma_put_ring_keeps(s, r, head, blocks);
    lemma_put_ring_dirty(s, r, head, blocks);
    let w = ring::put_ring(s, r, head, blocks);
    assert(all.drop_last() =~= txs);
    assert(all.last() == rec);
    assert(accounts(z.j, all)) by {
        assert forall|i: int| 0 <= i < all.len() implies (#[trigger] z.j.committed_pending[i]).0
            == z.j.tail_seq + i && z.j.committed_pending[i].1 == all[i].len && all[i].len > 0 by {
            if i < txs.len() {
                assert(z.j.committed_pending[i] == s.j.committed_pending[i]);
                assert(all[i] == txs[i]);
            }
        }
    }
    assert(in_step(z.j, 0)) by {
        assert(z.j.sealed == s.j.sealed);
        assert forall|i: int| 0 <= i < z.j.sealed.len() implies waits(
            #[trigger] z.j.sealed[i],
            z.j.committed_seq + 1 + i,
        ) by {
            assert(waits(s.j.sealed[i], s.j.committed_seq + 1 + 1 + i));
        }
    }
    layout::jsb_round_trip(
        layout::make_jsb(r.count, z.j.tail_seq, z.j.head_seq, z.j.tail_block, z.j.head_block),
    );
    assert(recorded(z.home[r.start], r, z.j));
    assert(region_clean(z.dirty, r)) by {
        assert forall|k: u64| #[trigger] z.dirty.contains(k) implies !(r.start <= k < r.start
            + r.count) by {
            assert(w.dirty.contains(k));
            assert(s.dirty.contains(k));
        }
    }
}

/// The state in which the oldest sealed transaction is taken out to be committed.
pub open spec fn taken_out(s: RingState) -> RingState {
    RingState { j: JournalView { sealed: s.j.sealed.skip(1), ..s.j }, ..s }
}

/// Whether making room for the oldest sealed transaction moves the tail past it: that happens
/// where it is the last one and the ring had to be emptied for it.
pub open spec fn outrun(s: RingState, r: Region) -> bool {
    let z = ring::made_room(
        taken_out(s),
        r,
        ring::needed(s.j.sealed[0]),
        CHECKPOINT_ATTEMPTS as int,
    ).0;
    z.j.tail_seq > z.j.committed_seq + 1
}

/// Committing the oldest sealed transaction keeps the journal live: the transaction joins those
/// in the ring, or stays where it was. This holds unless making room moves the tail past it.
#[verifier::spinoff_prover]
#[verifier::rlimit(60)]
pub proof fn commit_keeps_live(s: RingState, r: Region, txs: Seq<TxRec>) -> (left: Seq<TxRec>)
    requires
        live(s, r, txs),
        s.j.sealed.len() > 0,
        !outrun(s, r),
    ensures
        ({
            let (z, res) = ring::commit_first(s, r);
            &&& live(z, r, left)
            &&& res is Ok ==> z.j.sealed == s.j.sealed.skip(1) && z.j.committed_seq
                == s.j.sealed[0].seq
            &&& res is Err ==> z.j.sealed == s.j.sealed && z.j.committed_seq == s.j.committed_seq
        }),
{
    reveal(ring::commit_first);
    let t = s.j.sealed[0];
    assert(waits(t, s.j.committed_seq + 1 + 0));
    let n = ring::needed(t);
    if !ring::storable(s.pages, t) {
        txs
    } else {
        let popped = taken_out(s);
        assert(in_step(popped.j, 1)) by {
            assert forall|i: int| 0 <= i < popped.j.sealed.len() implies waits(
                #[trigger] popped.j.sealed[i],
                popped.j.committed_seq + 1 + 1 + i,
            ) by {
                assert(waits(s.j.sealed[i + 1], s.j.committed_seq + 1 + (i + 1)));
            }
        }
        let (m, ok) = ring::made_room(popped, r, n, CHECKPOINT_ATTEMPTS as int);
        let left = lemma_room(popped, r, n, CHECKPOINT_ATTEMPTS as int, txs, 1);
        if !ok {
            let z = ring::commit_first(s, r).0;
            assert(z.j.sealed =~= s.j.sealed);
            assert(in_step(z.j, 0)) by {
                assert forall|i: int| 0 <= i < z.j.sealed.len() implies waits(
                    #[trigger] z.j.sealed[i],
                    z.j.committed_seq + 1 + i,
                ) by {
                    assert(waits(s.j.sealed[i], s.j.committed_seq + 1 + i));
                }
            }
            left
        } else {
            ring::whole_ring_is_written(
                r,
                m.pages.len() as int,
                m.j.head_block as int,
                n,
            );
            lemma_stores(m, r, t, left);
            left.push(recovery::rec_of(m.pages, t))
        }
    }
}

/// Whether on the way of committing everything sealed the tail moves past a transaction that is
/// being committed.
pub open spec fn outruns(s: RingState, r: Region, fuel: nat) -> bool
    decreases fuel,
{
    if s.j.sealed.len() == 0 || fuel == 0 {
        false
    } else {
        outrun(s, r) || (ring::commit_first(s, r).1 is Ok && outruns(
            ring::commit_first(s, r).0,
            r,
            (fuel - 1) as nat,
        ))
    }
}

/// Committing everything sealed keeps the journal live; if it succeeds, nothing is left to commit
/// but the active transaction.
pub proof fn drain_keeps_live(s: RingState, r: Region, txs: Seq<TxRec>) -> (left: Seq<TxRec>)
    requires
        live(s, r, txs),
        !outruns(s, r, s.j.sealed.len()),
    ensures
        ({
            let (z, res) = ring::drained(s, r, s.j.sealed.len());
            &&& live(z, r, left)
            &&& z.j.head_seq == s.j.head_seq
            &&& res is Ok ==> z.j.sealed.len() == 0 && z.j.committed_seq + 1 == s.j.head_seq
        }),
    decreases s.j.sealed.len(),
{
    if s.j.sealed.len() == 0 {
        txs
    } else {
        let left = commit_keeps_live(s, r, txs);
        let (t, res) = ring::commit_first(s, r);
        assert(t.j.head_seq == s.j.head_seq);
        if res is Err {
            left
        } else {
            drain_keeps_live(t, r, left)
        }
    }
}

/// Sealing and committing keeps the journal live, and if it succeeds, everything that was pending
/// is committed.
pub proof fn everything_is_committed(s: RingState, r: Region, txs: Seq<TxRec>) -> (left: Seq<
    TxRec,
>)
    requires
        live(s, r, txs),
        s.j.head_seq < u64::MAX,
        ({
            let sealed = RingState { j: journal::seal(s.j), ..s };
            !outruns(sealed, r, sealed.j.sealed.len())
        }),
    ensures
        ({
            let (z, res) = ring::committed(s, r);
            &&& live(z, r, left)
            &&& res is Ok ==> z.j.sealed.len() == 0 && z.j.active.empty() && (
            ring::newest_pending(s.j) matches Some(q) ==> z.j.committed_seq == q)
        }),
{
    seal_keeps_live(s, r, txs);
    let sealed = RingState { j: journal::seal(s.j), ..s };
    lemma_drain_active(sealed, r, sealed.j.sealed.len());
    drain_keeps_live(sealed, r, txs)
}

proof fn lemma_drain_active(s: RingState, r: Region, fuel: nat)
    ensures
        ring::drained(s, r, fuel).0.j.active == s.j.active,
    decreases fuel,
{
    if s.j.sealed.len() > 0 && fuel > 0 {
        reveal(ring::commit_first);
        let t = s.j.sealed[0];
        lemma_room_active(taken_out(s), r, ring::needed(t), CHECKPOINT_ATTEMPTS as int);
        let m = ring::made_room(taken_out(s), r, ring::needed(t), CHECKPOINT_ATTEMPTS as int).0;
        let blocks = ring::tx_blocks(m.pages, t);
        lemma_put_ring_active(m, r, m.j.head_block as int, blocks);
        lemma_put_ring_active(
            m,
            r,
            m.j.head_block as int,
            blocks.take(
                ring::landing(r, m.pages.len() as int, m.j.head_block as int, ring::needed(t)),
            ),
        );
        lemma_drain_active(ring::commit_first(s, r).0, r, (fuel - 1) as nat);
    }
}

proof fn lemma_put_ring_active(s: RingState, r: Region, pos: int, blocks: Seq<Seq<u8>>)
    ensures
        ring::put_ring(s, r, pos, blocks).j.active == s.j.active,
    decreases blocks.len(),
{
    if blocks.len() > 0 {
        lemma_put_ring_active(s, r, pos, blocks.drop_last());
    }
}

proof fn lemma_room_active(s: RingState, r: Region, n: int, attempts: int)
    ensures
        ring::made_room(s, r, n, attempts).0.j.active == s.j.active,
    decreases attempts,
{
    if attempts > 1 && !ring::has_room(s.j, r, n) {
        let f = ring::flushed(s);
        let p = ring::pruned(f.j, f.dirty);
        ring::lemma_retired_sealed(p, ring::lowest(p));
        lemma_room_active(ring::advanced(f, r), r, n, attempts - 1);
    }
}

/// After a crash the medium's own journal superblock leads to the transactions that are live, in
/// their order, before anything else.
pub proof fn live_log_is_found(s: RingState, r: Region, txs: Seq<TxRec>)
    requires
        live(s, r, txs),
    ensures
        ({
            let q = layout::dec_jsb(s.home[r.start]);
            let found = replay::scan(s.home, r, q.tail_seq, q.tail_block as int, r.ring());
            found.len() >= txs.len() && found.take(txs.len() as int) == txs
        }),
{
    recovery::log_is_scanned(
        s.home,
        r,
        s.j.tail_seq,
        s.j.tail_block as int,
        r.ring(),
        txs,
    );
    let q = layout::dec_jsb(s.home[r.start]);
    let found = replay::scan(s.home, r, q.tail_seq, q.tail_block as int, r.ring());
    assert(found.take(txs.len() as int) =~= txs);
}

// ---- Commits that are cut off ------------------------------------------------------------

/// Whether `len` ring positions from `pos` on hold no block of transaction `seq`.
pub open spec fn unused(
    home: block_device::Pages,
    r: Region,
    pos: int,
    len: int,
    seq: u64,
) -> bool {
    forall|p: int|
        pos <= p < pos + len ==> !layout::is_ring_block(
            #[trigger] replay::at(home, r, p),
            KIND_DESCRIPTOR,
            seq,
        ) && !layout::is_ring_block(replay::at(home, r, p), KIND_REVOKE, seq)
            && !layout::is_ring_block(replay::at(home, r, p), KIND_COMMIT, seq)
}

/// A commit that is cut off before its commit block is written is not replayed, and the
/// transactions before it are found unchanged.
#[verifier::spinoff_prover]
#[verifier::rlimit(60)]
pub proof fn cut_commit_is_not_replayed(
    s: RingState,
    r: Region,
    txs: Seq<TxRec>,
    t: TxnView,
    k: int,
)
    requires
        live(s, r, txs),
        ring::storable(s.pages, t),
        ring::has_room(s.j, r, ring::needed(t)),
        waits(t, s.j.committed_seq + 1),
        0 <= k < ring::needed(t),
        unused(s.home, r, s.j.head_block as int, ring::needed(t), t.seq),
    ensures
        ({
            let head = s.j.head_block as int;
            let home = ring::put_ring(s, r, head, ring::tx_blocks(s.pages, t).take(k)).home;
            &&& recorded(home[r.start], r, s.j)
            &&& replay::scan(home, r, s.j.tail_seq, s.j.tail_block as int, r.ring()) == txs
        }),
{
    let head = s.j.head_block as int;
    let blocks = ring::tx_blocks(s.pages, t);
    let home = ring::put_ring(s, r, head, blocks.take(k)).home;
    sorted::in_order_lists(t.blocks);
    sorted::in_order_lists(t.revokes);
    let n = t.blocks.len() as int;
    let total = replay::total_len(txs);
    lemma_lens(s.j, txs);
    lemma_seq(s.j.tail_seq, txs.len());
    assert(blocks.len() == ring::needed(t));
    recovery::lemma_put_ring(s, r, head, blocks.take(k));
    assert forall|i: int| 0 <= i < k implies #[trigger] replay::at(home, r, head + i)
        == blocks[i] by {
        assert(home[r.page(head + i)] == blocks.take(k)[i]);
    }
    assert forall|p: int|
        (s.j.tail_block <= p < head || head + k <= p < head + blocks.len()) implies
        #[trigger] replay::at(home, r, p) == replay::at(s.home, r, p) by {
        lemma_page_in_region(r, s.home.len() as int, p);
        assert forall|i: int| 0 <= i < k implies r.page(p) != #[trigger] r.page(head + i) by {
            if p < head + i {
                recovery::lemma_pages_differ(r, p, head + i);
            } else {
                recovery::lemma_pages_differ(r, head + i, p);
            }
        }
    }
    assert(home[r.start] == s.home[r.start]) by {
        assert forall|i: int| 0 <= i < k implies r.start != #[trigger] r.page(head + i) by {
            lemma_page_in_region(r, s.home.len() as int, head + i);
        }
    }
    lemma_log_stays(
        s.home,
        home,
        r,
        s.j.tail_seq,
        s.j.tail_block as int,
        r.ring(),
        r.ring(),
        txs,
    );
    recovery::log_is_scanned(home, r, s.j.tail_seq, s.j.tail_block as int, r.ring(), txs);
    let room = r.ring() - total;
    assert(replay::scan_tx(home, r, t.seq, head, room) is None) by {
        reveal(replay::scan_tx);
        if k == 0 {
            assert(replay::at(home, r, head) == replay::at(s.home, r, head));
        } else {
            assert(replay::at(home, r, head + 0) == blocks[0]);
            layout::ring_block_round_trip(
                KIND_DESCRIPTOR,
                t.seq,
                t.tx_id,
                n as u32,
                ring::entries_of(s.pages, ring::tx_order(t)),
            );
            assert(layout::ring_word(replay::at(home, r, head)) == n);
            assert(head + 1 + n == head + (n + 1));
            if n + 1 < k {
                assert(replay::at(home, r, head + (n + 1)) == blocks[n + 1]);
                assert(blocks[n + 1] == ring::revoke_part(t)[0]);
                layout::ring_block_round_trip(
                    KIND_REVOKE,
                    t.seq,
                    t.tx_id,
                    t.revokes.len() as u32,
                    ring::revokes_of(sorted::in_order(t.revokes), t.seq),
                );
                assert(replay::at(home, r, head + (n + 2)) == replay::at(s.home, r, head + (n + 2)));
                assert(head + (n + 3) - 1 == head + (n + 2));
            } else {
                assert(replay::at(home, r, head + (n + 1)) == replay::at(s.home, r, head + (n + 1)));
                assert(head + (n + 2) - 1 == head + (n + 1));
            }
        }
    }
    assert(txs + Seq::<TxRec>::empty() =~= txs);
}

} // verus!
