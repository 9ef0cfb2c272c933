//! What the journal is for: a transaction that has been committed to the ring can be
//! recovered from the medium, whatever of it had reached its home location.
use vstd::prelude::*;
use crate::block_device;
use crate::block_device::PAGE_SIZE;
use crate::bytes;
use crate::journal;
use crate::journal::layout;
use crate::journal::layout::{KIND_COMMIT, KIND_DESCRIPTOR, KIND_REVOKE, MAX_RECORDS};
use crate::journal::replay;
use crate::journal::ring;
use crate::journal::TxnView;
use crate::sorted;

verus! {

/// What the ring holds of a transaction that was committed while the device's pages
/// were `pages`.
pub open spec fn rec_of(pages: block_device::Pages, t: TxnView) -> replay::TxRec {
    replay::TxRec {
        seq: t.seq,
        entries: ring::entries_of(pages, ring::tx_order(t)),
        data: ring::data_of(pages, ring::tx_order(t)),
        revokes: ring::revokes_of(sorted::in_order(t.revokes), t.seq),
        len: ring::needed(t),
    }
}

/// Different positions less than a ring apart lie on different pages.
pub proof fn lemma_pages_differ(r: ring::Region, a: int, b: int)
    requires
        r.ring() > 0,
        0 <= a < b < a + r.ring(),
    ensures
        r.page(a) != r.page(b),
{
    let n = r.ring();
    if a % n == b % n {
        vstd::arithmetic::div_mod::lemma_fundamental_div_mod(a, n);
        vstd::arithmetic::div_mod::lemma_fundamental_div_mod(b, n);
        let p = a / n;
        let q = b / n;
        assert(b - a == n * (q - p)) by (nonlinear_arith)
            requires
                a == n * p + a % n,
                b == n * q + b % n,
                a % n == b % n,
        ;
        assert(false) by (nonlinear_arith)
            requires
                b - a == n * (q - p),
                0 < b - a < n,
        ;
    }
}

/// Blocks written to the ring are found there, and nothing else changes.
#[verifier::spinoff_prover]
#[verifier::rlimit(40)]
pub proof fn lemma_put_ring(s: ring::RingState, r: ring::Region, pos: int, blocks: Seq<Seq<u8>>)
    requires
        r.fits(s.home.len() as int),
        0 <= pos,
        blocks.len() <= r.ring(),
    ensures
        ({
            let w = ring::put_ring(s, r, pos, blocks);
            &&& w.home.len() == s.home.len()
            &&& forall|i: int|
                0 <= i < blocks.len() ==> w.home[#[trigger] r.page(pos + i)] == blocks[i]
            &&& forall|k: int|
                0 <= k < s.home.len() && (forall|i: int|
                    0 <= i < blocks.len() ==> k != #[trigger] r.page(pos + i))
                    ==> #[trigger] w.home[k] == s.home[k]
        }),
    decreases blocks.len(),
{
    if blocks.len() > 0 {
        let p = blocks.drop_last();
        lemma_put_ring(s, r, pos, p);
        let u = ring::put_ring(s, r, pos, p);
        let w = ring::put_ring(s, r, pos, blocks);
        let last = r.page(pos + blocks.len() - 1);
        assert(0 <= last < s.home.len());
        assert forall|i: int| 0 <= i < blocks.len() implies w.home[#[trigger] r.page(pos + i)]
            == blocks[i] by {
            if i < p.len() {
                lemma_pages_differ(r, pos + i, pos + blocks.len() - 1);
                assert(0 <= r.page(pos + i) < s.home.len());
                assert(u.home[r.page(pos + i)] == p[i]);
            }
        }
        assert forall|k: int|
            0 <= k < s.home.len() && (forall|i: int|
                0 <= i < blocks.len() ==> k != #[trigger] r.page(pos + i)) implies #[trigger] w.home[k]
            == s.home[k] by {
            assert(k != last);
            assert forall|i: int| 0 <= i < p.len() implies k != #[trigger] r.page(pos + i) by {}
            assert(u.home[k] == s.home[k]);
        }
    }
}

/// What storing a transaction leaves on the medium.
#[verifier::spinoff_prover]
#[verifier::rlimit(40)]
pub proof fn lemma_stored(s: ring::RingState, r: ring::Region, t: TxnView)
    requires
        r.fits(s.home.len() as int),
        t.blocks.finite(),
        t.revokes.finite(),
        ring::needed(t) <= r.ring(),
    ensures
        ({
            let w = ring::stored(s, r, t);
            let pos = s.j.head_block as int;
            let blocks = ring::tx_blocks(s.pages, t);
            &&& blocks.len() == ring::needed(t)
            &&& w.home.len() == s.home.len()
            &&& forall|i: int|
                0 <= i < blocks.len() ==> #[trigger] replay::at(w.home, r, pos + i) == blocks[i]
            &&& forall|k: int|
                pos - r.ring() + blocks.len() <= k < pos && 0 <= k ==> #[trigger] replay::at(
                    w.home,
                    r,
                    k,
                ) == replay::at(s.home, r, k)
        }),
{
    sorted::in_order_lists(t.blocks);
    sorted::in_order_lists(t.revokes);
    let blocks = ring::tx_blocks(s.pages, t);
    assert(blocks.len() == ring::needed(t));
    let pos = s.j.head_block as int;
    lemma_put_ring(s, r, pos, blocks);
    let u = ring::put_ring(s, r, pos, blocks);
    let w = ring::stored(s, r, t);
    assert forall|i: int| 0 <= i < blocks.len() implies #[trigger] replay::at(w.home, r, pos + i)
        == blocks[i] by {
        assert(r.page(pos + i) != r.start);
        assert(0 <= r.page(pos + i) < s.home.len());
        assert(u.home[r.page(pos + i)] == blocks[i]);
    }
    assert forall|k: int|
        pos - r.ring() + blocks.len() <= k < pos && 0 <= k implies #[trigger] replay::at(
        w.home,
        r,
        k,
    ) == replay::at(s.home, r, k) by {
        assert forall|i: int| 0 <= i < blocks.len() implies r.page(k) != #[trigger] r.page(
            pos + i,
        ) by {
            lemma_pages_differ(r, k, pos + i);
        }
        assert(0 <= r.page(k) < s.home.len());
        assert(r.page(k) != r.start);
        assert(u.home[r.page(k)] == s.home[r.page(k)]);
    }
}

/// A transaction laid out in the ring is read back from there.
proof fn lemma_scan(
    home: block_device::Pages,
    r: ring::Region,
    pos: int,
    room: int,
    t: replay::TxRec,
    tx_id: u64,
)
    requires
        t.entries.len() == t.data.len() <= MAX_RECORDS,
        t.revokes.len() <= MAX_RECORDS,
        t.len == t.entries.len() + (if t.revokes.len() == 0 {
            2int
        } else {
            3
        }),
        t.len <= room,
        replay::at(home, r, pos) == layout::enc_ring_block(
            KIND_DESCRIPTOR,
            t.seq,
            tx_id,
            t.entries.len() as u32,
            t.entries,
        ),
        forall|i: int|
            0 <= i < t.data.len() ==> #[trigger] replay::at(home, r, pos + 1 + i) == t.data[i],
        t.revokes.len() > 0 ==> replay::at(home, r, pos + t.entries.len() + 1)
            == layout::enc_ring_block(
            KIND_REVOKE,
            t.seq,
            tx_id,
            t.revokes.len() as u32,
            t.revokes,
        ),
        replay::at(home, r, pos + t.len - 1) == layout::enc_ring_block(
            KIND_COMMIT,
            t.seq,
            tx_id,
            bytes::crc32(layout::concat(t.data)),
            Seq::empty(),
        ),
    ensures
        replay::scan_tx(home, r, t.seq, pos, room) == Some(t),
{
    reveal(replay::scan_tx);
    let n = t.entries.len() as int;
    let crc = bytes::crc32(layout::concat(t.data));
    layout::ring_block_round_trip(KIND_DESCRIPTOR, t.seq, tx_id, n as u32, t.entries);
    layout::ring_block_round_trip(KIND_COMMIT, t.seq, tx_id, crc, Seq::empty());
    assert(replay::run_at(home, r, pos + 1, n) =~= t.data);
    assert(pos + 1 + n == pos + n + 1);
    if t.revokes.len() > 0 {
        layout::ring_block_round_trip(
            KIND_REVOKE,
            t.seq,
            tx_id,
            t.revokes.len() as u32,
            t.revokes,
        );
    } else {
        assert(t.revokes =~= Seq::empty());
        assert(pos + t.len - 1 == pos + n + 1);
    }
    assert(replay::scan_end(home, r, t.seq, pos, n, room) == Some((t.revokes, t.len)));
    assert(replay::scan_tx(home, r, t.seq, pos, room)->Some_0 =~= t);
}

/// A committed transaction is found in the ring: a scan from the position it was
/// stored at reads it back from the medium, complete and intact.
pub proof fn commit_then_scan(s: ring::RingState, r: ring::Region, t: TxnView, room: int)
    requires
        r.fits(s.home.len() as int),
        t.blocks.finite(),
        t.revokes.finite(),
        ring::storable(s.pages, t),
        ring::needed(t) <= r.ring(),
        ring::needed(t) <= room,
    ensures
        replay::scan_tx(
            ring::stored(s, r, t).home,
            r,
            t.seq,
            s.j.head_block as int,
            room,
        ) == Some(rec_of(s.pages, t)),
{
    lemma_stored(s, r, t);
    sorted::in_order_lists(t.blocks);
    sorted::in_order_lists(t.revokes);
    let home = ring::stored(s, r, t).home;
    let pos = s.j.head_block as int;
    let blocks = ring::tx_blocks(s.pages, t);
    let n = t.blocks.len() as int;
    let rec = rec_of(s.pages, t);
    assert(replay::at(home, r, pos + 0) == blocks[0]);
    assert forall|i: int| 0 <= i < n implies #[trigger] replay::at(home, r, pos + 1 + i)
        == rec.data[i] by {
        assert(replay::at(home, r, pos + (1 + i)) == blocks[1 + i]);
        assert(blocks[1 + i] == rec.data[i]);
    }
    assert(replay::at(home, r, pos + (n + 1)) == blocks[n + 1]);
    assert(replay::at(home, r, pos + (rec.len - 1)) == blocks[rec.len - 1]);
    assert(blocks[rec.len - 1] == ring::commit_part(s.pages, t));
    if rec.revokes.len() > 0 {
        assert(blocks[n + 1] == ring::revoke_part(t)[0]);
    }
    lemma_scan(home, r, pos, room, rec, t.tx_id);
}

/// Whether the ring holds the transactions `txs`, one after the other, from position
/// `pos` and sequence number `seq` on.
pub open spec fn logged(
    home: block_device::Pages,
    r: ring::Region,
    seq: u64,
    pos: int,
    room: int,
    txs: Seq<replay::TxRec>,
) -> bool
    decreases txs.len(),
{
    txs.len() == 0 || {
        &&& replay::scan_tx(home, r, seq, pos, room) == Some(txs[0])
        &&& 0 < txs[0].len <= room
        &&& logged(
            home,
            r,
            journal::wrap_add(seq, 1),
            pos + txs[0].len,
            room - txs[0].len,
            txs.skip(1),
        )
    }
}

pub proof fn lemma_total_len(txs: Seq<replay::TxRec>)
    requires
        txs.len() > 0,
    ensures
        replay::total_len(txs) == txs[0].len + replay::total_len(txs.skip(1)),
    decreases txs.len(),
{
    if txs.len() == 1 {
        assert(txs.drop_last() =~= Seq::<replay::TxRec>::empty());
        assert(txs.skip(1) =~= Seq::<replay::TxRec>::empty());
    } else {
        lemma_total_len(txs.drop_last());
        assert(txs.drop_last().skip(1) =~= txs.skip(1).drop_last());
    }
}

proof fn lemma_next_seq(seq: u64, n: nat)
    requires
        n > 0,
    ensures
        replay::next_seq(seq, n) == replay::next_seq(journal::wrap_add(seq, 1), (n - 1) as nat),
    decreases n,
{
    reveal_with_fuel(replay::next_seq, 3);
    if n > 1 {
        lemma_next_seq(seq, (n - 1) as nat);
    }
}

/// A transaction is read from the blocks it takes and no others.
pub proof fn lemma_scan_local(
    a: block_device::Pages,
    b: block_device::Pages,
    r: ring::Region,
    seq: u64,
    pos: int,
    room: int,
    t: replay::TxRec,
)
    requires
        replay::scan_tx(a, r, seq, pos, room) == Some(t),
        forall|k: int|
            pos <= k < pos + t.len ==> #[trigger] replay::at(b, r, k) == replay::at(a, r, k),
    ensures
        replay::scan_tx(b, r, seq, pos, room) == Some(t),
        2 <= t.len <= room,
{
    reveal(replay::scan_tx);
    let n = layout::ring_word(replay::at(a, r, pos)) as int;
    assert(replay::at(b, r, pos) == replay::at(a, r, pos));
    assert(replay::at(b, r, pos + 1 + n) == replay::at(a, r, pos + 1 + n));
    assert(replay::at(b, r, pos + t.len - 1) == replay::at(a, r, pos + t.len - 1));
    assert(replay::run_at(b, r, pos + 1, n) =~= replay::run_at(a, r, pos + 1, n));
}

/// A logged transaction stays logged while the blocks up to the end of the log stay,
/// and one stored right behind the log joins it.
#[verifier::spinoff_prover]
#[verifier::rlimit(40)]
proof fn lemma_log_grows(
    a: block_device::Pages,
    b: block_device::Pages,
    r: ring::Region,
    seq: u64,
    pos: int,
    room: int,
    txs: Seq<replay::TxRec>,
    t: replay::TxRec,
)
    requires
        logged(a, r, seq, pos, room, txs),
        forall|k: int|
            pos <= k < pos + replay::total_len(txs) ==> #[trigger] replay::at(b, r, k)
                == replay::at(a, r, k),
        0 < t.len <= room - replay::total_len(txs),
        replay::scan_tx(
            b,
            r,
            replay::next_seq(seq, txs.len()),
            pos + replay::total_len(txs),
            room - replay::total_len(txs),
        ) == Some(t),
    ensures
        logged(b, r, seq, pos, room, txs.push(t)),
    decreases txs.len(),
{
    if txs.len() == 0 {
        assert(txs =~= Seq::<replay::TxRec>::empty());
        assert(txs.push(t)[0] == t);
        assert(txs.push(t).skip(1) =~= Seq::<replay::TxRec>::empty());
        assert(replay::total_len(txs) == 0);
        assert(replay::next_seq(seq, 0) == seq);
        assert(logged(
            b,
            r,
            journal::wrap_add(seq, 1),
            pos + t.len,
            room - t.len,
            Seq::<replay::TxRec>::empty(),
        ));
    } else {
        lemma_total_len(txs);
        lemma_rest_nonneg(a, r, seq, pos, room, txs);
        lemma_scan_local(a, b, r, seq, pos, room, txs[0]);
        lemma_next_seq(seq, txs.len());
        lemma_log_grows(
            a,
            b,
            r,
            journal::wrap_add(seq, 1),
            pos + txs[0].len,
            room - txs[0].len,
            txs.skip(1),
            t,
        );
        assert(txs.push(t).skip(1) =~= txs.skip(1).push(t));
        assert(txs.push(t)[0] == txs[0]);
    }
}

proof fn lemma_rest_nonneg(
    a: block_device::Pages,
    r: ring::Region,
    seq: u64,
    pos: int,
    room: int,
    txs: Seq<replay::TxRec>,
)
    requires
        logged(a, r, seq, pos, room, txs),
        txs.len() > 0,
    ensures
        replay::total_len(txs.skip(1)) >= 0,
    decreases txs.len(),
{
    let rest = txs.skip(1);
    if rest.len() > 0 {
        lemma_rest_nonneg(
            a,
            r,
            journal::wrap_add(seq, 1),
            pos + txs[0].len,
            room - txs[0].len,
            rest,
        );
        lemma_total_len(rest);
        assert(logged(
            a,
            r,
            journal::wrap_add(seq, 1),
            pos + txs[0].len,
            room - txs[0].len,
            rest,
        ));
        assert(rest[0].len > 0);
    } else {
        assert(replay::total_len(rest) == 0);
    }
}

/// Committing a transaction keeps every transaction in the ring that is still live
/// and adds the new one behind them.
pub proof fn commit_extends_log(
    s: ring::RingState,
    r: ring::Region,
    t: TxnView,
    tail_seq: u64,
    tail: int,
    txs: Seq<replay::TxRec>,
)
    requires
        r.fits(s.home.len() as int),
        t.blocks.finite(),
        t.revokes.finite(),
        ring::storable(s.pages, t),
        0 <= tail,
        logged(s.home, r, tail_seq, tail, r.ring(), txs),
        s.j.head_block == tail + replay::total_len(txs),
        t.seq == replay::next_seq(tail_seq, txs.len()),
        replay::total_len(txs) + ring::needed(t) <= r.ring(),
        replay::total_len(txs) >= 0,
    ensures
        logged(
            ring::stored(s, r, t).home,
            r,
            tail_seq,
            tail,
            r.ring(),
            txs.push(rec_of(s.pages, t)),
        ),
{
    lemma_stored(s, r, t);
    commit_then_scan(s, r, t, r.ring() - replay::total_len(txs));
    lemma_log_grows(
        s.home,
        ring::stored(s, r, t).home,
        r,
        tail_seq,
        tail,
        r.ring(),
        txs,
        rec_of(s.pages, t),
    );
}

/// A scan from the tail finds every logged transaction, in order, before anything
/// else.
#[verifier::spinoff_prover]
#[verifier::rlimit(40)]
pub proof fn log_is_scanned(
    home: block_device::Pages,
    r: ring::Region,
    seq: u64,
    pos: int,
    room: int,
    txs: Seq<replay::TxRec>,
)
    requires
        logged(home, r, seq, pos, room, txs),
    ensures
        replay::scan(home, r, seq, pos, room) == txs + replay::scan(
            home,
            r,
            replay::next_seq(seq, txs.len()),
            pos + replay::total_len(txs),
            room - replay::total_len(txs),
        ),
    decreases txs.len(),
{
    if txs.len() == 0 {
        assert(txs =~= Seq::<replay::TxRec>::empty());
        assert(txs + replay::scan(home, r, seq, pos, room) =~= replay::scan(
            home,
            r,
            seq,
            pos,
            room,
        ));
    } else {
        lemma_total_len(txs);
        lemma_next_seq(seq, txs.len());
        log_is_scanned(
            home,
            r,
            journal::wrap_add(seq, 1),
            pos + txs[0].len,
            room - txs[0].len,
            txs.skip(1),
        );
        let rest = replay::scan(
            home,
            r,
            replay::next_seq(seq, txs.len()),
            pos + replay::total_len(txs),
            room - replay::total_len(txs),
        );
        assert(seq![txs[0]] + (txs.skip(1) + rest) =~= txs + rest);
    }
}

/// Nothing is vetoed if no revoke record is newer than the transaction.
proof fn lemma_tx_writes(txs: Seq<replay::TxRec>, t: replay::TxRec, n: int)
    requires
        0 <= n <= t.entries.len(),
        forall|i: int, k: int|
            0 <= i < txs.len() && 0 <= k < txs[i].revokes.len() ==> (
            #[trigger] txs[i].revokes[k]).1 <= t.seq,
    ensures
        replay::tx_writes(txs, t, n).len() == n,
        forall|i: int|
            0 <= i < n ==> #[trigger] replay::tx_writes(txs, t, n)[i] == (
                t.entries[i].0,
                layout::unescaped(t.data[i], t.entries[i].1),
            ),
    decreases n,
{
    if n > 0 {
        lemma_tx_writes(txs, t, n - 1);
    }
}

/// Writes to blocks on the device all succeed.
proof fn lemma_applied_ok(pages: block_device::Pages, ws: Seq<(u64, Seq<u8>)>, n: int)
    requires
        n <= ws.len(),
        forall|i: int| 0 <= i < ws.len() ==> (#[trigger] ws[i]).0 < pages.len(),
    ensures
        replay::applied(pages, ws, n).1,
        replay::applied(pages, ws, n).0.len() == pages.len(),
    decreases n,
{
    if n > 0 {
        lemma_applied_ok(pages, ws, n - 1);
    }
}

/// The last write of a block decides what it holds.
proof fn lemma_last_write(pages: block_device::Pages, ws: Seq<(u64, Seq<u8>)>, n: int, i: int)
    requires
        0 <= i < n <= ws.len(),
        forall|k: int| 0 <= k < ws.len() ==> (#[trigger] ws[k]).0 < pages.len(),
        forall|k: int| i < k < n ==> (#[trigger] ws[k]).0 != ws[i].0,
    ensures
        replay::applied(pages, ws, n).0[ws[i].0 as int] == ws[i].1,
    decreases n,
{
    lemma_applied_ok(pages, ws, n);
    lemma_applied_ok(pages, ws, n - 1);
    if i < n - 1 {
        lemma_last_write(pages, ws, n - 1, i);
    }
}

proof fn lemma_writes_in_range(txs: Seq<replay::TxRec>, n: int, size: int)
    requires
        0 <= n <= txs.len(),
        forall|i: int, k: int|
            0 <= i < txs.len() && 0 <= k < txs[i].entries.len() ==> (
            #[trigger] txs[i].entries[k]).0 < size,
    ensures
        forall|i: int|
            0 <= i < replay::all_writes(txs, n).len() ==> (
            #[trigger] replay::all_writes(txs, n)[i]).0 < size,
    decreases n,
{
    if n > 0 {
        lemma_writes_in_range(txs, n - 1, size);
        lemma_tx_in_range(txs, n - 1, txs[n - 1].entries.len() as int, size);
        let x = replay::all_writes(txs, n - 1);
        let y = replay::tx_writes(txs, txs[n - 1], txs[n - 1].entries.len() as int);
        assert forall|i: int| 0 <= i < replay::all_writes(txs, n).len() implies (
        #[trigger] replay::all_writes(txs, n)[i]).0 < size by {
            if i < x.len() {
                assert(replay::all_writes(txs, n)[i] == x[i]);
            } else {
                assert(replay::all_writes(txs, n)[i] == y[i - x.len()]);
            }
        }
    }
}

proof fn lemma_tx_in_range(txs: Seq<replay::TxRec>, a: int, n: int, size: int)
    requires
        0 <= a < txs.len(),
        0 <= n <= txs[a].entries.len(),
        forall|i: int, k: int|
            0 <= i < txs.len() && 0 <= k < txs[i].entries.len() ==> (
            #[trigger] txs[i].entries[k]).0 < size,
    ensures
        forall|i: int|
            0 <= i < replay::tx_writes(txs, txs[a], n).len() ==> (
            #[trigger] replay::tx_writes(txs, txs[a], n)[i]).0 < size,
    decreases n,
{
    if n > 0 {
        lemma_tx_in_range(txs, a, n - 1, size);
        assert(txs[a].entries[n - 1].0 < size);
        let x = replay::tx_writes(txs, txs[a], n - 1);
        assert forall|i: int| 0 <= i < replay::tx_writes(txs, txs[a], n).len() implies (
        #[trigger] replay::tx_writes(txs, txs[a], n)[i]).0 < size by {
            if i < x.len() {
                assert(replay::tx_writes(txs, txs[a], n)[i] == x[i]);
            }
        }
    }
}

/// Whatever was lost with the power, replay puts the blocks of the last committed
/// transaction back as they were when it was committed.
#[verifier::spinoff_prover]
#[verifier::rlimit(40)]
pub proof fn replay_recovers(
    pages: block_device::Pages,
    home: block_device::Pages,
    t: TxnView,
    txs: Seq<replay::TxRec>,
    b: u64,
)
    requires
        block_device::full_pages(pages),
        home.len() == pages.len(),
        t.blocks.finite(),
        ring::storable(pages, t),
        txs.len() > 0,
        txs.last() == rec_of(pages, t),
        forall|i: int, k: int|
            0 <= i < txs.len() && 0 <= k < txs[i].entries.len() ==> (
            #[trigger] txs[i].entries[k]).0 < home.len(),
        forall|i: int, k: int|
            0 <= i < txs.len() && 0 <= k < txs[i].revokes.len() ==> (
            #[trigger] txs[i].revokes[k]).1 <= t.seq,
        t.blocks.contains(b),
    ensures
        replay::replayed(home, txs).1,
        replay::replayed(home, txs).0[b as int] == pages[b as int],
{
    sorted::in_order_lists(t.blocks);
    let order = ring::tx_order(t);
    let rec = rec_of(pages, t);
    let n = txs.len() as int;
    let m = rec.entries.len() as int;
    let ws = replay::all_writes(txs, n);
    let pre = replay::all_writes(txs, n - 1);
    let own = replay::tx_writes(txs, rec, m);
    assert(ws == pre + own);
    lemma_tx_writes(txs, rec, m);
    lemma_writes_in_range(txs, n, home.len() as int);
    lemma_applied_ok(home, ws, ws.len() as int);
    assert(order.to_set().contains(b));
    let q = choose|q: int| 0 <= q < order.len() && order[q] == b;
    let i = pre.len() + q;
    assert(ws[i] == own[q]);
    assert(rec.entries[q].0 == b);
    assert forall|k: int| i < k < ws.len() implies (#[trigger] ws[k]).0 != ws[i].0 by {
        let z = k - pre.len();
        assert(ws[k] == own[z]);
        assert(order[q] < order[z]);
    }
    lemma_last_write(home, ws, ws.len() as int, i);
    assert(pages[b as int].len() == PAGE_SIZE);
    layout::escape_round_trip(pages[b as int]);
}

/// Whether one of the first `n` writes goes to `k`.
pub open spec fn written(ws: Seq<(u64, Seq<u8>)>, n: int, k: int) -> bool {
    exists|i: int| 0 <= i < n && (#[trigger] ws[i]).0 == k
}

proof fn lemma_pointwise(
    p: block_device::Pages,
    q: block_device::Pages,
    ws: Seq<(u64, Seq<u8>)>,
    n: int,
    k: int,
)
    requires
        0 <= n <= ws.len(),
        p.len() == q.len(),
        0 <= k < p.len(),
        forall|i: int| 0 <= i < ws.len() ==> (#[trigger] ws[i]).0 < p.len(),
    ensures
        written(ws, n, k) ==> replay::applied(p, ws, n).0[k] == replay::applied(q, ws, n).0[k],
        !written(ws, n, k) ==> replay::applied(p, ws, n).0[k] == p[k],
    decreases n,
{
    if n > 0 {
        lemma_pointwise(p, q, ws, n - 1, k);
        lemma_applied_ok(p, ws, n - 1);
        lemma_applied_ok(q, ws, n - 1);
        lemma_applied_ok(p, ws, n);
        lemma_applied_ok(q, ws, n);
        if written(ws, n, k) && ws[n - 1].0 != k {
            let i = choose|i: int| 0 <= i < n && (#[trigger] ws[i]).0 == k;
            assert(written(ws, n - 1, k));
        }
        if !written(ws, n, k) {
            assert(ws[n - 1].0 != k);
            assert(!written(ws, n - 1, k));
        }
    }
}

/// Replaying the same transactions again changes nothing, so a crash during replay
/// does no harm.
pub proof fn replay_is_idempotent(home: block_device::Pages, txs: Seq<replay::TxRec>)
    requires
        forall|i: int, k: int|
            0 <= i < txs.len() && 0 <= k < txs[i].entries.len() ==> (
            #[trigger] txs[i].entries[k]).0 < home.len(),
    ensures
        replay::replayed(replay::replayed(home, txs).0, txs) == replay::replayed(home, txs),
{
    let n = txs.len() as int;
    let ws = replay::all_writes(txs, n);
    let m = ws.len() as int;
    lemma_writes_in_range(txs, n, home.len() as int);
    lemma_applied_ok(home, ws, m);
    let once = replay::applied(home, ws, m).0;
    lemma_applied_ok(once, ws, m);
    let twice = replay::applied(once, ws, m).0;
    assert forall|k: int| 0 <= k < home.len() implies once[k] == twice[k] by {
        lemma_pointwise(home, once, ws, m, k);
        lemma_pointwise(once, home, ws, m, k);
    }
    assert(once =~= twice);
}

/// The last copy of block `b` among the first `n` records of a transaction, unless a revoke
/// record keeps it from being put back.
pub open spec fn copy_in(txs: Seq<replay::TxRec>, t: replay::TxRec, n: int, b: u64) -> Option<
    Seq<u8>,
>
    decreases n,
{
    if n <= 0 {
        None
    } else if t.entries[n - 1].0 == b && !replay::vetoed(txs, b, t.seq) {
        Some(layout::unescaped(t.data[n - 1], t.entries[n - 1].1))
    } else {
        copy_in(txs, t, n - 1, b)
    }
}

/// The newest copy of block `b` in the first `n` transactions that is to be put back.
pub open spec fn newest_copy(txs: Seq<replay::TxRec>, n: int, b: u64) -> Option<Seq<u8>>
    decreases n,
{
    if n <= 0 {
        None
    } else {
        match copy_in(txs, txs[n - 1], txs[n - 1].entries.len() as int, b) {
            Some(d) => Some(d),
            None => newest_copy(txs, n - 1, b),
        }
    }
}

/// What the last of the first `n` writes to block `b` wrote.
spec fn last_to(ws: Seq<(u64, Seq<u8>)>, n: int, b: u64) -> Option<Seq<u8>>
    decreases n,
{
    if n <= 0 {
        None
    } else if ws[n - 1].0 == b {
        Some(ws[n - 1].1)
    } else {
        last_to(ws, n - 1, b)
    }
}

proof fn lemma_last_to(pages: block_device::Pages, ws: Seq<(u64, Seq<u8>)>, n: int, b: u64)
    requires
        0 <= n <= ws.len(),
        b < pages.len(),
        forall|k: int| 0 <= k < ws.len() ==> (#[trigger] ws[k]).0 < pages.len(),
    ensures
        replay::applied(pages, ws, n).0[b as int] == (match last_to(ws, n, b) {
            Some(d) => d,
            None => pages[b as int],
        }),
    decreases n,
{
    if n > 0 {
        lemma_last_to(pages, ws, n - 1, b);
        lemma_applied_ok(pages, ws, n - 1);
        lemma_applied_ok(pages, ws, n);
    }
}

proof fn lemma_last_in(x: Seq<(u64, Seq<u8>)>, y: Seq<(u64, Seq<u8>)>, n: int, b: u64)
    requires
        0 <= n <= y.len(),
    ensures
        last_to(x + y, x.len() + n, b) == (match last_to(y, n, b) {
            Some(d) => Some(d),
            None => last_to(x, x.len() as int, b),
        }),
    decreases n,
{
    if n > 0 {
        lemma_last_in(x, y, n - 1, b);
        assert((x + y)[x.len() + n - 1] == y[n - 1]);
    } else {
        lemma_last_same(x + y, x, x.len() as int, b);
    }
}

proof fn lemma_last_same(v: Seq<(u64, Seq<u8>)>, w: Seq<(u64, Seq<u8>)>, n: int, b: u64)
    requires
        0 <= n <= v.len(),
        n <= w.len(),
        forall|k: int| 0 <= k < n ==> #[trigger] v[k] == w[k],
    ensures
        last_to(v, n, b) == last_to(w, n, b),
    decreases n,
{
    if n > 0 {
        lemma_last_same(v, w, n - 1, b);
        assert(v[n - 1] == w[n - 1]);
    }
}

proof fn lemma_copy_in(txs: Seq<replay::TxRec>, t: replay::TxRec, n: int, b: u64)
    requires
        0 <= n <= t.entries.len(),
    ensures
        ({
            let ws = replay::tx_writes(txs, t, n);
            last_to(ws, ws.len() as int, b) == copy_in(txs, t, n, b)
        }),
    decreases n,
{
    if n > 0 {
        lemma_copy_in(txs, t, n - 1, b);
        let before = replay::tx_writes(txs, t, n - 1);
        let ws = replay::tx_writes(txs, t, n);
        if !replay::vetoed(txs, t.entries[n - 1].0, t.seq) {
            lemma_last_same(ws, before, before.len() as int, b);
        }
    }
}

proof fn lemma_newest(txs: Seq<replay::TxRec>, n: int, b: u64)
    requires
        0 <= n <= txs.len(),
    ensures
        ({
            let ws = replay::all_writes(txs, n);
            last_to(ws, ws.len() as int, b) == newest_copy(txs, n, b)
        }),
    decreases n,
{
    if n > 0 {
        lemma_newest(txs, n - 1, b);
        let t = txs[n - 1];
        let x = replay::all_writes(txs, n - 1);
        let y = replay::tx_writes(txs, t, t.entries.len() as int);
        lemma_copy_in(txs, t, t.entries.len() as int, b);
        lemma_last_in(x, y, y.len() as int, b);
    }
}

/// Replay gives every block the newest copy that the journal holds of it and that was not
/// revoked since, and leaves the blocks that it holds no such copy of alone.
pub proof fn replay_restores_newest(home: block_device::Pages, txs: Seq<replay::TxRec>, b: u64)
    requires
        b < home.len(),
        forall|i: int, k: int|
            0 <= i < txs.len() && 0 <= k < txs[i].entries.len() ==> (
            #[trigger] txs[i].entries[k]).0 < home.len(),
    ensures
        replay::replayed(home, txs).1,
        replay::replayed(home, txs).0[b as int] == (match newest_copy(txs, txs.len() as int, b) {
            Some(d) => d,
            None => home[b as int],
        }),
{
    let n = txs.len() as int;
    let ws = replay::all_writes(txs, n);
    lemma_writes_in_range(txs, n, home.len() as int);
    lemma_applied_ok(home, ws, ws.len() as int);
    lemma_newest(txs, n, b);
    lemma_last_to(home, ws, ws.len() as int, b);
}

/// What a transaction changed survives a crash right after it was committed: a scan of the
/// medium as it stands finds the transactions that are live, with this one as the last, and
/// replaying them puts its blocks back as they were when it was committed. This holds unless
/// something older in the ring passes for a transaction behind it.
pub proof fn committed_survives(
    s: ring::RingState,
    r: ring::Region,
    t: TxnView,
    tail_seq: u64,
    tail: int,
    txs: Seq<replay::TxRec>,
    b: u64,
)
    requires
        r.fits(s.home.len() as int),
        block_device::full_pages(s.pages),
        s.pages.len() == s.home.len(),
        t.blocks.finite(),
        t.revokes.finite(),
        ring::storable(s.pages, t),
        0 <= tail,
        logged(s.home, r, tail_seq, tail, r.ring(), txs),
        s.j.head_block == tail + replay::total_len(txs),
        t.seq == replay::next_seq(tail_seq, txs.len()),
        replay::total_len(txs) + ring::needed(t) <= r.ring(),
        replay::total_len(txs) >= 0,
        forall|i: int, k: int|
            0 <= i < txs.len() && 0 <= k < txs[i].entries.len() ==> (
            #[trigger] txs[i].entries[k]).0 < s.home.len(),
        forall|i: int, k: int|
            0 <= i < txs.len() && 0 <= k < txs[i].revokes.len() ==> (
            #[trigger] txs[i].revokes[k]).1 <= t.seq,
        t.blocks.contains(b),
        ({
            let all = txs.push(rec_of(s.pages, t));
            replay::scan(
                ring::stored(s, r, t).home,
                r,
                replay::next_seq(tail_seq, all.len()),
                tail + replay::total_len(all),
                r.ring() - replay::total_len(all),
            ) == Seq::<replay::TxRec>::empty()
        }),
    ensures
        ({
            let home = ring::stored(s, r, t).home;
            let found = replay::scan(home, r, tail_seq, tail, r.ring());
            &&& found == txs.push(rec_of(s.pages, t))
            &&& replay::replayed(home, found).1
            &&& replay::replayed(home, found).0[b as int] == s.pages[b as int]
        }),
{
    let home = ring::stored(s, r, t).home;
    let rec = rec_of(s.pages, t);
    let all = txs.push(rec);
    lemma_stored(s, r, t);
    commit_extends_log(s, r, t, tail_seq, tail, txs);
    log_is_scanned(home, r, tail_seq, tail, r.ring(), all);
    assert(all + Seq::<replay::TxRec>::empty() =~= all);
    sorted::in_order_lists(t.blocks);
    sorted::in_order_lists(t.revokes);
    assert forall|i: int, k: int|
        0 <= i < all.len() && 0 <= k < all[i].entries.len() implies (
    #[trigger] all[i].entries[k]).0 < home.len() by {
        if i < txs.len() {
            assert(all[i] == txs[i]);
            assert(txs[i].entries[k].0 < s.home.len());
        } else {
            assert(all[i] == rec);
            assert(t.blocks.contains(rec.entries[k].0)) by {
                assert(ring::tx_order(t).to_set().contains(ring::tx_order(t)[k]));
            }
        }
    }
    assert forall|i: int, k: int|
        0 <= i < all.len() && 0 <= k < all[i].revokes.len() implies (
    #[trigger] all[i].revokes[k]).1 <= t.seq by {
        if i < txs.len() {
            assert(all[i] == txs[i]);
            assert(txs[i].revokes[k].1 <= t.seq);
        } else {
            assert(all[i] == rec);
        }
    }
    replay_recovers(s.pages, home, t, all, b);
}

/// Where the whole region lies on the device, the search for transactions never comes to a block
/// past its end.
pub proof fn whole_ring_is_searched(
    pages: block_device::Pages,
    r: ring::Region,
    seq: u64,
    pos: int,
    room: int,
)
    requires
        r.fits(pages.len() as int),
        0 <= pos,
    ensures
        !replay::scan_cut_off(pages, r, seq, pos, room),
    decreases room,
{
    assert forall|p: int| 0 <= p implies #[trigger] replay::held(pages, r, p) by {
        vstd::arithmetic::div_mod::lemma_mod_bound(p, r.ring());
    }
    assert(!replay::tx_cut_off(pages, r, seq, pos, room)) by {
        reveal(replay::tx_cut_off);
    }
    match replay::scan_tx(pages, r, seq, pos, room) {
        None => {},
        Some(t) => if 0 < t.len <= room {
            whole_ring_is_searched(
                pages,
                r,
                crate::journal::wrap_add(seq, 1),
                pos + t.len,
                room - t.len,
            );
        },
    }
}

} // verus!
