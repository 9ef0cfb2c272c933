//! Recovery at mount time: committed transactions are read from the ring and their
//! blocks written to their home locations.
//!
//! The live part of the ring is found by sequence continuity, from the tail that the
//! journal superblock records on: it ends at the first block that does not start a
//! complete transaction with the next sequence number.
use vstd::prelude::*;
use crate::block_device;
use crate::block_device::{BlockDevice, PAGE_SIZE};
use crate::block_page_cache;
use crate::bytes;
use crate::bytes::{checksum, copy_vec, get_u32, push_slice, put_u32};
use crate::error::Error;
use crate::journal;
use crate::journal::layout;
use crate::journal::layout::{
    check_ring_block, read_records, JOURNAL_BLOCK_MAGIC, KIND_COMMIT, KIND_DESCRIPTOR, KIND_REVOKE,
    MAX_RECORDS,
};
use crate::journal::ring;
use crate::journal::CheckpointTracker;

verus! {

// ---- Scanning -----------------------------------------------------------------------

/// A committed transaction as the ring holds it.
#[verifier::ext_equal]
pub struct TxRec {
    pub seq: u64,
    /// Descriptor records: block and flags.
    pub entries: Seq<(u64, u64)>,
    /// The stored blocks, one for each record.
    pub data: Seq<Seq<u8>>,
    /// Revoke records: block and sequence number.
    pub revokes: Seq<(u64, u64)>,
    /// Ring blocks taken.
    pub len: int,
}

/// The block at ring position `pos`.
pub open spec fn at(pages: block_device::Pages, r: ring::Region, pos: int) -> Seq<u8> {
    pages[r.page(pos)]
}

/// `n` blocks from ring position `pos` on.
pub open spec fn run_at(pages: block_device::Pages, r: ring::Region, pos: int, n: int) -> Seq<
    Seq<u8>,
> {
    Seq::new(n as nat, |i: int| at(pages, r, pos + i))
}

/// The end of a transaction whose `n` blocks start after `pos`: revoke records and
/// length, if it is complete and its checksum is right.
pub open spec fn scan_end(
    pages: block_device::Pages,
    r: ring::Region,
    seq: u64,
    pos: int,
    n: int,
    room: int,
) -> Option<(Seq<(u64, u64)>, int)> {
    let e = at(pages, r, pos + 1 + n);
    let revoking = layout::is_ring_block(e, KIND_REVOKE, seq);
    let len = if revoking {
        n + 3
    } else {
        n + 2
    };
    let c = at(pages, r, pos + len - 1);
    if (revoking && layout::ring_word(e) > MAX_RECORDS) || len > room {
        None
    } else if !layout::is_ring_block(c, KIND_COMMIT, seq) || layout::ring_word(c) != bytes::crc32(
        layout::concat(run_at(pages, r, pos + 1, n)),
    ) {
        None
    } else if revoking {
        Some((layout::ring_records(e, layout::ring_word(e) as int), len))
    } else {
        Some((Seq::empty(), len))
    }
}

/// The complete transaction with sequence number `seq` at ring position `pos`, if
/// there is one and it takes no more than `room` blocks.
#[verifier::opaque]
pub open spec fn scan_tx(
    pages: block_device::Pages,
    r: ring::Region,
    seq: u64,
    pos: int,
    room: int,
) -> Option<TxRec> {
    let d = at(pages, r, pos);
    let n = layout::ring_word(d) as int;
    if room < 2 || !layout::is_ring_block(d, KIND_DESCRIPTOR, seq) || n > MAX_RECORDS || n + 2
        > room {
        None
    } else {
        match scan_end(pages, r, seq, pos, n, room) {
            Some((revokes, len)) => Some(
                TxRec {
                    seq,
                    entries: layout::ring_records(d, n),
                    data: run_at(pages, r, pos + 1, n),
                    revokes,
                    len,
                },
            ),
            None => None,
        }
    }
}

/// The committed transactions from ring position `pos` on, which starts with `seq`.
pub open spec fn scan(
    pages: block_device::Pages,
    r: ring::Region,
    seq: u64,
    pos: int,
    room: int,
) -> Seq<TxRec>
    decreases room,
{
    match scan_tx(pages, r, seq, pos, room) {
        None => Seq::empty(),
        Some(t) => if t.len <= 0 || t.len > room {
            Seq::empty()
        } else {
            seq![t] + scan(pages, r, journal::wrap_add(seq, 1), pos + t.len, room - t.len)
        },
    }
}

/// Whether ring position `pos` lies on the device.
pub open spec fn held(pages: block_device::Pages, r: ring::Region, pos: int) -> bool {
    r.page(pos) < pages.len()
}

/// Whether the `n` ring positions from `pos` on lie on the device.
pub open spec fn run_held(pages: block_device::Pages, r: ring::Region, pos: int, n: int) -> bool {
    forall|p: int| pos <= p < pos + n ==> #[trigger] held(pages, r, p)
}

/// Whether a block that has to be read for the transaction at ring position `pos` lies past the
/// end of the device: the descriptor, the blocks that it announces, the one after them, or the
/// commit block behind a revoke block.
#[verifier::opaque]
pub open spec fn tx_cut_off(
    pages: block_device::Pages,
    r: ring::Region,
    seq: u64,
    pos: int,
    room: int,
) -> bool {
    let d = at(pages, r, pos);
    let n = layout::ring_word(d) as int;
    let e = at(pages, r, pos + 1 + n);
    room >= 2 && (!held(pages, r, pos) || (layout::is_ring_block(d, KIND_DESCRIPTOR, seq) && n
        <= MAX_RECORDS && n + 2 <= room && (!run_held(pages, r, pos + 1, n + 1) || (
    layout::is_ring_block(e, KIND_REVOKE, seq) && layout::ring_word(e) <= MAX_RECORDS && n + 3
        <= room && !held(pages, r, pos + 2 + n)))))
}

/// Whether the search for transactions from ring position `pos` on comes to a block past the
/// end of the device.
pub open spec fn scan_cut_off(
    pages: block_device::Pages,
    r: ring::Region,
    seq: u64,
    pos: int,
    room: int,
) -> bool
    decreases room,
{
    tx_cut_off(pages, r, seq, pos, room) || match scan_tx(pages, r, seq, pos, room) {
        None => false,
        Some(t) => if t.len <= 0 || t.len > room {
            false
        } else {
            scan_cut_off(pages, r, journal::wrap_add(seq, 1), pos + t.len, room - t.len)
        },
    }
}

/// How many ring blocks from position `tail` on can hold transactions: the ring once around, as
/// far as positions go.
pub open spec fn span(r: ring::Region, tail: int) -> int {
    if tail + r.ring() <= u64::MAX {
        r.ring()
    } else {
        u64::MAX - tail
    }
}

/// Ring blocks that transactions take.
pub open spec fn total_len(txs: Seq<TxRec>) -> int
    decreases txs.len(),
{
    if txs.len() == 0 {
        0
    } else {
        total_len(txs.drop_last()) + txs.last().len
    }
}

// ---- Applying -----------------------------------------------------------------------

/// Whether a later transaction revoked `block` for transactions up to `seq`.
pub open spec fn vetoed(txs: Seq<TxRec>, block: u64, seq: u64) -> bool {
    exists|i: int, k: int|
        0 <= i < txs.len() && 0 <= k < txs[i].revokes.len() && (#[trigger] txs[i].revokes[k]).0
            == block && txs[i].revokes[k].1 > seq
}

/// What the first `n` records of a transaction write.
pub open spec fn tx_writes(txs: Seq<TxRec>, t: TxRec, n: int) -> Seq<(u64, Seq<u8>)>
    decreases n,
{
    if n <= 0 {
        Seq::empty()
    } else {
        let (block, flags) = t.entries[n - 1];
        let before = tx_writes(txs, t, n - 1);
        if vetoed(txs, block, t.seq) {
            before
        } else {
            before.push((block, layout::unescaped(t.data[n - 1], flags)))
        }
    }
}

/// What the first `n` transactions write.
pub open spec fn all_writes(txs: Seq<TxRec>, n: int) -> Seq<(u64, Seq<u8>)>
    decreases n,
{
    if n <= 0 {
        Seq::empty()
    } else {
        all_writes(txs, n - 1) + tx_writes(
            txs,
            txs[n - 1],
            txs[n - 1].entries.len() as int,
        )
    }
}

/// The pages after the first `n` writes, and whether all of them were on the device;
/// the first that is not stops the others.
pub open spec fn applied(
    pages: block_device::Pages,
    ws: Seq<(u64, Seq<u8>)>,
    n: int,
) -> (block_device::Pages, bool)
    decreases n,
{
    if n <= 0 {
        (pages, true)
    } else {
        let (p, ok) = applied(pages, ws, n - 1);
        if !ok || ws[n - 1].0 >= p.len() {
            (p, false)
        } else {
            (p.update(ws[n - 1].0 as int, ws[n - 1].1), true)
        }
    }
}

/// The pages that writes go to.
pub open spec fn write_set(ws: Seq<(u64, Seq<u8>)>) -> Set<u64> {
    Set::new(|k: u64| writes_to(ws, k))
}

proof fn lemma_write_set(ws: Seq<(u64, Seq<u8>)>, w: (u64, Seq<u8>))
    ensures
        write_set(ws.push(w)) == write_set(ws).insert(w.0),
{
    let t = ws.push(w);
    assert forall|k: u64| write_set(t).contains(k) <==> write_set(ws).insert(w.0).contains(k) by {
        if writes_to(t, k) {
            let i = choose|i: int| 0 <= i < t.len() && (#[trigger] t[i]).0 == k;
            if i < ws.len() {
                assert(ws[i].0 == k);
            }
        }
        if writes_to(ws, k) {
            let i = choose|i: int| 0 <= i < ws.len() && (#[trigger] ws[i]).0 == k;
            assert(t[i].0 == k);
        }
        assert(t[ws.len() as int].0 == w.0);
    }
    assert(write_set(t) =~= write_set(ws).insert(w.0));
}

/// Whether page `k` is among the writes.
pub open spec fn writes_to(ws: Seq<(u64, Seq<u8>)>, k: u64) -> bool {
    exists|i: int| 0 <= i < ws.len() && (#[trigger] ws[i]).0 == k
}

/// The pages after the committed transactions from the given tail on have been
/// written home, and whether that succeeded.
pub open spec fn replayed(
    pages: block_device::Pages,
    txs: Seq<TxRec>,
) -> (block_device::Pages, bool) {
    let ws = all_writes(txs, txs.len() as int);
    applied(pages, ws, ws.len() as int)
}

// ---- Operations ---------------------------------------------------------------------

/// A committed transaction as the ring holds it.
pub struct RingTx {
    pub seq: u64,
    pub entries: Vec<(u64, u64)>,
    pub data: Vec<Vec<u8>>,
    pub revokes: Vec<(u64, u64)>,
    pub len: u64,
}

impl View for RingTx {
    type V = TxRec;

    open spec fn view(&self) -> TxRec {
        TxRec {
            seq: self.seq,
            entries: self.entries@,
            data: block_page_cache::home(self.data@),
            revokes: self.revokes@,
            len: self.len as int,
        }
    }
}

/// The views of several transactions.
pub open spec fn views(txs: Seq<RingTx>) -> Seq<TxRec> {
    txs.map_values(|t: RingTx| t@)
}

/// Whether a transaction takes ring blocks and has one page for each of its records.
pub open spec fn whole(t: RingTx) -> bool {
    &&& t.len > 0
    &&& t.entries@.len() == t.data@.len()
    &&& forall|k: int| 0 <= k < t.data@.len() ==> (#[trigger] t.data@[k])@.len() == PAGE_SIZE
}

/// What replay did and where the live part of the ring ended.
pub struct ReplayResult {
    pub txs_applied: u64,
    /// Sequence number the next transaction should take.
    pub next_seq: u64,
    /// Ring position just past the last transaction.
    pub next_block: u64,
}

/// Where a journal lies: page of its superblock, and pages of the region.
#[derive(Clone, Copy)]
pub struct Extent {
    pub start: u64,
    pub count: u32,
}

impl Extent {
    /// The region.
    pub open spec fn region(self) -> ring::Region {
        ring::Region { start: self.start as int, count: self.count }
    }

    /// Fetches the block at ring position `pos`, if it is on the device.
    fn read(&self, dev: &mut BlockDevice, pos: u64) -> (b: Option<Vec<u8>>)
        requires
            old(dev).wf(),
            self.start < old(dev)@.len(),
            self.count >= 2,
        ensures
            final(dev).wf(),
            final(dev)@ == old(dev)@,
            final(dev).persisted() == old(dev).persisted(),
            final(dev).dirty() == old(dev).dirty(),
            match b {
                Some(x) => held(old(dev)@, self.region(), pos as int) && x@ == at(
                    old(dev)@,
                    self.region(),
                    pos as int,
                ) && x@.len() == PAGE_SIZE,
                None => !held(old(dev)@, self.region(), pos as int),
            },
    {
        proof {
            dev.lemma_wf();
        }
        let ring: u64 = self.count as u64 - 1;
        let idx: u64 = self.start + 1 + pos % ring;
        match dev.read_page(idx) {
            Ok(b) => Some(b),
            Err(_) => None,
        }
    }

    /// Reads the transaction at ring position `pos`; see [`scan_tx`] and [`tx_cut_off`].
    fn read_tx(&self, dev: &mut BlockDevice, seq: u64, pos: u64, room: u64) -> (res: Result<
        Option<RingTx>,
        Error,
    >)
        requires
            old(dev).wf(),
            self.start < old(dev)@.len(),
            pos + room <= u64::MAX,
            room <= self.region().ring(),
        ensures
            final(dev).wf(),
            final(dev)@ == old(dev)@,
            final(dev).persisted() == old(dev).persisted(),
            final(dev).dirty() == old(dev).dirty(),
            tx_cut_off(old(dev)@, self.region(), seq, pos as int, room as int) == (res is Err),
            match res {
                Err(e) => e == Error::IoError,
                Ok(Some(t)) => scan_tx(
                    old(dev)@,
                    self.region(),
                    seq,
                    pos as int,
                    room as int,
                ) == Some(t@) && t.seq == seq && 2 <= t.len <= room && t.entries@.len()
                    == t.data@.len() && (forall|i: int|
                    0 <= i < t.data@.len() ==> (#[trigger] t.data@[i])@.len() == PAGE_SIZE),
                Ok(None) => scan_tx(old(dev)@, self.region(), seq, pos as int, room as int) is None,
            },
    {
        reveal(scan_tx);
        reveal(tx_cut_off);
        let ghost pages = dev@;
        let ghost d0 = *dev;
        let ghost r = self.region();
        if room < 2 {
            return Ok(None);
        }
        let d = match self.read(dev, pos) {
            Some(b) => b,
            None => {
                return Err(Error::IoError);
            },
        };
        let n: u32 = get_u32(d.as_slice(), 24);
        if !check_ring_block(d.as_slice(), KIND_DESCRIPTOR, seq) || n > MAX_RECORDS as u32
            || n as u64 + 2 > room {
            return Ok(None);
        }
        let n: u64 = n as u64;
        let mut data: Vec<Vec<u8>> = Vec::new();
        let mut payload: Vec<u8> = Vec::new();
        let mut i: u64 = 0;
        assert(block_page_cache::home(data@) =~= run_at(pages, r, pos + 1, 0));
        while i < n
            invariant
                i <= n,
                n <= MAX_RECORDS,
                n + 2 <= room,
                pos + room <= u64::MAX,
                r == self.region(),
                self.start < dev@.len(),
                self.count >= 2,
                dev.wf(),
                dev@ == pages,
                dev.persisted() == d0.persisted(),
                dev.dirty() == d0.dirty(),
                d0 == *old(dev),
                pages == d0@,
                n == layout::ring_word(at(pages, r, pos as int)),
                room >= 2,
                layout::is_ring_block(at(pages, r, pos as int), KIND_DESCRIPTOR, seq),
                run_held(pages, r, pos + 1, i as int),
                data@.len() == i,
                block_page_cache::home(data@) == run_at(pages, r, pos + 1, i as int),
                payload@ == layout::concat(run_at(pages, r, pos + 1, i as int)),
                forall|k: int| 0 <= k < data@.len() ==> (#[trigger] data@[k])@.len() == PAGE_SIZE,
            decreases n - i,
        {
            let b = match self.read(dev, pos + 1 + i) {
                Some(b) => b,
                None => {
                    reveal(tx_cut_off);
                    assert(!held(pages, r, pos + 1 + i));
                    return Err(Error::IoError);
                },
            };
            push_slice(&mut payload, b.as_slice());
            let ghost before = data@;
            let ghost bytes = b@;
            data.push(b);
            proof {
                let x = run_at(pages, r, pos + 1, i + 1);
                assert(x.drop_last() =~= run_at(pages, r, pos + 1, i as int));
                assert(x.last() == bytes);
                assert(block_page_cache::home(data@) =~= block_page_cache::home(before).push(
                    bytes,
                ));
                assert(x =~= x.drop_last().push(bytes));
            }
            i = i + 1;
        }
        let e = match self.read(dev, pos + 1 + n) {
            Some(b) => b,
            None => {
                assert(!held(pages, r, pos + 1 + n));
                return Err(Error::IoError);
            },
        };
        assert(run_held(pages, r, pos + 1, n + 1));
        let revoking: bool = check_ring_block(e.as_slice(), KIND_REVOKE, seq);
        let len: u64 = if revoking {
            n + 3
        } else {
            n + 2
        };
        let m: u32 = get_u32(e.as_slice(), 24);
        if (revoking && m > MAX_RECORDS as u32) || len > room {
            return Ok(None);
        }
        let c = match self.read(dev, pos + len - 1) {
            Some(b) => b,
            None => {
                assert(revoking);
                return Err(Error::IoError);
            },
        };
        let crc: u32 = checksum(payload.as_slice());
        if !check_ring_block(c.as_slice(), KIND_COMMIT, seq) || get_u32(c.as_slice(), 24) != crc {
            return Ok(None);
        }
        let revokes: Vec<(u64, u64)> = if revoking {
            read_records(e.as_slice(), m as usize)
        } else {
            Vec::new()
        };
        let entries = read_records(d.as_slice(), n as usize);
        let t = RingTx { seq, entries, data, revokes, len };
        assert(scan_tx(pages, r, seq, pos as int, room as int)->Some_0 =~= t@);
        Ok(Some(t))
    }

    /// The committed transactions from the tail on; see [`scan`] and [`scan_cut_off`].
    pub fn scan_committed(&self, dev: &mut BlockDevice, tail_seq: u64, tail_block: u64) -> (res:
        Result<Vec<RingTx>, Error>)
        requires
            old(dev).wf(),
            self.start < old(dev)@.len(),
        ensures
            final(dev).wf(),
            final(dev)@ == old(dev)@,
            final(dev).persisted() == old(dev).persisted(),
            final(dev).dirty() == old(dev).dirty(),
            scan_cut_off(
                old(dev)@,
                self.region(),
                tail_seq,
                tail_block as int,
                span(self.region(), tail_block as int),
            ) == (res is Err),
            match res {
                Err(e) => e == Error::IoError,
                Ok(txs) => {
                    &&& views(txs@) == scan(
                        old(dev)@,
                        self.region(),
                        tail_seq,
                        tail_block as int,
                        span(self.region(), tail_block as int),
                    )
                    &&& total_len(views(txs@)) <= span(self.region(), tail_block as int)
                    &&& forall|i: int| 0 <= i < txs@.len() ==> whole(#[trigger] txs@[i])
                },
            },
    {
        let ghost pages = dev@;
        let ghost d0 = *dev;
        let ghost r = self.region();
        let mut txs: Vec<RingTx> = Vec::new();
        let mut seq: u64 = tail_seq;
        let mut pos: u64 = tail_block;
        let ring: u64 = if self.count == 0 {
            0
        } else {
            self.count as u64 - 1
        };
        let mut room: u64 = if ring <= u64::MAX - tail_block {
            ring
        } else {
            u64::MAX - tail_block
        };
        let ghost span = room as int;
        assert(views(txs@) =~= Seq::<TxRec>::empty());
        assert(Seq::<TxRec>::empty() + scan(pages, r, seq, pos as int, room as int) =~= scan(
            pages,
            r,
            seq,
            pos as int,
            room as int,
        ));
        loop
            invariant
                r == self.region(),
                self.start < dev@.len(),
                dev.wf(),
                dev@ == pages,
                pages == old(dev)@,
                dev.persisted() == d0.persisted(),
                dev.dirty() == d0.dirty(),
                d0 == *old(dev),
                span == self::span(r, tail_block as int),
                room <= span <= r.ring(),
                pos + room == tail_block + span,
                tail_block + span <= u64::MAX,
                total_len(views(txs@)) + room == span,
                views(txs@) + scan(pages, r, seq, pos as int, room as int) == scan(
                    pages,
                    r,
                    tail_seq,
                    tail_block as int,
                    span,
                ),
                scan_cut_off(pages, r, seq, pos as int, room as int) == scan_cut_off(
                    pages,
                    r,
                    tail_seq,
                    tail_block as int,
                    span,
                ),
                forall|i: int| 0 <= i < txs@.len() ==> whole(#[trigger] txs@[i]),
            ensures
                views(txs@) == scan(pages, r, tail_seq, tail_block as int, span),
                !scan_cut_off(pages, r, tail_seq, tail_block as int, span),
            decreases room,
        {
            match self.read_tx(dev, seq, pos, room) {
                Err(e) => {
                    return Err(e);
                },
                Ok(Some(t)) => {
                    let n: u64 = t.len;
                    let ghost before = views(txs@);
                    let ghost rec = t@;
                    let ghost rest = scan(
                        pages,
                        r,
                        journal::wrap_add(seq, 1),
                        pos + rec.len,
                        room - rec.len,
                    );
                    txs.push(t);
                    proof {
                        assert(views(txs@) =~= before.push(rec));
                        assert(views(txs@).drop_last() =~= before);
                        assert(before + (seq![rec] + rest) =~= before.push(rec) + rest);
                    }
                    pos = pos + n;
                    room = room - n;
                    seq = seq.wrapping_add(1);
                },
                Ok(None) => {
                    assert(views(txs@) + Seq::<TxRec>::empty() =~= views(txs@));
                    break;
                },
            }
        }
        Ok(txs)
    }
}

/// Whether a later transaction revoked `block` for transactions up to `seq`.
fn is_vetoed(txs: &Vec<RingTx>, block: u64, seq: u64) -> (r: bool)
    ensures
        r == vetoed(views(txs@), block, seq),
{
    let ghost v = views(txs@);
    let mut i: usize = 0;
    while i < txs.len()
        invariant
            i <= txs.len(),
            v == views(txs@),
            forall|a: int, k: int|
                0 <= a < i && 0 <= k < v[a].revokes.len() ==> !((#[trigger] v[a].revokes[k]).0
                    == block && v[a].revokes[k].1 > seq),
        decreases txs.len() - i,
    {
        let mut k: usize = 0;
        assert(v[i as int] == txs@[i as int]@);
        while k < txs[i].revokes.len()
            invariant
                i < txs.len(),
                k <= txs@[i as int].revokes@.len(),
                v == views(txs@),
                v[i as int] == txs@[i as int]@,
                forall|a: int, k: int|
                    0 <= a < i && 0 <= k < v[a].revokes.len() ==> !((#[trigger] v[a].revokes[k]).0
                        == block && v[a].revokes[k].1 > seq),
                forall|q: int|
                    0 <= q < k ==> !((#[trigger] v[i as int].revokes[q]).0 == block
                        && v[i as int].revokes[q].1 > seq),
            decreases txs@[i as int].revokes@.len() - k,
        {
            let e = txs[i].revokes[k];
            if e.0 == block && e.1 > seq {
                assert(v[i as int].revokes[k as int] == e);
                return true;
            }
            k = k + 1;
        }
        i = i + 1;
    }
    false
}

/// A stored block as it was before it was escaped.
fn unescape(d: &Vec<u8>, flags: u64) -> (p: Vec<u8>)
    requires
        d.len() == PAGE_SIZE,
    ensures
        p@ == layout::unescaped(d@, flags),
        p@.len() == PAGE_SIZE,
{
    let mut p = copy_vec(d.as_slice());
    if flags % 2 == 1 {
        put_u32(&mut p, 0, JOURNAL_BLOCK_MAGIC);
    }
    p
}

/// Writes the committed transactions from the tail on to their home locations, in
/// order, leaving out blocks that a later transaction revoked. A block that is not
/// on the device stops it with an error.
pub fn replay(dev: &mut BlockDevice, journal: Extent, tail_seq: u64, tail_block: u64) -> (res:
    Result<ReplayResult, Error>)
    requires
        old(dev).wf(),
        journal.start < old(dev)@.len(),
    ensures
        final(dev).wf(),
        final(dev)@.len() == old(dev)@.len(),
        ({
            let room = span(journal.region(), tail_block as int);
            let cut = scan_cut_off(
                old(dev)@,
                journal.region(),
                tail_seq,
                tail_block as int,
                room,
            );
            let txs = scan(old(dev)@, journal.region(), tail_seq, tail_block as int, room);
            if cut {
                &&& final(dev)@ == old(dev)@
                &&& final(dev).persisted() == old(dev).persisted()
                &&& res == Err::<ReplayResult, Error>(Error::IoError)
            } else {
                &&& final(dev)@ == replayed(old(dev)@, txs).0
                &&& final(dev).persisted() == replayed(old(dev).persisted(), txs).0
                &&& match res {
                    Ok(x) => {
                        &&& replayed(old(dev)@, txs).1
                        &&& x.txs_applied == txs.len()
                        &&& x.next_block == tail_block + total_len(txs)
                        &&& x.next_seq == next_seq(tail_seq, txs.len())
                        &&& final(dev).dirty() == old(dev).dirty().difference(
                            write_set(all_writes(txs, txs.len() as int)),
                        )
                    },
                    Err(e) => !replayed(old(dev)@, txs).1 && e == Error::IoError,
                }
            }
        }),
{
    let ghost d0 = *dev;
    let ghost r = journal.region();
    let ghost room = span(r, tail_block as int);
    let txs = match journal.scan_committed(dev, tail_seq, tail_block) {
        Ok(txs) => txs,
        Err(e) => {
            return Err(e);
        },
    };
    let ghost v = views(txs@);
    let ghost all = all_writes(v, v.len() as int);
    let mut none = CheckpointTracker::new(0);
    let mut i: usize = 0;
    let mut next: u64 = tail_seq;
    let mut next_block: u64 = tail_block;
    proof {
        d0.lemma_wf();
        assert(v.take(0) =~= Seq::<TxRec>::empty());
        assert(dev.dirty() =~= d0.dirty().difference(write_set(all_writes(v, 0))));
        lemma_next_seq(tail_seq, 0);
    }
    while i < txs.len()
        invariant
            i <= txs.len(),
            v == views(txs@),
            all == all_writes(v, v.len() as int),
            dev.wf(),
            dev@.len() == d0@.len(),
            d0.persisted().len() == d0@.len(),
            applied(d0@, all_writes(v, i as int), all_writes(v, i as int).len() as int) == (
                dev@,
                true,
            ),
            applied(
                d0.persisted(),
                all_writes(v, i as int),
                all_writes(v, i as int).len() as int,
            ) == (dev.persisted(), true),
            dev.dirty() == d0.dirty().difference(write_set(all_writes(v, i as int))),
            next == next_seq(tail_seq, i as nat),
            next_block == tail_block + total_len(v.take(i as int)),
            total_len(v) <= room,
            tail_block + room <= u64::MAX,
            forall|q: int| 0 <= q < txs@.len() ==> whole(#[trigger] txs@[q]),
            room == span(r, tail_block as int),
            !scan_cut_off(d0@, r, tail_seq, tail_block as int, room),
            v == scan(d0@, r, tail_seq, tail_block as int, room),
            r == journal.region(),
            d0 == *old(dev),
        decreases txs.len() - i,
    {
        let ghost t = v[i as int];
        let ghost pre = all_writes(v, i as int);
        assert(t == txs@[i as int]@);
        let mut k: usize = 0;
        assert(pre + tx_writes(v, t, 0) =~= pre);
        while k < txs[i].entries.len()
            invariant
                i < txs.len(),
                v == views(txs@),
                all == all_writes(v, v.len() as int),
                t == v[i as int],
                t == txs@[i as int]@,
                txs@[i as int].entries@.len() == txs@[i as int].data@.len(),
                forall|q: int|
                    0 <= q < txs@[i as int].data@.len() ==> (
                    #[trigger] txs@[i as int].data@[q])@.len() == PAGE_SIZE,
                k <= txs@[i as int].entries@.len(),
                dev.wf(),
                dev@.len() == d0@.len(),
                d0.persisted().len() == d0@.len(),
                pre == all_writes(v, i as int),
                applied(
                    d0@,
                    pre + tx_writes(v, t, k as int),
                    (pre + tx_writes(v, t, k as int)).len() as int,
                ) == (dev@, true),
                applied(
                    d0.persisted(),
                    pre + tx_writes(v, t, k as int),
                    (pre + tx_writes(v, t, k as int)).len() as int,
                ) == (dev.persisted(), true),
                dev.dirty() == d0.dirty().difference(
                    write_set(pre + tx_writes(v, t, k as int)),
                ),
                room == span(r, tail_block as int),
                !scan_cut_off(d0@, r, tail_seq, tail_block as int, room),
                v == scan(d0@, r, tail_seq, tail_block as int, room),
                r == journal.region(),
                d0 == *old(dev),
            decreases txs@[i as int].entries@.len() - k,
        {
            let e = txs[i].entries[k];
            let ghost cur = pre + tx_writes(v, t, k as int);
            if !is_vetoed(&txs, e.0, txs[i].seq) {
                let p = unescape(&txs[i].data[k], e.1);
                let ghost w = (e.0, p@);
                let ghost nxt = pre + tx_writes(v, t, k + 1);
                proof {
                    assert(t.data[k as int] == txs@[i as int].data@[k as int]@);
                    assert(nxt =~= cur.push(w));
                    lemma_write_set(cur, w);
                    dev.lemma_wf();
                    lemma_applied_prefix(d0@, nxt, cur, cur.len() as int);
                    lemma_applied_prefix(d0.persisted(), nxt, cur, cur.len() as int);
                }
                match dev.write_direct(&mut none, e.0, p.as_slice()) {
                    Ok(_) => {
                        assert(dev.dirty() =~= d0.dirty().difference(write_set(nxt)));
                    },
                    Err(x) => {
                        proof {
                            lemma_tx_writes_prefix(v, t, k + 1, t.entries.len() as int);
                            lemma_all_writes_prefix(v, i + 1, v.len() as int);
                            let full = pre + tx_writes(v, t, t.entries.len() as int);
                            assert(full == all_writes(v, i + 1));
                            assert(full.take(nxt.len() as int) =~= nxt);
                            assert(all.take(full.len() as int) =~= full);
                            assert(all.take(nxt.len() as int) =~= nxt);
                            lemma_applied_prefix(d0@, all, nxt, nxt.len() as int);
                            lemma_applied_prefix(d0.persisted(), all, nxt, nxt.len() as int);
                            lemma_stuck(d0@, all, nxt.len() as int, all.len() as int);
                            lemma_stuck(d0.persisted(), all, nxt.len() as int, all.len() as int);
                        }
                        return Err(x);
                    },
                }
            }
            k = k + 1;
        }
        proof {
            assert(v.take(i + 1).drop_last() =~= v.take(i as int));
            assert(v.take(i + 1).last() == t);
            assert(pre + tx_writes(v, t, t.entries.len() as int) == all_writes(v, i + 1));
            lemma_total_len_prefix(v, i + 1);
            lemma_next_seq(tail_seq, i as nat);
        }
        next = next.wrapping_add(1);
        next_block = next_block + txs[i].len;
        i = i + 1;
    }
    proof {
        assert(v.take(v.len() as int) =~= v);
    }
    Ok(ReplayResult { txs_applied: txs.len() as u64, next_seq: next, next_block })
}

/// The sequence number `n` after `seq`.
pub open spec fn next_seq(seq: u64, n: nat) -> u64
    decreases n,
{
    if n == 0 {
        seq
    } else {
        journal::wrap_add(next_seq(seq, (n - 1) as nat), 1)
    }
}

proof fn lemma_next_seq(seq: u64, n: nat)
    ensures
        next_seq(seq, n + 1) == journal::wrap_add(next_seq(seq, n), 1),
        next_seq(seq, 0) == seq,
{
}

proof fn lemma_total_len_prefix(txs: Seq<TxRec>, n: int)
    requires
        0 <= n <= txs.len(),
        forall|i: int| 0 <= i < txs.len() ==> (#[trigger] txs[i]).len > 0,
    ensures
        total_len(txs.take(n)) <= total_len(txs),
    decreases txs.len() - n,
{
    if n < txs.len() {
        assert(txs.take(n + 1).drop_last() =~= txs.take(n));
        lemma_total_len_prefix(txs, n + 1);
    } else {
        assert(txs.take(n) =~= txs);
    }
}

/// Only the writes applied so far matter.
proof fn lemma_applied_prefix(
    pages: block_device::Pages,
    a: Seq<(u64, Seq<u8>)>,
    b: Seq<(u64, Seq<u8>)>,
    n: int,
)
    requires
        n <= a.len(),
        n <= b.len(),
        forall|i: int| 0 <= i < n ==> a[i] == b[i],
    ensures
        applied(pages, a, n) == applied(pages, b, n),
        applied(pages, a, n).0.len() == pages.len(),
    decreases n,
{
    if n > 0 {
        lemma_applied_prefix(pages, a, b, n - 1);
    }
}

/// After a write that fails nothing more is written.
proof fn lemma_stuck(pages: block_device::Pages, ws: Seq<(u64, Seq<u8>)>, m: int, n: int)
    requires
        !applied(pages, ws, m).1,
        m <= n,
    ensures
        applied(pages, ws, n) == applied(pages, ws, m),
    decreases n - m,
{
    if m < n {
        lemma_stuck(pages, ws, m, n - 1);
        if n <= 0 {
            assert(m <= 0);
        }
    }
}

proof fn lemma_tx_writes_prefix(txs: Seq<TxRec>, t: TxRec, m: int, n: int)
    requires
        m <= n,
    ensures
        tx_writes(txs, t, m).len() <= tx_writes(txs, t, n).len(),
        tx_writes(txs, t, n).take(tx_writes(txs, t, m).len() as int) == tx_writes(txs, t, m),
    decreases n - m,
{
    if m < n {
        lemma_tx_writes_prefix(txs, t, m, n - 1);
        let x = tx_writes(txs, t, m);
        assert(tx_writes(txs, t, n).take(x.len() as int) =~= tx_writes(txs, t, n - 1).take(
            x.len() as int,
        ));
    } else {
        assert(tx_writes(txs, t, m).take(tx_writes(txs, t, m).len() as int) =~= tx_writes(
            txs,
            t,
            m,
        ));
    }
}

proof fn lemma_all_writes_prefix(txs: Seq<TxRec>, m: int, n: int)
    requires
        m <= n,
    ensures
        all_writes(txs, m).len() <= all_writes(txs, n).len(),
        all_writes(txs, n).take(all_writes(txs, m).len() as int) == all_writes(txs, m),
    decreases n - m,
{
    let x = all_writes(txs, m);
    if m < n {
        lemma_all_writes_prefix(txs, m, n - 1);
        if n <= 0 {
            assert(all_writes(txs, n) =~= x);
        } else {
            assert(all_writes(txs, n).take(x.len() as int) =~= all_writes(txs, n - 1).take(
                x.len() as int,
            ));
        }
    } else {
        assert(x.take(x.len() as int) =~= x);
    }
}

} // verus!
