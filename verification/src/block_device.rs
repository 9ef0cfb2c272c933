//! A block device seen through its page cache.
use vstd::prelude::*;
use crate::block_page_cache;
use crate::block_page_cache::{BlockPageCache, StatsSnapshot};
use crate::bytes;
use crate::bytes::{copy_vec, push_slice, sub_vec, write_at};
use crate::error::Error;
use crate::journal::CheckpointTracker;

verus! {

/// Bytes per page.
pub const PAGE_SIZE: usize = 4096;

/// Most pages a device can have, so that byte offsets fit in 64 bits.
pub const MAX_PAGES: u64 = 0x10_0000_0000_0000;

/// The pages of a device, in order.
pub type Pages = Seq<Seq<u8>>;

/// Whether every page is a full page and the device is of a possible size.
pub open spec fn full_pages(p: Pages) -> bool {
    &&& p.len() < MAX_PAGES
    &&& forall|i: int| 0 <= i < p.len() ==> (#[trigger] p[i]).len() == PAGE_SIZE
}

/// The bytes of a device, in order.
pub open spec fn flat(p: Pages) -> Seq<u8> {
    Seq::new((p.len() * 4096) as nat, |i: int| p[i / 4096][i % 4096])
}

/// How many bytes of a range that starts at `off` and is `len` long lie on a device
/// of `size` bytes.
pub open spec fn within(size: int, off: int, len: int) -> int {
    if off >= size {
        0
    } else if off + len <= size {
        len
    } else {
        size - off
    }
}

/// `n` sectors from sector `lba` on of a device that holds `disk`.
pub open spec fn sectors(disk: Seq<u8>, lba: int, n: int) -> Option<Seq<u8>> {
    if n == 0 {
        Some(Seq::empty())
    } else if (lba + n) * 512 <= disk.len() {
        Some(disk.subrange(lba * 512, (lba + n) * 512))
    } else {
        None
    }
}

/// Changing a page changes its bytes and no others.
pub proof fn flat_of_update(p: Pages, idx: int, off: int, data: Seq<u8>)
    requires
        full_pages(p),
        0 <= idx < p.len(),
        0 <= off,
        off + data.len() <= 4096,
    ensures
        flat(p.update(idx, bytes::splice(p[idx], off, data))) == bytes::splice(
            flat(p),
            idx * 4096 + off,
            data,
        ),
{
    let q = p.update(idx, bytes::splice(p[idx], off, data));
    assert forall|i: int| 0 <= i < flat(q).len() implies flat(q)[i] == bytes::splice(
        flat(p),
        idx * 4096 + off,
        data,
    )[i] by {
        let a = i / 4096;
        let b = i % 4096;
        assert(i == a * 4096 + b);
        assert(0 <= a < p.len());
        assert(p[a].len() == PAGE_SIZE);
        if a == idx {
            assert(idx * 4096 + off <= i < idx * 4096 + off + data.len() <==> off <= b < off
                + data.len());
        }
    }
    assert(flat(q) =~= bytes::splice(flat(p), idx * 4096 + off, data));
}

/// A run of bytes inside one page.
proof fn lemma_flat_run(p: Pages, idx: int, off: int, n: int)
    requires
        full_pages(p),
        0 <= idx < p.len(),
        0 <= off,
        0 <= n,
        off + n <= 4096,
    ensures
        idx * 4096 + off + n <= flat(p).len(),
        flat(p).subrange(idx * 4096 + off, idx * 4096 + off + n) == p[idx].subrange(off, off + n),
{
    assert(p[idx].len() == PAGE_SIZE);
    assert(idx * 4096 + 4096 <= p.len() * 4096);
    let a = flat(p).subrange(idx * 4096 + off, idx * 4096 + off + n);
    let b = p[idx].subrange(off, off + n);
    assert forall|i: int| 0 <= i < n implies a[i] == b[i] by {
        let j = idx * 4096 + off + i;
        assert(j / 4096 == idx && j % 4096 == off + i);
    }
    assert(a =~= b);
}

/// A device and its cache.
pub struct BlockDevice {
    pub device_id: u64,
    pub disk: Vec<Vec<u8>>,
    pub cache: BlockPageCache,
}

/// Whether the `len` bytes from `off` on lie on page `i` in part.
pub open spec fn touches(off: int, len: int, i: int) -> bool {
    len > 0 && off / 4096 <= i && i * 4096 < off + len
}

/// A device together with what the journal keeps from its medium: the blocks that wait for a
/// transaction to be committed, each with the transaction's sequence number.
pub struct Site {
    pub tracker: Map<u64, u64>,
    pub device: BlockDevice,
}

/// A device and a tracker.
pub open spec fn site(d: BlockDevice, t: CheckpointTracker) -> Site {
    Site { tracker: t.seqs@, device: d }
}

/// Whether reading may lead from `a` to `b`: pages, medium and what is dirty stay.
pub open spec fn looked(a: Site, b: Site) -> bool {
    &&& b.tracker == a.tracker
    &&& b.device.device_id == a.device.device_id
    &&& b.device.clock() == a.device.clock()
    &&& b.device@ == a.device@
    &&& b.device.persisted() == a.device.persisted()
    &&& b.device.dirty() == a.device.dirty()
}

/// Whether writing page `idx` through the cache may lead from `a` to `b`. The page waits in the
/// cache; only if it has no room there it goes to the medium.
pub open spec fn cached_write(a: Site, idx: u64, data: Seq<u8>, b: Site) -> bool {
    &&& idx < a.device@.len()
    &&& data.len() == PAGE_SIZE
    &&& b.device.device_id == a.device.device_id
    &&& b.device.clock() == a.device.clock()
    &&& b.device@ == a.device@.update(idx as int, data)
    &&& if a.device.fits(idx) {
        &&& b.tracker == a.tracker
        &&& b.device.persisted() == a.device.persisted()
        &&& b.device.dirty() == a.device.dirty().insert(idx)
    } else {
        &&& b.tracker == a.tracker.remove(idx)
        &&& b.device.persisted() == a.device.persisted().update(idx as int, data)
        &&& b.device.dirty() == a.device.dirty()
    }
}

/// Whether writing page `idx` to the medium around the cache leads from `a` to `b`.
pub open spec fn direct_write(a: Site, idx: u64, data: Seq<u8>, b: Site) -> bool {
    &&& idx < a.device@.len()
    &&& data.len() == PAGE_SIZE
    &&& b.device.device_id == a.device.device_id
    &&& b.device.clock() == a.device.clock()
    &&& b.device@ == a.device@.update(idx as int, data)
    &&& b.tracker == a.tracker.remove(idx)
    &&& b.device.persisted() == a.device.persisted().update(idx as int, data)
    &&& b.device.dirty() == a.device.dirty().remove(idx)
}

/// A page with its contents.
pub type PageWrite = (u64, Seq<u8>);

/// Whether one read, or one write through the cache of a page in `c`, may lead from `a` to `b`.
pub open spec fn quiet(a: Site, b: Site, c: Set<u64>) -> bool {
    ||| looked(a, b)
    ||| exists|idx: u64, data: Seq<u8>| c.contains(idx) && #[trigger] cached_write(a, idx, data, b)
}

/// Whether one access may lead from `a` to `b`, where `before` are the writes around the cache up
/// to then and `log` those with it.
pub open spec fn hop(
    a: Site,
    b: Site,
    c: Set<u64>,
    before: Seq<PageWrite>,
    log: Seq<PageWrite>,
) -> bool {
    ||| before == log && quiet(a, b, c)
    ||| log.len() > 0 && before == log.drop_last() && direct_write(
        a,
        log.last().0,
        log.last().1,
        b,
    )
}

/// Whether `n` accesses may lead from `a` to `b`, of which those around the cache are `log` and
/// those through it write pages in `c`.
pub open spec fn accesses(a: Site, b: Site, c: Set<u64>, log: Seq<PageWrite>, n: nat) -> bool
    decreases n,
{
    if n == 0 {
        b == a && log.len() == 0
    } else {
        exists|m: Site, l: Seq<PageWrite>|
            accesses(a, m, c, l, (n - 1) as nat) && #[trigger] hop(m, b, c, l, log)
    }
}

/// Whether reads, writes through the cache of pages in `c`, and the writes around it that `log`
/// lists, in its order, may lead from `a` to `b`.
#[verifier::opaque]
pub open spec fn logged(a: Site, b: Site, c: Set<u64>, log: Seq<PageWrite>) -> bool {
    exists|n: nat| #[trigger] accesses(a, b, c, log, n)
}

/// Whether reads and writes through the cache of pages in `c` may lead from `a` to `b`.
#[verifier::inline]
pub open spec fn staged(a: Site, b: Site, c: Set<u64>) -> bool {
    logged(a, b, c, Seq::empty())
}

/// Whether reads, writes through the cache of pages in `c`, and any writes around it may lead from
/// `a` to `b`.
#[verifier::opaque]
pub open spec fn written(a: Site, b: Site, c: Set<u64>) -> bool {
    exists|log: Seq<PageWrite>| #[trigger] logged(a, b, c, log)
}

proof fn lemma_accesses_join(
    a: Site,
    b: Site,
    z: Site,
    c1: Set<u64>,
    c2: Set<u64>,
    l1: Seq<PageWrite>,
    l2: Seq<PageWrite>,
    n: nat,
    m: nat,
)
    requires
        accesses(a, b, c1, l1, n),
        accesses(b, z, c2, l2, m),
        c1.subset_of(c2),
    ensures
        accesses(a, z, c2, l1 + l2, n + m),
    decreases m, n,
{
    if m > 0 {
        let (x, l) = choose|x: Site, l: Seq<PageWrite>|
            accesses(b, x, c2, l, (m - 1) as nat) && #[trigger] hop(x, z, c2, l, l2);
        lemma_accesses_join(a, b, x, c1, c2, l1, l, n, (m - 1) as nat);
        assert((n + m - 1) as nat == n + (m - 1) as nat);
        if l2.len() > 0 && l == l2.drop_last() {
            assert((l1 + l2).drop_last() =~= l1 + l);
            assert((l1 + l2).last() == l2.last());
        }
        assert(accesses(a, x, c2, l1 + l, (n + m - 1) as nat) && hop(x, z, c2, l1 + l, l1 + l2));
    } else {
        assert(l1 + l2 =~= l1);
        if n > 0 {
            let (x, l) = choose|x: Site, l: Seq<PageWrite>|
                accesses(a, x, c1, l, (n - 1) as nat) && #[trigger] hop(x, b, c1, l, l1);
            assert(accesses(x, x, c2, Seq::empty(), 0));
            lemma_accesses_join(a, x, x, c1, c2, l, Seq::empty(), (n - 1) as nat, 0);
            assert(l + Seq::<PageWrite>::empty() =~= l);
            assert(accesses(a, x, c2, l, (n - 1) as nat) && hop(x, b, c2, l, l1));
        }
    }
}

proof fn lemma_one_access(a: Site, b: Site, c: Set<u64>, log: Seq<PageWrite>)
    requires
        hop(a, b, c, Seq::empty(), log),
    ensures
        logged(a, b, c, log),
{
    reveal(logged);
    assert(accesses(a, a, c, Seq::empty(), 0));
    assert(accesses(a, a, c, Seq::empty(), (1 - 1) as nat) && hop(a, b, c, Seq::empty(), log));
    assert(accesses(a, b, c, log, 1));
}

/// What happens first and what happens then.
pub proof fn logged_on(
    a: Site,
    b: Site,
    z: Site,
    c1: Set<u64>,
    c2: Set<u64>,
    l1: Seq<PageWrite>,
    l2: Seq<PageWrite>,
)
    requires
        logged(a, b, c1, l1),
        logged(b, z, c2, l2),
        c1.subset_of(c2),
    ensures
        logged(a, z, c2, l1 + l2),
{
    reveal(logged);
    let n = choose|n: nat| #[trigger] accesses(a, b, c1, l1, n);
    let m = choose|m: nat| #[trigger] accesses(b, z, c2, l2, m);
    lemma_accesses_join(a, b, z, c1, c2, l1, l2, n, m);
}

/// Doing nothing.
pub broadcast proof fn staged_nothing(a: Site, c: Set<u64>)
    ensures
        #[trigger] logged(a, a, c, Seq::empty()),
{
    assert(looked(a, a));
    lemma_one_access(a, a, c, Seq::empty());
}

/// Reading.
pub broadcast proof fn staged_read(a: Site, b: Site, c: Set<u64>)
    requires
        looked(a, b),
    ensures
        #[trigger] logged(a, b, c, Seq::empty()),
{
    lemma_one_access(a, b, c, Seq::empty());
}

/// A write through the cache.
pub broadcast proof fn staged_write(a: Site, idx: u64, data: Seq<u8>, b: Site, c: Set<u64>)
    requires
        #[trigger] cached_write(a, idx, data, b),
        c.contains(idx),
    ensures
        #[trigger] logged(a, b, c, Seq::empty()),
{
    lemma_one_access(a, b, c, Seq::empty());
}

/// A write around the cache.
pub broadcast proof fn logged_direct(a: Site, idx: u64, data: Seq<u8>, b: Site, c: Set<u64>)
    requires
        direct_write(a, idx, data, b),
    ensures
        #[trigger] logged(a, b, c, seq![(idx, data)]),
{
    let log = seq![(idx, data)];
    assert(log.drop_last() =~= Seq::<PageWrite>::empty());
    lemma_one_access(a, b, c, log);
}

/// Writes through the cache go on.
pub broadcast proof fn staged_on(a: Site, b: Site, z: Site, c1: Set<u64>, c2: Set<u64>)
    requires
        #[trigger] logged(a, b, c1, Seq::empty()),
        #[trigger] logged(b, z, c2, Seq::empty()),
        c1.subset_of(c2),
    ensures
        logged(a, z, c2, Seq::empty()),
{
    logged_on(a, b, z, c1, c2, Seq::empty(), Seq::empty());
    assert(Seq::<PageWrite>::empty() + Seq::<PageWrite>::empty() =~= Seq::<PageWrite>::empty());
}

/// Reading after that.
pub broadcast proof fn logged_then_read(
    a: Site,
    b: Site,
    z: Site,
    c: Set<u64>,
    log: Seq<PageWrite>,
)
    requires
        #[trigger] logged(a, b, c, log),
        #[trigger] looked(b, z),
    ensures
        logged(a, z, c, log),
{
    staged_read(b, z, c);
    logged_on(a, b, z, c, c, log, Seq::empty());
    assert(log + Seq::<PageWrite>::empty() =~= log);
}

/// Reading before that.
pub broadcast proof fn read_then_logged(
    a: Site,
    b: Site,
    z: Site,
    c: Set<u64>,
    log: Seq<PageWrite>,
)
    requires
        #[trigger] looked(a, b),
        #[trigger] logged(b, z, c, log),
    ensures
        logged(a, z, c, log),
{
    staged_read(a, b, c);
    logged_on(a, b, z, c, c, Seq::empty(), log);
    assert(Seq::<PageWrite>::empty() + log =~= log);
}

/// Doing nothing.
pub broadcast proof fn written_nothing(a: Site, c: Set<u64>)
    ensures
        #[trigger] written(a, a, c),
{
    reveal(written);
    staged_nothing(a, c);
}

/// Reading.
pub broadcast proof fn written_read(a: Site, b: Site, c: Set<u64>)
    requires
        looked(a, b),
    ensures
        #[trigger] written(a, b, c),
{
    reveal(written);
    staged_read(a, b, c);
}

/// Any writes around the cache.
pub broadcast proof fn written_logged(a: Site, b: Site, c: Set<u64>, log: Seq<PageWrite>)
    requires
        #[trigger] logged(a, b, c, log),
    ensures
        written(a, b, c),
{
    reveal(written);
}

/// Writing goes on.
pub broadcast proof fn written_on(a: Site, b: Site, z: Site, c1: Set<u64>, c2: Set<u64>)
    requires
        #[trigger] written(a, b, c1),
        #[trigger] written(b, z, c2),
        c1.subset_of(c2),
    ensures
        written(a, z, c2),
{
    reveal(written);
    let l1 = choose|l: Seq<PageWrite>| #[trigger] logged(a, b, c1, l);
    let l2 = choose|l: Seq<PageWrite>| #[trigger] logged(b, z, c2, l);
    logged_on(a, b, z, c1, c2, l1, l2);
}

/// Reading after that.
pub broadcast proof fn written_then_read(a: Site, b: Site, z: Site, c: Set<u64>)
    requires
        #[trigger] written(a, b, c),
        #[trigger] looked(b, z),
    ensures
        written(a, z, c),
{
    reveal(written);
    let l = choose|l: Seq<PageWrite>| #[trigger] logged(a, b, c, l);
    logged_then_read(a, b, z, c, l);
}

/// Reading before that.
pub broadcast proof fn read_then_written(a: Site, b: Site, z: Site, c: Set<u64>)
    requires
        #[trigger] looked(a, b),
        #[trigger] written(b, z, c),
    ensures
        written(a, z, c),
{
    reveal(written);
    let l = choose|l: Seq<PageWrite>| #[trigger] logged(b, z, c, l);
    read_then_logged(a, b, z, c, l);
}

// ---- What is on the medium then ---------------------------------------------------------

/// Whether page `p` is on the medium with the given contents, and not only in the cache.
pub open spec fn at_home(s: Site, p: u64, data: Seq<u8>) -> bool {
    &&& p < s.device@.len()
    &&& s.device@[p as int] == data
    &&& s.device.persisted()[p as int] == data
    &&& !s.device.dirty().contains(p)
}

/// Whether entry `j` of `log` is the last that writes its page.
pub open spec fn last_write(log: Seq<PageWrite>, j: int) -> bool {
    forall|k: int| j < k < log.len() ==> (#[trigger] log[k]).0 != log[j].0
}

/// Whether what the writes of `log` left is on the medium.
pub open spec fn all_home(s: Site, log: Seq<PageWrite>) -> bool {
    forall|j: int|
        0 <= j < log.len() && last_write(log, j) ==> at_home(s, (#[trigger] log[j]).0, log[j].1)
}

proof fn lemma_stays(a: Site, b: Site, c: Set<u64>, log: Seq<PageWrite>, p: u64, data: Seq<u8>, n: nat)
    requires
        accesses(a, b, c, log, n),
        a.device.persisted().len() == a.device@.len(),
        at_home(a, p, data),
        !c.contains(p),
        forall|k: int| 0 <= k < log.len() ==> (#[trigger] log[k]).0 != p,
    ensures
        at_home(b, p, data),
    decreases n,
{
    if n > 0 {
        let (x, l) = choose|x: Site, l: Seq<PageWrite>|
            accesses(a, x, c, l, (n - 1) as nat) && #[trigger] hop(x, b, c, l, log);
        lemma_lengths(a, x, c, l, (n - 1) as nat);
        assert forall|k: int| 0 <= k < l.len() implies (#[trigger] l[k]).0 != p by {
            assert(log[k].0 != p);
        }
        lemma_stays(a, x, c, l, p, data, (n - 1) as nat);
        if log.len() > l.len() {
            assert(log[log.len() - 1].0 != p);
        }
    }
}

/// What is on the medium stays there until its page is written again.
pub proof fn home_stays(
    a: Site,
    b: Site,
    c: Set<u64>,
    log: Seq<PageWrite>,
    p: u64,
    data: Seq<u8>,
)
    requires
        logged(a, b, c, log),
        a.device.persisted().len() == a.device@.len(),
        at_home(a, p, data),
        !c.contains(p),
        forall|k: int| 0 <= k < log.len() ==> (#[trigger] log[k]).0 != p,
    ensures
        at_home(b, p, data),
{
    reveal(logged);
    let n = choose|n: nat| #[trigger] accesses(a, b, c, log, n);
    lemma_stays(a, b, c, log, p, data, n);
}

proof fn lemma_lengths(a: Site, b: Site, c: Set<u64>, log: Seq<PageWrite>, n: nat)
    requires
        accesses(a, b, c, log, n),
        a.device.persisted().len() == a.device@.len(),
    ensures
        b.device@.len() == a.device@.len(),
        b.device.persisted().len() == a.device@.len(),
        b.tracker.submap_of(a.tracker),
    decreases n,
{
    if n > 0 {
        let (x, l) = choose|x: Site, l: Seq<PageWrite>|
            accesses(a, x, c, l, (n - 1) as nat) && #[trigger] hop(x, b, c, l, log);
        lemma_lengths(a, x, c, l, (n - 1) as nat);
        assert(b.tracker.submap_of(x.tracker));
        assert forall|k: u64| b.tracker.contains_key(k) implies #[trigger] a.tracker.contains_key(k)
            && a.tracker[k] == b.tracker[k] by {
            assert(x.tracker.dom().contains(k));
            assert(a.tracker.dom().contains(k));
        }
    }
}

proof fn lemma_home(a: Site, b: Site, c: Set<u64>, log: Seq<PageWrite>, j: int, n: nat)
    requires
        accesses(a, b, c, log, n),
        a.device.persisted().len() == a.device@.len(),
        0 <= j < log.len(),
        last_write(log, j),
        !c.contains(log[j].0),
    ensures
        at_home(b, log[j].0, log[j].1),
    decreases n,
{
    if n > 0 {
        let (x, l) = choose|x: Site, l: Seq<PageWrite>|
            accesses(a, x, c, l, (n - 1) as nat) && #[trigger] hop(x, b, c, l, log);
        lemma_lengths(a, x, c, l, (n - 1) as nat);
        if l.len() == log.len() {
            lemma_home(a, x, c, l, j, (n - 1) as nat);
        } else if j < l.len() {
            assert(l[j] == log[j]);
            assert(last_write(l, j)) by {
                assert forall|k: int| j < k < l.len() implies (#[trigger] l[k]).0 != l[j].0 by {
                    assert(log[k].0 != log[j].0);
                }
            }
            lemma_home(a, x, c, l, j, (n - 1) as nat);
            assert(log[log.len() - 1].0 != log[j].0);
        }
    }
}

/// Data that was written around the cache is on the medium, unless its page was written through
/// the cache too, or around it again.
pub proof fn logged_data_is_home(a: Site, b: Site, c: Set<u64>, log: Seq<PageWrite>, j: int)
    requires
        logged(a, b, c, log),
        a.device.persisted().len() == a.device@.len(),
        0 <= j < log.len(),
        last_write(log, j),
        !c.contains(log[j].0),
    ensures
        at_home(b, log[j].0, log[j].1),
{
    reveal(logged);
    let n = choose|n: nat| #[trigger] accesses(a, b, c, log, n);
    lemma_home(a, b, c, log, j, n);
}

proof fn lemma_landed(
    a: Site,
    b: Site,
    c: Set<u64>,
    log: Seq<PageWrite>,
    j: int,
    n: nat,
) -> (m: Site)
    requires
        accesses(a, b, c, log, n),
        a.device.persisted().len() == a.device@.len(),
        0 <= j < log.len(),
    ensures
        at_home(m, log[j].0, log[j].1),
        logged(a, m, c, log.take(j + 1)),
        logged(m, b, c, log.skip(j + 1)),
    decreases n,
{
    let (x, l) = choose|x: Site, l: Seq<PageWrite>|
        accesses(a, x, c, l, (n - 1) as nat) && #[trigger] hop(x, b, c, l, log);
    lemma_lengths(a, x, c, l, (n - 1) as nat);
    if j < l.len() {
        let m = lemma_landed(a, x, c, l, j, (n - 1) as nat);
        assert(l.take(j + 1) =~= log.take(j + 1));
        let rest = log.skip(l.len() as int);
        assert(hop(x, b, c, Seq::empty(), rest)) by {
            if l.len() < log.len() {
                assert(rest.drop_last() =~= Seq::<PageWrite>::empty());
                assert(rest.last() == log.last());
            } else {
                assert(rest =~= Seq::<PageWrite>::empty());
            }
        }
        lemma_one_access(x, b, c, rest);
        logged_on(m, x, b, c, c, l.skip(j + 1), rest);
        assert(l.skip(j + 1) + rest =~= log.skip(j + 1));
        m
    } else {
        assert(j == log.len() - 1);
        assert(log.take(j + 1) =~= log);
        assert(log.skip(j + 1) =~= Seq::<PageWrite>::empty());
        assert(logged(a, b, c, log)) by {
            reveal(logged);
        }
        staged_nothing(b, c);
        b
    }
}

/// Each write around the cache puts its data on the medium, where it stays until its page is
/// written again.
pub proof fn logged_data_lands(
    a: Site,
    b: Site,
    c: Set<u64>,
    log: Seq<PageWrite>,
    j: int,
) -> (m: Site)
    requires
        logged(a, b, c, log),
        a.device.persisted().len() == a.device@.len(),
        0 <= j < log.len(),
    ensures
        at_home(m, log[j].0, log[j].1),
        logged(a, m, c, log.take(j + 1)),
        logged(m, b, c, log.skip(j + 1)),
{
    reveal(logged);
    let n = choose|n: nat| #[trigger] accesses(a, b, c, log, n);
    lemma_landed(a, b, c, log, j, n)
}

/// Whether page `k` was touched on its way from `a` to `b`: the medium has it anew, or it is no
/// longer dirty, or no longer waits for a transaction.
pub open spec fn let_go(a: Site, b: Site, k: u64) -> bool {
    ||| b.device.persisted()[k as int] != a.device.persisted()[k as int]
    ||| a.device.dirty().contains(k) && !b.device.dirty().contains(k)
    ||| a.tracker.contains_key(k) && !b.tracker.contains_key(k)
}

proof fn lemma_let_go(a: Site, b: Site, c: Set<u64>, k: u64, n: nat) -> (m: Site)
    requires
        accesses(a, b, c, Seq::empty(), n),
        k < a.device@.len(),
        a.device.persisted().len() == a.device@.len(),
    ensures
        let_go(a, b, k) ==> staged(a, m, c) && staged(m, b, c) && !m.device.fits(k)
            && c.contains(k),
    decreases n,
{
    if n == 0 {
        a
    } else {
        let none = Seq::<PageWrite>::empty();
        let (x, l) = choose|x: Site, l: Seq<PageWrite>|
            accesses(a, x, c, l, (n - 1) as nat) && #[trigger] hop(x, b, c, l, none);
        assert(l =~= none);
        lemma_lengths(a, x, c, none, (n - 1) as nat);
        let m = lemma_let_go(a, x, c, k, (n - 1) as nat);
        assert(staged(a, x, c)) by {
            reveal(logged);
        }
        lemma_one_access(x, b, c, none);
        if let_go(a, x, k) {
            staged_on(m, x, b, c, c);
            m
        } else {
            x
        }
    }
}

/// Writing through the cache adds nothing to what waits for a transaction.
pub proof fn waiting_shrinks(a: Site, b: Site, c: Set<u64>)
    requires
        staged(a, b, c),
        a.device.persisted().len() == a.device@.len(),
    ensures
        b.tracker.submap_of(a.tracker),
        b.device@.len() == a.device@.len(),
        b.device.persisted().len() == a.device@.len(),
{
    reveal(logged);
    let n = choose|n: nat| accesses(a, b, c, Seq::empty(), n);
    lemma_lengths(a, b, c, Seq::empty(), n);
}

/// What is written through the cache waits there: a page that is not among those written, or that
/// the cache always has room for, keeps its copy on the medium, stays dirty and waits for its
/// transaction. Nothing is added to what waits.
pub proof fn medium_waits(a: Site, b: Site, c: Set<u64>, k: u64)
    requires
        staged(a, b, c),
        k < a.device@.len(),
        a.device.persisted().len() == a.device@.len(),
        !c.contains(k) || forall|m: Site|
            staged(a, m, c) && #[trigger] staged(m, b, c) ==> m.device.fits(k),
    ensures
        b.device.persisted()[k as int] == a.device.persisted()[k as int],
        a.device.dirty().contains(k) ==> b.device.dirty().contains(k),
        a.tracker.contains_key(k) ==> b.tracker.contains_key(k),
        b.tracker.submap_of(a.tracker),
{
    waiting_shrinks(a, b, c);
    let n = choose|n: nat| accesses(a, b, c, Seq::empty(), n);
    assert(accesses(a, b, c, Seq::empty(), n)) by {
        reveal(logged);
    }
    let m = lemma_let_go(a, b, c, k, n);
    assert(!let_go(a, b, k));
}

/// How writing through the cache comes about.
pub broadcast group staging {
    staged_nothing,
    staged_read,
    staged_write,
    staged_on,
    logged_then_read,
    read_then_logged,
}

/// How writing comes about.
pub broadcast group writing {
    staging,
    logged_direct,
    written_nothing,
    written_read,
    written_logged,
    written_on,
    written_then_read,
    read_then_written,
}

impl View for BlockDevice {
    type V = Pages;

    closed spec fn view(&self) -> Pages {
        self.cache.contents(self.disk@)
    }
}

impl BlockDevice {
    pub closed spec fn wf(&self) -> bool {
        &&& self.cache.wf(self.disk@)
        &&& self.cache.device_id == self.device_id
    }

    /// The pages whose home copy is older than the cached one.
    pub closed spec fn dirty(&self) -> Set<u64> {
        self.cache.dirty()
    }

    /// What is on the medium, and would be found after a loss of power.
    pub closed spec fn persisted(&self) -> Pages {
        block_page_cache::home(self.disk@)
    }

    /// The time in milliseconds that new dirty pages are stamped with.
    pub closed spec fn clock(&self) -> u64 {
        self.cache.clock
    }

    /// The pages a writeback pass writes out: dirty, committed, and old enough
    /// unless the pass is forced.
    pub closed spec fn due_set(&self, tracker: CheckpointTracker, force: bool) -> Set<u64> {
        self.cache.due_set(tracker, force)
    }

    /// Whether the cache holds page `idx` or can: a page that it cannot is written to the medium
    /// at once.
    pub closed spec fn fits(&self, idx: u64) -> bool {
        self.cache.fits(idx)
    }

    /// Every page has its full size, and a page that is not dirty is on the medium
    /// as it is seen.
    pub proof fn lemma_wf(&self)
        requires
            self.wf(),
        ensures
            full_pages(self@),
            full_pages(self.persisted()),
            self.persisted().len() == self@.len(),
            forall|i: int|
                0 <= i < self@.len() && !self.dirty().contains(i as u64) ==> #[trigger] self@[i]
                    == self.persisted()[i],
            forall|k: u64| #[trigger] self.dirty().contains(k) ==> k < self@.len(),
    {
        let home = block_page_cache::home(self.disk@);
        assert forall|i: int| 0 <= i < self@.len() implies (#[trigger] self@[i]).len()
            == PAGE_SIZE by {
            assert(home[i].len() == PAGE_SIZE);
            let k = i as u64;
            if self.cache.held(k) {
                crate::shard::lemma_shard_of(self.cache.device_id, k);
                self.cache.shards@[crate::shard::shard_of(self.cache.device_id, k)].lemma_wf();
            }
        }
    }

    /// A forced pass picks every dirty page that the journal lets go.
    pub proof fn lemma_forced(&self, tracker: CheckpointTracker)
        requires
            self.wf(),
        ensures
            self.due_set(tracker, true) == self.dirty().filter(|k: u64| tracker.flushable(k)),
            forall|force: bool, k: u64| #[trigger] self.due_set(tracker, force).contains(k)
                ==> self.dirty().contains(k) && tracker.flushable(k),
    {
        assert(self.due_set(tracker, true) =~= self.dirty().filter(
            |k: u64| tracker.flushable(k),
        ));
    }

    /// A device with the given pages on its medium and nothing cached.
    pub fn new(device_id: u64, disk: Vec<Vec<u8>>) -> (r: BlockDevice)
        requires
            full_pages(block_page_cache::home(disk@)),
        ensures
            r.wf(),
            r.device_id == device_id,
            r@ == block_page_cache::home(disk@),
            r.persisted() == r@,
            r.dirty() == Set::<u64>::empty(),
            r.clock() == 0,
    {
        let cache = BlockPageCache::new(device_id);
        let ghost d = disk@;
        assert(cache.wf(d));
        BlockDevice { device_id, disk, cache }
    }

    /// A device whose medium holds `image`; bytes past the last full page are left
    /// out.
    pub fn from_image(device_id: u64, image: &[u8]) -> (r: BlockDevice)
        requires
            image.len() / 4096 < MAX_PAGES,
        ensures
            r.wf(),
            r.device_id == device_id,
            r@.len() == image@.len() / 4096,
            flat(r@) == image@.take(image@.len() as int / 4096 * 4096),
            r.persisted() == r@,
            r.dirty() == Set::<u64>::empty(),
            r.clock() == 0,
    {
        let n: usize = image.len() / 4096;
        let mut disk: Vec<Vec<u8>> = Vec::new();
        let mut i: usize = 0;
        while i < n
            invariant
                i <= n,
                n == image@.len() / 4096,
                disk@.len() == i,
                forall|k: int|
                    0 <= k < i ==> (#[trigger] disk@[k])@ == image@.subrange(
                        k * 4096,
                        k * 4096 + 4096,
                    ),
            decreases n - i,
        {
            assert(i * 4096 + 4096 <= image.len());
            disk.push(sub_vec(image, i * 4096, i * 4096 + 4096));
            i = i + 1;
        }
        proof {
            let p = block_page_cache::home(disk@);
            assert forall|k: int| 0 <= k < p.len() implies (#[trigger] p[k]).len()
                == PAGE_SIZE by {
                assert(disk@[k]@.len() == 4096);
            }
            assert forall|k: int| 0 <= k < flat(p).len() implies flat(p)[k] == image@[k] by {
                let a = k / 4096;
                assert(0 <= a < n);
                assert(p[a] == disk@[a]@);
            }
            assert(flat(p) =~= image@.take(n * 4096));
        }
        BlockDevice::new(device_id, disk)
    }

    /// Sets the time that new dirty pages are stamped with and that expiry is
    /// measured against.
    pub fn set_clock(&mut self, now: u64)
        requires
            old(self).wf(),
        ensures
            final(self).wf(),
            final(self).device_id == old(self).device_id,
            final(self)@ == old(self)@,
            final(self).persisted() == old(self).persisted(),
            final(self).dirty() == old(self).dirty(),
            final(self).clock() == now,
    {
        self.cache.clock = now;
        assert(self@ =~= old(self)@);
        assert(self.dirty() =~= old(self).dirty());
    }

    /// How many pages the device has.
    pub fn page_count(&self) -> (n: u64)
        requires
            self.wf(),
        ensures
            n == self@.len(),
    {
        self.disk.len() as u64
    }

    /// Whether the page's home copy is older than the cached one.
    pub fn is_dirty(&self, idx: u64) -> (r: bool)
        requires
            self.wf(),
        ensures
            r == self.dirty().contains(idx),
    {
        self.cache.is_dirty(idx)
    }

    /// What is on the medium at page `idx`.
    pub fn home_page(&self, idx: u64) -> (r: Option<Vec<u8>>)
        requires
            self.wf(),
        ensures
            match r {
                Some(p) => idx < self@.len() && p@ == self.persisted()[idx as int],
                None => idx >= self@.len(),
            },
    {
        if idx >= self.disk.len() as u64 {
            return None;
        }
        Some(copy_vec(self.disk[idx as usize].as_slice()))
    }

    /// Fetches a page.
    pub fn read_page(&mut self, idx: u64) -> (r: Result<Vec<u8>, Error>)
        requires
            old(self).wf(),
        ensures
            final(self).wf(),
            final(self).device_id == old(self).device_id,
            final(self)@ == old(self)@,
            final(self).persisted() == old(self).persisted(),
            final(self).dirty() == old(self).dirty(),
            final(self).clock() == old(self).clock(),
            r matches Ok(p) ==> idx < old(self)@.len() && p@ == old(self)@[idx as int] && p@.len()
                == PAGE_SIZE,
            r matches Err(e) ==> idx >= old(self)@.len() && e == Error::IoError,
    {
        if idx >= self.disk.len() as u64 {
            return Err(Error::IoError);
        }
        Ok(self.cache.read_page(&self.disk, idx).0)
    }

    /// Fetches consecutive pages.
    pub fn read_pages(&mut self, start: u64, count: usize) -> (r: Result<Vec<Vec<u8>>, Error>)
        requires
            old(self).wf(),
        ensures
            final(self).wf(),
            final(self).device_id == old(self).device_id,
            final(self)@ == old(self)@,
            final(self).persisted() == old(self).persisted(),
            final(self).dirty() == old(self).dirty(),
            final(self).clock() == old(self).clock(),
            r matches Ok(ps) ==> block_page_cache::home(ps@) == old(self)@.subrange(
                start as int,
                start + count,
            ) || count == 0 && ps@.len() == 0,
            r is Ok <==> count == 0 || start + count <= old(self)@.len(),
            r matches Err(e) ==> e == Error::IoError,
    {
        if count as u64 > u64::MAX - start {
            return Err(Error::IoError);
        }
        let r = self.cache.read_pages(&self.disk, start, count);
        proof {
            if r is Ok && count > 0 {
                assert(block_page_cache::home(r->Ok_0@) =~= old(self)@.subrange(
                    start as int,
                    start + count,
                ));
            }
        }
        r
    }

    /// Overwrites a page. It then waits in the cache to be written out, or is on the medium if
    /// the cache has no room for it.
    pub fn write_page(&mut self, tracker: &mut CheckpointTracker, idx: u64, data: &[u8]) -> (r:
        Result<(), Error>)
        requires
            old(self).wf(),
            data@.len() == PAGE_SIZE,
        ensures
            final(self).wf(),
            final(tracker).committed_seq == old(tracker).committed_seq,
            final(tracker).paused == old(tracker).paused,
            r is Ok ==> cached_write(
                site(*old(self), *old(tracker)),
                idx,
                data@,
                site(*final(self), *final(tracker)),
            ),
            r matches Err(e) ==> idx >= old(self)@.len() && e == Error::IoError && *final(self)
                == *old(self) && *final(tracker) == *old(tracker),
    {
        if idx >= self.disk.len() as u64 {
            return Err(Error::IoError);
        }
        self.cache.write_page(&mut self.disk, tracker, idx, copy_vec(data));
        assert(self.disk@.len() == self@.len());
        Ok(())
    }

    /// Overwrites a page on the medium itself, around the cache: whatever is cached
    /// of it is older and goes.
    pub fn write_direct(&mut self, tracker: &mut CheckpointTracker, idx: u64, data: &[u8]) -> (r:
        Result<(), Error>)
        requires
            old(self).wf(),
            data@.len() == PAGE_SIZE,
        ensures
            final(self).wf(),
            final(tracker).committed_seq == old(tracker).committed_seq,
            final(tracker).paused == old(tracker).paused,
            r is Ok ==> direct_write(
                site(*old(self), *old(tracker)),
                idx,
                data@,
                site(*final(self), *final(tracker)),
            ),
            r matches Err(e) ==> idx >= old(self)@.len() && e == Error::IoError && *final(self)
                == *old(self) && *final(tracker) == *old(tracker),
    {
        if idx >= self.disk.len() as u64 {
            return Err(Error::IoError);
        }
        let ghost d0 = *self;
        let ghost t0 = *tracker;
        self.cache.invalidate_pages(&self.disk, tracker, idx, 1);
        let ghost mid = *self;
        assert(idx < self.disk.len());
        self.disk[idx as usize] = copy_vec(data);
        proof {
            let one = Set::new(|k: u64| idx <= k < idx + 1);
            assert(t0.seqs@.remove_keys(one) =~= t0.seqs@.remove(idx));
            assert(d0.dirty().difference(one) =~= d0.dirty().remove(idx));
            assert(self.persisted() =~= d0.persisted().update(idx as int, data@));
            assert forall|i: int| 0 <= i < self.persisted().len() implies (
            #[trigger] self.persisted()[i]).len() == PAGE_SIZE by {
                if i != idx {
                    assert(self.persisted()[i] == d0.persisted()[i]);
                }
            }
            assert forall|k: u64| #[trigger] self.cache.held(k) implies self.cache.page(k)
                == d0.cache.page(k) && k != idx by {
                assert(mid.cache.held(k));
            }
            assert(self.cache.dirty() =~= mid.cache.dirty());
            assert(self@ =~= d0@.update(idx as int, data@));
        }
        Ok(())
    }

    /// Copies `len` bytes from byte offset `off` on.
    pub fn read_bytes(&mut self, off: u64, len: usize) -> (r: Result<Vec<u8>, Error>)
        requires
            old(self).wf(),
        ensures
            final(self).wf(),
            final(self).device_id == old(self).device_id,
            final(self)@ == old(self)@,
            final(self).persisted() == old(self).persisted(),
            final(self).dirty() == old(self).dirty(),
            final(self).clock() == old(self).clock(),
            r is Ok <==> len == 0 || off + len <= flat(old(self)@).len(),
            r matches Ok(b) ==> b@.len() == len && (len > 0 ==> b@ == flat(old(self)@).subrange(
                off as int,
                off + len,
            )),
            r matches Err(e) ==> e == Error::IoError,
    {
        let mut out: Vec<u8> = Vec::new();
        let mut done: usize = 0;
        let ghost d0 = *self;
        proof {
            d0.lemma_wf();
        }
        while done < len
            invariant
                done <= len,
                d0 == *old(self),
                self.wf(),
                self.device_id == d0.device_id,
                self@ == d0@,
                self.persisted() == d0.persisted(),
                self.dirty() == d0.dirty(),
                self.clock() == d0.clock(),
                full_pages(d0@),
                out@.len() == done,
                done > 0 ==> off + done <= flat(d0@).len() && out@ == flat(d0@).subrange(
                    off as int,
                    off + done,
                ),
            decreases len - done,
        {
            let pos: u64 = off + done as u64;
            let idx: u64 = pos / 4096;
            let in_page: usize = (pos % 4096) as usize;
            let chunk: usize = if 4096 - in_page < len - done {
                4096 - in_page
            } else {
                len - done
            };
            match self.read_page(idx) {
                Ok(p) => {
                    let piece = sub_vec(p.as_slice(), in_page, in_page + chunk);
                    proof {
                        lemma_flat_run(d0@, idx as int, in_page as int, chunk as int);
                        assert(idx * 4096 + in_page == pos);
                    }
                    push_slice(&mut out, piece.as_slice());
                    assert(out@ =~= flat(d0@).subrange(off as int, off + done + chunk));
                },
                Err(e) => {
                    assert(off + len > flat(d0@).len());
                    return Err(e);
                },
            }
            done = done + chunk;
        }
        Ok(out)
    }

    /// Reads `n` sectors of 512 bytes from sector `lba` on.
    pub fn read_sectors(&mut self, lba: u64, n: u16) -> (r: Result<Vec<u8>, Error>)
        requires
            old(self).wf(),
        ensures
            final(self).wf(),
            final(self).device_id == old(self).device_id,
            final(self)@ == old(self)@,
            final(self).persisted() == old(self).persisted(),
            final(self).dirty() == old(self).dirty(),
            final(self).clock() == old(self).clock(),
            match r {
                Ok(d) => sectors(flat(old(self)@), lba as int, n as int) == Some(d@) && d@.len() == n
                    * 512,
                Err(e) => sectors(flat(old(self)@), lba as int, n as int) is None && e
                    == Error::IoError,
            },
    {
        proof {
            self.lemma_wf();
        }
        if n == 0 {
            let none: Vec<u8> = Vec::new();
            assert(none@ =~= Seq::<u8>::empty());
            return Ok(none);
        }
        if lba / 8 >= self.page_count() {
            return Err(Error::IoError);
        }
        self.read_bytes(lba * 512, n as usize * 512)
    }

    /// Writes `data` from byte offset `off` on, page by page; each page is read
    /// before it is patched, so the bytes around the range stay. Stops with an error
    /// at the end of the device.
    pub fn write_bytes(&mut self, tracker: &mut CheckpointTracker, off: u64, data: &[u8]) -> (r:
        Result<(), Error>)
        requires
            old(self).wf(),
        ensures
            final(self).wf(),
            final(self).device_id == old(self).device_id,
            final(self).clock() == old(self).clock(),
            final(tracker).committed_seq == old(tracker).committed_seq,
            final(tracker).paused == old(tracker).paused,
            staged(
                site(*old(self), *old(tracker)),
                site(*final(self), *final(tracker)),
                Set::full(),
            ),
            final(self)@.len() == old(self)@.len(),
            r is Ok <==> data@.len() == 0 || off + data@.len() <= flat(old(self)@).len(),
            r matches Err(e) ==> e == Error::IoError,
            flat(final(self)@) == bytes::splice(
                flat(old(self)@),
                off as int,
                data@.take(within(flat(old(self)@).len() as int, off as int, data@.len() as int)),
            ),
    {
        let mut done: usize = 0;
        let len: usize = data.len();
        let ghost d0 = *self;
        let ghost s0 = site(*self, *tracker);
        proof {
            staged_nothing(s0, Set::full());
            d0.lemma_wf();
            assert(flat(d0@) =~= bytes::splice(flat(d0@), off as int, data@.take(0)));
        }
        while done < len
            invariant
                done <= len,
                len == data@.len(),
                d0 == *old(self),
                s0 == site(*old(self), *old(tracker)),
                staged(s0, site(*self, *tracker), Set::full()),
                tracker.committed_seq == old(tracker).committed_seq,
                tracker.paused == old(tracker).paused,
                self.wf(),
                self.device_id == d0.device_id,
                self.clock() == d0.clock(),
                self@.len() == d0@.len(),
                full_pages(d0@),
                done > 0 ==> off + done <= flat(d0@).len(),
                flat(self@) == bytes::splice(flat(d0@), off as int, data@.take(done as int)),
            decreases len - done,
        {
            let pos: u64 = off + done as u64;
            let idx: u64 = pos / 4096;
            let in_page: usize = (pos % 4096) as usize;
            let chunk: usize = if 4096 - in_page < len - done {
                4096 - in_page
            } else {
                len - done
            };
            let ghost before = self@;
            let ghost s1 = site(*self, *tracker);
            proof {
                self.lemma_wf();
            }
            let got = self.read_page(idx);
            let ghost s2 = site(*self, *tracker);
            proof {
                staged_read(s1, s2, Set::full());
                staged_on(s0, s1, s2, Set::full(), Set::full());
            }
            match got {
                Ok(p) => {
                    let mut p = p;
                    let piece = sub_vec(data, done, done + chunk);
                    write_at(&mut p, in_page, piece.as_slice());
                    match self.write_page(tracker, idx, p.as_slice()) {
                        Ok(_) => {},
                        Err(e) => {
                            return Err(e);
                        },
                    }
                    proof {
                        staged_write(s2, idx, p@, site(*self, *tracker), Set::full());
                        staged_on(s0, s2, site(*self, *tracker), Set::full(), Set::full());
                        flat_of_update(before, idx as int, in_page as int, piece@);
                        assert(idx * 4096 + in_page == pos);
                        assert(idx * 4096 + 4096 <= before.len() * 4096);
                        assert(flat(self@) =~= bytes::splice(
                            flat(d0@),
                            off as int,
                            data@.take(done + chunk),
                        ));
                    }
                },
                Err(e) => {
                    assert(off + len > flat(d0@).len());
                    assert(pos >= flat(d0@).len());
                    return Err(e);
                },
            }
            done = done + chunk;
        }
        Ok(())
    }

    /// Writes `data` from byte offset `off` on to the medium itself, around the cache, page by
    /// page; the bytes around the range stay. Stops with an error at the end of the device.
    pub fn write_bytes_direct(&mut self, tracker: &mut CheckpointTracker, off: u64, data: &[u8])
        -> (r: Result<(), Error>)
        requires
            old(self).wf(),
        ensures
            final(self).wf(),
            final(self).device_id == old(self).device_id,
            final(self).clock() == old(self).clock(),
            final(tracker).committed_seq == old(tracker).committed_seq,
            final(tracker).paused == old(tracker).paused,
            written(
                site(*old(self), *old(tracker)),
                site(*final(self), *final(tracker)),
                Set::full(),
            ),
            final(self)@.len() == old(self)@.len(),
            r is Ok <==> data@.len() == 0 || off + data@.len() <= flat(old(self)@).len(),
            r matches Err(e) ==> e == Error::IoError,
            flat(final(self)@) == bytes::splice(
                flat(old(self)@),
                off as int,
                data@.take(within(flat(old(self)@).len() as int, off as int, data@.len() as int)),
            ),
            forall|i: int|
                i < old(self)@.len() && touches(off as int, data@.len() as int, i)
                    ==> #[trigger] final(self).persisted()[i] == final(self)@[i],
            forall|i: int|
                0 <= i < old(self)@.len() && !touches(off as int, data@.len() as int, i)
                    ==> #[trigger] final(self).persisted()[i] == old(self).persisted()[i],
    {
        let mut done: usize = 0;
        let len: usize = data.len();
        let ghost d0 = *self;
        let ghost s0 = site(*self, *tracker);
        proof {
            staged_nothing(s0, Set::full());
            written_nothing(s0, Set::full());
            d0.lemma_wf();
            assert(flat(d0@) =~= bytes::splice(flat(d0@), off as int, data@.take(0)));
        }
        while done < len
            invariant
                done <= len,
                len == data@.len(),
                d0 == *old(self),
                s0 == site(*old(self), *old(tracker)),
                written(s0, site(*self, *tracker), Set::full()),
                tracker.committed_seq == old(tracker).committed_seq,
                tracker.paused == old(tracker).paused,
                self.wf(),
                self.device_id == d0.device_id,
                self.clock() == d0.clock(),
                self@.len() == d0@.len(),
                self.persisted().len() == d0@.len(),
                full_pages(d0@),
                done > 0 ==> off + done <= flat(d0@).len(),
                done > 0 && done < len ==> (off + done) % 4096 == 0,
                flat(self@) == bytes::splice(flat(d0@), off as int, data@.take(done as int)),
                forall|i: int|
                    i < d0@.len() && touches(off as int, done as int, i)
                        ==> #[trigger] self.persisted()[i] == self@[i],
                forall|i: int|
                    0 <= i < d0@.len() && !touches(off as int, done as int, i)
                        ==> #[trigger] self.persisted()[i] == d0.persisted()[i],
            decreases len - done,
        {
            let pos: u64 = off + done as u64;
            let idx: u64 = pos / 4096;
            let in_page: usize = (pos % 4096) as usize;
            let chunk: usize = if 4096 - in_page < len - done {
                4096 - in_page
            } else {
                len - done
            };
            let ghost before = self@;
            let ghost s1 = site(*self, *tracker);
            proof {
                self.lemma_wf();
            }
            let got = self.read_page(idx);
            let ghost s2 = site(*self, *tracker);
            proof {
                staged_read(s1, s2, Set::full());
                written_logged(s1, s2, Set::full(), Seq::empty());
                written_on(s0, s1, s2, Set::full(), Set::full());
            }
            match got {
                Ok(p) => {
                    let mut p = p;
                    let piece = sub_vec(data, done, done + chunk);
                    write_at(&mut p, in_page, piece.as_slice());
                    let r = self.write_direct(tracker, idx, p.as_slice());
                    proof {
                        assert(r is Ok);
                        logged_direct(s2, idx, p@, site(*self, *tracker), Set::full());
                        written_logged(
                            s2,
                            site(*self, *tracker),
                            Set::full(),
                            seq![(idx, p@)],
                        );
                        written_on(s0, s2, site(*self, *tracker), Set::full(), Set::full());
                        self.lemma_wf();
                        flat_of_update(before, idx as int, in_page as int, piece@);
                        assert(idx * 4096 + in_page == pos);
                        assert(idx * 4096 + 4096 <= before.len() * 4096);
                        assert(flat(self@) =~= bytes::splice(
                            flat(d0@),
                            off as int,
                            data@.take(done + chunk),
                        ));
                        assert forall|i: int|
                            i < d0@.len() && touches(off as int, done + chunk, i) implies #[trigger] self.persisted()[i] == self@[i] by {
                            if i != idx {
                                assert(touches(off as int, done as int, i));
                                assert(s1.device.persisted()[i] == s1.device@[i]);
                            }
                        }
                        assert forall|i: int|
                            0 <= i < d0@.len() && !touches(off as int, done + chunk, i) implies #[trigger] self.persisted()[i]
                            == d0.persisted()[i] by {
                            assert(i != idx);
                            assert(s1.device.persisted()[i] == d0.persisted()[i]);
                        }
                    }
                },
                Err(e) => {
                    proof {
                        self.lemma_wf();
                        assert(off + len > flat(d0@).len());
                        assert(pos >= flat(d0@).len());
                        assert forall|i: int|
                            i < d0@.len() && touches(off as int, len as int, i) implies #[trigger] self.persisted()[i] == self@[i] by {
                            assert(i < idx);
                            assert(touches(off as int, done as int, i));
                            assert(s1.device.persisted()[i] == s1.device@[i]);
                        }
                        assert forall|i: int|
                            0 <= i < d0@.len() && !touches(off as int, len as int, i) implies #[trigger] self.persisted()[i]
                            == d0.persisted()[i] by {
                            assert(s1.device.persisted()[i] == d0.persisted()[i]);
                        }
                    }
                    return Err(e);
                },
            }
            done = done + chunk;
        }
        Ok(())
    }

    /// Overwrites `sectors` sectors of 512 bytes from sector `lba` on; they must
    /// lie in one page.
    pub fn write_partial_sectors(
        &mut self,
        tracker: &mut CheckpointTracker,
        lba: u64,
        sectors: u16,
        data: &[u8],
    ) -> (r: Result<(), Error>)
        requires
            old(self).wf(),
            data@.len() == sectors * 512,
            lba % 8 + sectors <= 8,
        ensures
            final(self).wf(),
            final(self).device_id == old(self).device_id,
            final(self).clock() == old(self).clock(),
            final(tracker).committed_seq == old(tracker).committed_seq,
            final(tracker).paused == old(tracker).paused,
            staged(
                site(*old(self), *old(tracker)),
                site(*final(self), *final(tracker)),
                Set::full(),
            ),
            r is Ok <==> lba / 8 < old(self)@.len(),
            r is Ok ==> flat(final(self)@) == bytes::splice(flat(old(self)@), lba * 512, data@),
            r matches Err(e) ==> e == Error::IoError && final(self)@ == old(self)@,
    {
        let idx: u64 = lba / 8;
        let off: usize = ((lba % 8) * 512) as usize;
        proof {
            self.lemma_wf();
        }
        let ghost before = self@;
        let ghost s1 = site(*self, *tracker);
        let got = self.read_page(idx);
        let ghost s2 = site(*self, *tracker);
        proof {
            staged_read(s1, s2, Set::full());
        }
        match got {
            Ok(p) => {
                let mut p = p;
                write_at(&mut p, off, data);
                let r = self.write_page(tracker, idx, p.as_slice());
                proof {
                    let s3 = site(*self, *tracker);
                    staged_write(s2, idx, p@, s3, Set::full());
                    staged_on(s1, s2, s3, Set::full(), Set::full());
                    flat_of_update(before, idx as int, off as int, data@);
                    assert(idx * 4096 + off == lba * 512);
                }
                r
            },
            Err(e) => Err(e),
        }
    }

    /// Writes dirty pages to the medium in one pass; see [`due_set`](Self::due_set).
    /// What users see does not change. Returns the number of bytes written.
    pub fn writeback(&mut self, tracker: &mut CheckpointTracker, force: bool) -> (written: u64)
        requires
            old(self).wf(),
        ensures
            final(self).wf(),
            final(self).device_id == old(self).device_id,
            final(self).clock() == old(self).clock(),
            final(self)@ == old(self)@,
            final(self).dirty() == old(self).dirty().difference(
                old(self).due_set(*old(tracker), force),
            ),
            final(self).persisted() == Seq::new(
                old(self)@.len(),
                |i: int|
                    if old(self).due_set(*old(tracker), force).contains(i as u64) {
                        old(self)@[i]
                    } else {
                        old(self).persisted()[i]
                    },
            ),
            final(tracker).committed_seq == old(tracker).committed_seq,
            final(tracker).paused == old(tracker).paused,
            final(tracker).seqs@ == old(tracker).seqs@.remove_keys(
                old(self).due_set(*old(tracker), force),
            ),
            written == PAGE_SIZE * old(self).due_set(*old(tracker), force).len(),
    {
        let n: u64 = self.cache.flush_dirty_once(&mut self.disk, tracker, force);
        assert(self.persisted() =~= Seq::new(
            old(self)@.len(),
            |i: int|
                if old(self).due_set(*old(tracker), force).contains(i as u64) {
                    old(self)@[i]
                } else {
                    old(self).persisted()[i]
                },
        ));
        n
    }

    /// Writes everything the journal has committed to the medium.
    pub fn flush(&mut self, tracker: &mut CheckpointTracker)
        requires
            old(self).wf(),
        ensures
            final(self).wf(),
            final(self).device_id == old(self).device_id,
            final(self).clock() == old(self).clock(),
            final(self)@ == old(self)@,
            final(self).dirty() == old(self).dirty().filter(|k: u64| !old(tracker).flushable(k)),
            forall|i: int|
                0 <= i < old(self)@.len() ==> #[trigger] final(self).persisted()[i] == (if old(
                    tracker).flushable(i as u64) {
                    old(self)@[i]
                } else {
                    old(self).persisted()[i]
                }),
            final(tracker).committed_seq == old(tracker).committed_seq,
            final(tracker).paused == old(tracker).paused,
            final(tracker).seqs@ == old(tracker).seqs@.remove_keys(
                old(self).due_set(*old(tracker), true),
            ),
    {
        proof {
            self.lemma_forced(*tracker);
            self.lemma_wf();
        }
        self.writeback(tracker, true);
        assert(self.dirty() =~= old(self).dirty().filter(|k: u64| !old(tracker).flushable(k)));
    }

    /// Writes every dirty page out and drops what is cached, as when the device is
    /// about to be taken away.
    pub fn invalidate(&mut self, tracker: &mut CheckpointTracker)
        requires
            old(self).wf(),
        ensures
            final(self).wf(),
            final(self).device_id == old(self).device_id,
            final(self).clock() == old(self).clock(),
            final(self)@ == old(self)@,
            final(self).dirty() == Set::<u64>::empty(),
            final(self).persisted() == final(self)@,
            final(tracker).committed_seq == old(tracker).committed_seq,
            final(tracker).paused == old(tracker).paused,
            final(tracker).seqs@ == old(tracker).seqs@.remove_keys(old(self).dirty()),
    {
        self.cache.invalidate_device(&mut self.disk, tracker);
        assert(self.dirty() =~= Set::<u64>::empty());
    }

    /// The cache's counters.
    pub fn stats(&self) -> (r: StatsSnapshot)
        requires
            self.wf(),
        ensures
            r == self.counters(),
    {
        self.cache.stats
    }

    /// The cache's counters.
    pub closed spec fn counters(&self) -> StatsSnapshot {
        self.cache.stats
    }
}

} // verus!
