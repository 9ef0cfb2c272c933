//! Write-back cache of a device's pages.
//!
//! A write changes the cached page and marks it dirty; a later pass writes dirty
//! pages to the device, but none before the journal has committed the transaction
//! that enrolled it. Pages are spread over shards, each with its own recency list.
use vstd::prelude::*;
use crate::block_device;
use crate::block_device::PAGE_SIZE;
use crate::bytes;
use crate::bytes::copy_vec;
use crate::error::Error;
use crate::journal::CheckpointTracker;
use crate::shard;
use crate::shard::{shard_index, CachedBlockPage, Shard, NUM_SHARDS, SHARD_CAPACITY};

verus! {

broadcast use crate::shard::lemma_shard_of;

/// Counters of a cache.
#[derive(Clone, Copy)]
pub struct StatsSnapshot {
    pub hits: u64,
    pub misses: u64,
    pub evictions: u64,
    pub detached_fallbacks: u64,
    pub dirty_pages: u64,
    pub writeback_runs: u64,
    pub writeback_bytes: u64,
    pub sync_calls: u64,
    pub flush_requested: u64,
    pub flush_completed: u64,
}

/// The cache of one device.
pub struct BlockPageCache {
    pub device_id: u64,
    pub shards: Vec<Shard>,
    pub stats: StatsSnapshot,
    /// The time in milliseconds that new dirty pages are stamped with.
    pub clock: u64,
}

/// Every shard is well-formed and holds pages of its own.
pub open spec fn shards_wf(shards: Seq<Shard>, device_id: u64) -> bool {
    &&& shards.len() == NUM_SHARDS
    &&& forall|s: int|
        0 <= s < NUM_SHARDS ==> (#[trigger] shards[s]).wf() && shards[s].device_id == device_id
    &&& forall|s: int, k: u64|
        0 <= s < NUM_SHARDS && #[trigger] shards[s].pages@.contains_key(k) ==> s
            == shard::shard_of(device_id, k)
}

/// Whether the shard that page `idx` belongs to holds it.
pub open spec fn holds(shards: Seq<Shard>, device_id: u64, idx: u64) -> bool {
    shards[shard::shard_of(device_id, idx)].pages@.contains_key(idx)
}

/// Page `idx` in the shard that it belongs to.
pub open spec fn page_in(shards: Seq<Shard>, device_id: u64, idx: u64) -> CachedBlockPage {
    shards[shard::shard_of(device_id, idx)].pages@[idx]
}

proof fn lemma_one_shard(a: Seq<Shard>, b: Seq<Shard>, device_id: u64, s: int)
    requires
        shards_wf(a, device_id),
        0 <= s < NUM_SHARDS,
        b == a.update(s, b[s]),
        b[s].wf(),
        b[s].device_id == device_id,
        forall|k: u64| #[trigger]
            b[s].pages@.contains_key(k) ==> s == shard::shard_of(device_id, k),
    ensures
        shards_wf(b, device_id),
{
    assert forall|t: int| 0 <= t < NUM_SHARDS implies (#[trigger] b[t]).wf() && b[t].device_id
        == device_id by {
        if t != s {
            assert(b[t] == a[t]);
        }
    }
    assert forall|t: int, k: u64|
        0 <= t < NUM_SHARDS && #[trigger] b[t].pages@.contains_key(k) implies t
        == shard::shard_of(device_id, k) by {
        if t != s {
            assert(b[t] == a[t]);
        } else {
            assert(b[s].pages@.contains_key(k));
        }
    }
}

/// The order of use in each shard, the most recently used page first.
pub open spec fn orders(shards: Seq<Shard>) -> Seq<Seq<u64>> {
    shards.map_values(|s: Shard| s.recent())
}

/// The orders of use once page `k` has been looked for: if its shard holds it, it is the one
/// used last.
pub open spec fn looked_for(rs: Seq<Seq<u64>>, device_id: u64, k: u64) -> Seq<Seq<u64>> {
    let s = shard::shard_of(device_id, k);
    if rs[s].contains(k) {
        rs.update(s, shard::used_now(rs[s], k))
    } else {
        rs
    }
}

/// The orders of use once `n` pages from `start` on have been looked for.
pub open spec fn looked_for_all(
    rs: Seq<Seq<u64>>,
    device_id: u64,
    start: int,
    n: int,
) -> Seq<Seq<u64>>
    decreases n,
{
    if n <= 0 {
        rs
    } else {
        looked_for(
            looked_for_all(rs, device_id, start, n - 1),
            device_id,
            (start + n - 1) as u64,
        )
    }
}

/// The orders of use once page `k`, which was missing, has been added as far as there is room.
pub open spec fn fetched(rs: Seq<Seq<u64>>, device_id: u64, stay: Set<u64>, k: u64) -> Seq<
    Seq<u64>,
> {
    let s = shard::shard_of(device_id, k);
    rs.update(s, shard::used_first(rs[s], stay, k))
}

/// The orders of use once pages that were missing have been added one after the other.
pub open spec fn fetched_all(
    rs: Seq<Seq<u64>>,
    device_id: u64,
    stay: Set<u64>,
    ks: Seq<u64>,
) -> Seq<Seq<u64>>
    decreases ks.len(),
{
    if ks.len() == 0 {
        rs
    } else {
        fetched(fetched_all(rs, device_id, stay, ks.drop_last()), device_id, stay, ks.last())
    }
}

/// A page that was missing is held afterwards if its shard has room, or if the least recently
/// used page there may leave. No other page leaves, and none leaves another shard.
pub proof fn missing_page_is_added(
    rs: Seq<Seq<u64>>,
    device_id: u64,
    stay: Set<u64>,
    k: u64,
    x: u64,
    t: int,
)
    requires
        rs.len() == NUM_SHARDS,
        0 <= t < NUM_SHARDS,
    ensures
        ({
            let s = shard::shard_of(device_id, k);
            let after = fetched(rs, device_id, stay, k);
            &&& rs[s].len() < SHARD_CAPACITY || !stay.contains(rs[s].last()) ==> after[s].contains(k)
            &&& rs[s].contains(x) && !after[s].contains(x) ==> x == rs[s].last() && rs[s].len()
                >= SHARD_CAPACITY && !stay.contains(x)
            &&& t != s ==> after[t] == rs[t]
        }),
{
    let s = shard::shard_of(device_id, k);
    shard::lemma_used_first(rs[s], stay, k, x);
    assert(fetched(rs, device_id, stay, k)[s] == shard::used_first(rs[s], stay, k));
}

/// The cache holds the pages that the orders of use name.
pub proof fn held_pages_are_in_order(shards: Seq<Shard>, device_id: u64, k: u64)
    requires
        shards_wf(shards, device_id),
    ensures
        holds(shards, device_id, k) <==> orders(shards)[shard::shard_of(device_id, k)].contains(k),
{
    shards[shard::shard_of(device_id, k)].lemma_wf();
}

/// The pages of a device's medium.
pub open spec fn home(disk: Seq<Vec<u8>>) -> block_device::Pages {
    disk.map_values(|p: Vec<u8>| p@)
}

/// Positions counted from `start` as page indices.
spec fn absolute(start: int, ms: Seq<usize>) -> Seq<u64> {
    ms.map_values(|m: usize| (start + m) as u64)
}

impl BlockPageCache {
    /// Whether the cache holds page `idx`.
    #[verifier::inline]
    pub open spec fn held(&self, idx: u64) -> bool {
        holds(self.shards@, self.device_id, idx)
    }

    /// The cached page `idx`.
    #[verifier::inline]
    pub open spec fn page(&self, idx: u64) -> CachedBlockPage {
        page_in(self.shards@, self.device_id, idx)
    }

    /// The pages that are newer than their home copy.
    pub open spec fn dirty(&self) -> Set<u64> {
        Set::new(|k: u64| self.held(k) && self.page(k).dirty)
    }

    /// The pages that must not leave the cache: the dirty and the pinned ones.
    pub open spec fn kept(&self) -> Set<u64> {
        Set::new(|k: u64| self.held(k) && (self.page(k).dirty || self.page(k).pin_count != 0))
    }

    /// Whether page `idx` is held or can be: its shard has room, or the least recently used
    /// page there may leave.
    pub open spec fn fits(&self, idx: u64) -> bool {
        let r = self.shards@[shard::shard_of(self.device_id, idx)].recent();
        self.held(idx) || r.len() < SHARD_CAPACITY || !self.kept().contains(r.last())
    }

    /// Those of `n` pages from `start` on that the cache does not hold, in order.
    pub open spec fn missing(&self, start: int, n: int) -> Seq<u64>
        decreases n,
    {
        if n <= 0 {
            Seq::empty()
        } else if self.held((start + n - 1) as u64) {
            self.missing(start, n - 1)
        } else {
            self.missing(start, n - 1).push((start + n - 1) as u64)
        }
    }

    /// Every shard holds pages of its own, all within the device, and a clean page
    /// is the same as its home copy.
    pub open spec fn wf(&self, disk: Seq<Vec<u8>>) -> bool {
        &&& block_device::full_pages(home(disk))
        &&& shards_wf(self.shards@, self.device_id)
        &&& forall|k: u64|
            #[trigger] self.held(k) ==> k < disk.len() && (!self.page(k).dirty
                ==> self.page(k).data@ == disk[k as int]@)
    }

    /// What the device holds as its users see it: a cached page hides the home copy.
    pub open spec fn contents(&self, disk: Seq<Vec<u8>>) -> block_device::Pages {
        Seq::new(
            disk.len(),
            |i: int|
                if self.held(i as u64) {
                    self.page(i as u64).data@
                } else {
                    disk[i]@
                },
        )
    }

    /// A cache that holds nothing.
    pub fn new(device_id: u64) -> (r: BlockPageCache)
        ensures
            r.device_id == device_id,
            r.clock == 0,
            forall|disk: Seq<Vec<u8>>|
                block_device::full_pages(home(disk)) ==> #[trigger] r.wf(disk) && r.contents(disk)
                    == home(disk),
            r.dirty() == Set::<u64>::empty(),
            forall|k: u64| !#[trigger] r.held(k),
    {
        let mut shards: Vec<Shard> = Vec::new();
        while shards.len() < NUM_SHARDS
            invariant
                shards@.len() <= NUM_SHARDS,
                forall|s: int|
                    0 <= s < shards@.len() ==> (#[trigger] shards@[s]).wf()
                        && shards@[s].device_id == device_id && shards@[s].pages@ == Map::<
                        u64,
                        CachedBlockPage,
                    >::empty(),
            decreases NUM_SHARDS - shards@.len(),
        {
            shards.push(Shard::new(device_id));
        }
        let r = BlockPageCache {
            device_id,
            shards,
            stats: StatsSnapshot {
                hits: 0,
                misses: 0,
                evictions: 0,
                detached_fallbacks: 0,
                dirty_pages: 0,
                writeback_runs: 0,
                writeback_bytes: 0,
                sync_calls: 0,
                flush_requested: 0,
                flush_completed: 0,
            },
            clock: 0,
        };
        assert forall|k: u64| !#[trigger] r.held(k) by {
            assert(0 <= shard::shard_of(device_id, k) < NUM_SHARDS);
        }
        assert(r.dirty() =~= Set::<u64>::empty());
        assert forall|disk: Seq<Vec<u8>>| block_device::full_pages(home(disk)) implies #[trigger] r.wf(
            disk,
        ) && r.contents(disk) == home(disk) by {
            assert(r.contents(disk) =~= home(disk));
        }
        r
    }

    /// Whether page `idx` is newer than its home copy.
    pub fn is_dirty(&self, idx: u64) -> (r: bool)
        requires
            shards_wf(self.shards@, self.device_id),
        ensures
            r == self.dirty().contains(idx),
    {
        let si: usize = shard_index(self.device_id, idx);
        proof {
            self.shards@[si as int].lemma_wf();
        }
        self.shards[si].dirty.contains(idx)
    }

    /// Asks for a writeback pass.
    pub fn kick_writeback(&mut self)
        ensures
            *final(self) == (BlockPageCache {
                stats: StatsSnapshot {
                    flush_requested: old(self).stats.flush_requested.wrapping_add(1),
                    ..old(self).stats
                },
                ..*old(self)
            }),
    {
        self.stats.flush_requested = self.stats.flush_requested.wrapping_add(1);
    }

    /// The same pages, whatever the order of use and the counters.
    pub open spec fn same_pages(&self, other: &BlockPageCache) -> bool {
        &&& self.device_id == other.device_id
        &&& self.clock == other.clock
        &&& forall|k: u64| #[trigger] self.held(k) == other.held(k)
        &&& forall|k: u64| other.held(k) ==> #[trigger] self.page(k) == other.page(k)
    }

    /// Adds a clean page that the cache does not hold, if its shard has room or can
    /// make some. A page that is not added is detached: writeback will never find
    /// it, so a writer of it must put it on the device itself.
    fn insert_page(&mut self, disk: &Vec<Vec<u8>>, idx: u64, data: Vec<u8>) -> (cached: bool)
        requires
            old(self).wf(disk@),
            !old(self).held(idx),
            idx < disk@.len(),
            data@ == disk@[idx as int]@,
        ensures
            final(self).wf(disk@),
            final(self).device_id == old(self).device_id,
            final(self).clock == old(self).clock,
            final(self).contents(disk@) == old(self).contents(disk@),
            final(self).dirty() == old(self).dirty(),
            cached == final(self).held(idx),
            cached == old(self).fits(idx),
            final(self).stats.hits == old(self).stats.hits,
            final(self).stats.misses == old(self).stats.misses,
            forall|k: u64|
                k != idx && #[trigger] final(self).held(k) ==> old(self).held(k) && final(self).page(
                    k,
                ) == old(self).page(k),
            cached ==> final(self).page(idx).pin_count == 0,
            final(self).kept() == old(self).kept(),
            orders(final(self).shards@) == fetched(
                orders(old(self).shards@),
                old(self).device_id,
                old(self).kept(),
                idx,
            ),
            !cached ==> final(self).same_pages(old(self)) && final(self).stats.detached_fallbacks
                == old(self).stats.detached_fallbacks.wrapping_add(1)
                && final(self).stats.flush_requested == old(self).stats.flush_requested.wrapping_add(1),
    {
        let si: usize = shard_index(self.device_id, idx);
        let ghost before = self.shards@[si as int];
        assert(before.wf());
        proof {
            before.lemma_wf();
        }
        let full: bool = self.shards[si].is_full();
        let page = CachedBlockPage::new((self.device_id, idx), data);
        assert(home(disk@)[idx as int].len() == PAGE_SIZE);
        let cached: bool = self.shards[si].insert(page);
        proof {
            assert forall|k: u64| #[trigger] self.shards@[si as int].pages@.contains_key(
                k,
            ) implies si == shard::shard_of(self.device_id, k) by {
                if k != idx {
                    assert(before.pages@.contains_key(k));
                }
            }
            lemma_one_shard(old(self).shards@, self.shards@, self.device_id, si as int);
            assert forall|k: u64| k != idx && #[trigger] self.held(k) implies old(self).held(k)
                && self.page(k) == old(self).page(k) by {}
            assert forall|k: u64| #[trigger] old(self).held(k) && old(self).page(k).dirty implies self.held(
                k,
            ) && self.page(k) == old(self).page(k) by {}
            assert(self.dirty() =~= old(self).dirty());
            assert forall|k: u64| #[trigger] old(self).held(k) && (old(self).page(k).dirty || old(
                self,
            ).page(k).pin_count != 0) implies self.held(k) && self.page(k) == old(self).page(k) by {}
            assert(self.kept() =~= old(self).kept());
            if before.recent().len() >= SHARD_CAPACITY {
                let v = before.victim();
                assert(before.recent().contains(v));
                assert(old(self).held(v) <==> before.pages@.contains_key(v)) by {
                    assert(si == shard::shard_of(self.device_id, v));
                }
            }
            assert(orders(self.shards@) =~= fetched(
                orders(old(self).shards@),
                self.device_id,
                old(self).kept(),
                idx,
            ));
            assert forall|k: u64| #[trigger] self.held(k) implies k < disk@.len() && (!self.page(
                k,
            ).dirty ==> self.page(k).data@ == disk@[k as int]@) by {
                if k != idx {
                    assert(old(self).held(k));
                }
            }
            assert(self.contents(disk@) =~= old(self).contents(disk@));
        }
        if cached {
            if full {
                self.stats.evictions = self.stats.evictions.wrapping_add(1);
            }
        } else {
            self.kick_writeback();
            self.stats.detached_fallbacks = self.stats.detached_fallbacks.wrapping_add(1);
        }
        cached
    }

    /// A copy of page `idx`, from the device if the cache does not hold it, and
    /// whether the cache holds it now.
    pub fn read_page(&mut self, disk: &Vec<Vec<u8>>, idx: u64) -> (r: (Vec<u8>, bool))
        requires
            old(self).wf(disk@),
            idx < disk.len(),
        ensures
            final(self).wf(disk@),
            final(self).device_id == old(self).device_id,
            final(self).clock == old(self).clock,
            final(self).contents(disk@) == old(self).contents(disk@),
            final(self).dirty() == old(self).dirty(),
            r.0@ == old(self).contents(disk@)[idx as int],
            r.0@.len() == PAGE_SIZE,
            r.1 == final(self).held(idx),
            old(self).held(idx) ==> final(self).same_pages(old(self)) && final(self).stats.hits
                == old(self).stats.hits.wrapping_add(1) && final(self).stats.misses == old(self).stats.misses,
            !old(self).held(idx) ==> final(self).stats.hits == old(self).stats.hits
                && final(self).stats.misses == old(self).stats.misses.wrapping_add(1),
            forall|k: u64|
                k != idx && #[trigger] final(self).held(k) ==> old(self).held(k) && final(self).page(
                    k,
                ) == old(self).page(k),
            orders(final(self).shards@) == (if old(self).held(idx) {
                looked_for(orders(old(self).shards@), old(self).device_id, idx)
            } else {
                fetched(orders(old(self).shards@), old(self).device_id, old(self).kept(), idx)
            }),
    {
        let si: usize = shard_index(self.device_id, idx);
        proof {
            self.shards@[si as int].lemma_wf();
        }
        let hit: bool = self.shards[si].touch(idx);
        proof {
            lemma_one_shard(old(self).shards@, self.shards@, self.device_id, si as int);
            assert(self.same_pages(old(self)));
            assert(self.kept() =~= old(self).kept());
            assert(orders(self.shards@) =~= looked_for(
                orders(old(self).shards@),
                self.device_id,
                idx,
            ));
            assert(self.dirty() =~= old(self).dirty());
            assert(self.contents(disk@) =~= old(self).contents(disk@));
        }
        if hit {
            self.stats.hits = self.stats.hits.wrapping_add(1);
            match self.shards[si].pages.get(idx) {
                Some(p) => {
                    return (copy_vec(p.data.as_slice()), true);
                },
                None => {},
            }
        }
        self.stats.misses = self.stats.misses.wrapping_add(1);
        let data = copy_vec(disk[idx as usize].as_slice());
        assert(home(disk@)[idx as int].len() == PAGE_SIZE);
        let copy = copy_vec(data.as_slice());
        let cached: bool = self.insert_page(disk, idx, copy);
        (data, cached)
    }

    /// How many of `count` pages from `start` on the cache holds.
    pub open spec fn held_of(&self, start: int, count: int) -> int
        decreases count,
    {
        if count <= 0 {
            0
        } else {
            self.held_of(start, count - 1) + if self.held((start + count - 1) as u64) {
                1int
            } else {
                0
            }
        }
    }

    /// Whether a page that the cache does not hold is among the misses.
    spec fn noted(&self, start: int, misses: Seq<usize>, j: int) -> bool {
        self.held((start + j) as u64) || misses.contains(j as usize)
    }

    /// Copies of `count` consecutive pages. Those that the cache does not hold come from the
    /// device, all of them or none, and are added as far as there is room.
    pub fn read_pages(&mut self, disk: &Vec<Vec<u8>>, start: u64, count: usize) -> (r: Result<
        Vec<Vec<u8>>,
        Error,
    >)
        requires
            old(self).wf(disk@),
            start + count <= u64::MAX,
        ensures
            final(self).wf(disk@),
            final(self).device_id == old(self).device_id,
            final(self).clock == old(self).clock,
            final(self).contents(disk@) == old(self).contents(disk@),
            final(self).dirty() == old(self).dirty(),
            final(self).stats.hits == old(self).stats.hits.wrapping_add(
                old(self).held_of(start as int, count as int) as u64,
            ),
            final(self).stats.misses == old(self).stats.misses.wrapping_add(
                (count - old(self).held_of(start as int, count as int)) as u64,
            ),
            forall|k: u64|
                !(start <= k < start + count) && #[trigger] final(self).held(k) ==> old(self).held(k)
                    && final(self).page(k) == old(self).page(k),
            ({
                let looked = looked_for_all(
                    orders(old(self).shards@),
                    old(self).device_id,
                    start as int,
                    count as int,
                );
                orders(final(self).shards@) == (if r is Ok {
                    fetched_all(
                        looked,
                        old(self).device_id,
                        old(self).kept(),
                        old(self).missing(start as int, count as int),
                    )
                } else {
                    looked
                })
            }),
            match r {
                Ok(ps) => (count == 0 || start + count <= disk@.len()) && ps@.len() == count
                    && forall|i: int|
                    0 <= i < count ==> (#[trigger] ps@[i])@ == old(self).contents(disk@)[start + i],
                Err(e) => e == Error::IoError && count > 0 && start + count > disk@.len()
                    && final(self).same_pages(old(self)),
            },
    {
        let ghost was = *self;
        let mut out: Vec<Vec<u8>> = Vec::new();
        let mut misses: Vec<usize> = Vec::new();
        let mut hits: u64 = 0;
        let mut i: usize = 0;
        while i < count
            invariant
                i <= count,
                start + count <= u64::MAX,
                was == *old(self),
                was.wf(disk@),
                self.wf(disk@),
                self.device_id == was.device_id,
                self.same_pages(&was),
                self.stats == was.stats,
                self.contents(disk@) == was.contents(disk@),
                self.dirty() == was.dirty(),
                self.kept() == was.kept(),
                orders(self.shards@) == looked_for_all(
                    orders(was.shards@),
                    was.device_id,
                    start as int,
                    i as int,
                ),
                was.missing(start as int, i as int) == absolute(start as int, misses@),
                out@.len() == i,
                hits + misses@.len() == i,
                hits == was.held_of(start as int, i as int),
                forall|j: int| 0 <= j < misses@.len() ==> (#[trigger] misses@[j]) < i && !was.held(
                    (start + misses@[j]) as u64,
                ),
                forall|j: int|
                    0 <= j < i && was.held((start + j) as u64) ==> start + j < disk@.len() && (
                    #[trigger] out@[j])@ == was.contents(disk@)[start + j],
                forall|j: int| 0 <= j < i ==> #[trigger] was.noted(start as int, misses@, j),
                forall|a: int, b: int|
                    0 <= a < b < misses@.len() ==> #[trigger] misses@[a] < #[trigger] misses@[b],
            decreases count - i,
        {
            let ghost before = misses@;
            let ghost got = out@;
            match self.look(disk, start + i as u64) {
                Some(p) => {
                    hits = hits + 1;
                    out.push(p);
                },
                None => {
                    misses.push(i);
                    out.push(Vec::new());
                    assert(absolute(start as int, misses@) =~= absolute(
                        start as int,
                        before,
                    ).push((start + i) as u64));
                    assert(misses@[before.len() as int] == i);
                    assert(misses@.contains(i));
                    assert forall|x: usize| #[trigger] before.contains(x) implies misses@.contains(
                        x,
                    ) by {
                        let k = choose|k: int| 0 <= k < before.len() && before[k] == x;
                        assert(misses@[k] == x);
                    }
                },
            }
            proof {
                assert forall|j: int| 0 <= j < i + 1 implies #[trigger] was.noted(
                    start as int,
                    misses@,
                    j,
                ) by {
                    if j < i {
                        assert(was.noted(start as int, before, j));
                    }
                }
                assert forall|j: int| 0 <= j < i + 1 && was.held((start + j) as u64) implies start
                    + j < disk@.len() && (#[trigger] out@[j])@ == was.contents(disk@)[start + j] by {
                    if j < i {
                        assert(out@[j] == got[j]);
                    }
                }
            }
            i = i + 1;
        }
        self.stats.hits = self.stats.hits.wrapping_add(hits);
        self.stats.misses = self.stats.misses.wrapping_add(misses.len() as u64);
        if misses.len() == 0 {
            proof {
                assert(absolute(start as int, misses@) =~= Seq::empty());
                assert forall|j: int| 0 <= j < count implies start + j < disk@.len() && (
                #[trigger] out@[j])@ == was.contents(disk@)[start + j] by {
                    assert(was.noted(start as int, misses@, j));
                }
                if count > 0 {
                    let last = out@[count - 1];
                    assert(last@ == was.contents(disk@)[start + (count - 1)]);
                    assert(start + (count - 1) < disk@.len());
                }
            }
            return Ok(out);
        }
        let n: u64 = disk.len() as u64;
        if start >= n || count as u64 > n - start {
            assert(self.same_pages(&was));
            return Err(Error::IoError);
        }
        self.fill_misses(disk, start, &misses, &mut out);
        proof {
            assert forall|j: int| 0 <= j < count implies (#[trigger] out@[j])@ == was.contents(
                disk@,
            )[start + j] by {
                assert(was.noted(start as int, misses@, j));
            }
            assert forall|k: u64|
                !(start <= k < start + count) && #[trigger] self.held(k) implies was.held(k)
                && self.page(k) == was.page(k) by {}
        }
        Ok(out)
    }

    /// A copy of a page that the cache holds, which is then the one used last.
    fn look(&mut self, disk: &Vec<Vec<u8>>, idx: u64) -> (r: Option<Vec<u8>>)
        requires
            old(self).wf(disk@),
        ensures
            final(self).wf(disk@),
            final(self).same_pages(old(self)),
            final(self).stats == old(self).stats,
            final(self).contents(disk@) == old(self).contents(disk@),
            final(self).dirty() == old(self).dirty(),
            final(self).kept() == old(self).kept(),
            orders(final(self).shards@) == looked_for(
                orders(old(self).shards@),
                old(self).device_id,
                idx,
            ),
            match r {
                Some(p) => old(self).held(idx) && idx < disk@.len() && p@ == old(self).contents(
                    disk@,
                )[idx as int],
                None => !old(self).held(idx),
            },
    {
        let si: usize = shard_index(self.device_id, idx);
        proof {
            self.shards@[si as int].lemma_wf();
        }
        let hit: bool = self.shards[si].touch(idx);
        proof {
            lemma_one_shard(old(self).shards@, self.shards@, self.device_id, si as int);
            assert(self.same_pages(old(self)));
            assert(self.kept() =~= old(self).kept());
            assert(orders(self.shards@) =~= looked_for(
                orders(old(self).shards@),
                self.device_id,
                idx,
            ));
            assert(self.dirty() =~= old(self).dirty());
            assert(self.contents(disk@) =~= old(self).contents(disk@));
        }
        if hit {
            assert(old(self).held(idx));
            match self.shards[si].pages.get(idx) {
                Some(p) => {
                    assert(self.held(idx) && self.page(idx) == *p);
                    return Some(copy_vec(p.data.as_slice()));
                },
                None => {},
            }
        }
        None
    }

    /// Puts the pages that were not held into place, and adds them as far as there is room.
    fn fill_misses(
        &mut self,
        disk: &Vec<Vec<u8>>,
        start: u64,
        misses: &Vec<usize>,
        out: &mut Vec<Vec<u8>>,
    )
        requires
            old(self).wf(disk@),
            start + old(out)@.len() <= disk@.len(),
            forall|j: int| 0 <= j < misses@.len() ==> (#[trigger] misses@[j]) < old(out)@.len() && !old(
                self,
            ).held((start + misses@[j]) as u64),
            forall|a: int, b: int|
                0 <= a < b < misses@.len() ==> #[trigger] misses@[a] < #[trigger] misses@[b],
        ensures
            final(self).wf(disk@),
            final(self).device_id == old(self).device_id,
            final(self).clock == old(self).clock,
            final(self).contents(disk@) == old(self).contents(disk@),
            final(self).dirty() == old(self).dirty(),
            final(self).stats.hits == old(self).stats.hits,
            final(self).stats.misses == old(self).stats.misses,
            orders(final(self).shards@) == fetched_all(
                orders(old(self).shards@),
                old(self).device_id,
                old(self).kept(),
                absolute(start as int, misses@),
            ),
            forall|k: u64|
                !(start <= k < start + old(out)@.len()) && #[trigger] final(self).held(k) ==> old(
                    self,
                ).held(k) && final(self).page(k) == old(self).page(k),
            final(out)@.len() == old(out)@.len(),
            forall|i: int|
                0 <= i < old(out)@.len() ==> (#[trigger] final(out)@[i])@ == (if misses@.contains(
                    i as usize,
                ) {
                    old(self).contents(disk@)[start + i]
                } else {
                    old(out)@[i]@
                }),
    {
        let ghost was = *self;
        let ghost first = out@;
        let total: usize = out.len();
        let n: usize = disk.len();
        let mut m: usize = 0;
        while m < misses.len()
            invariant
                total == first.len(),
                n == disk@.len(),
                m <= misses@.len(),
                was == *old(self),
                first == old(out)@,
                out@.len() == first.len(),
                start + first.len() <= disk@.len(),
                self.wf(disk@),
                self.device_id == was.device_id,
                self.clock == was.clock,
                self.contents(disk@) == was.contents(disk@),
                self.dirty() == was.dirty(),
                self.stats.hits == was.stats.hits,
                self.stats.misses == was.stats.misses,
                self.kept() == was.kept(),
                orders(self.shards@) == fetched_all(
                    orders(was.shards@),
                    was.device_id,
                    was.kept(),
                    absolute(start as int, misses@.take(m as int)),
                ),
                forall|j: int| 0 <= j < misses@.len() ==> (#[trigger] misses@[j]) < first.len(),
                forall|j: int|
                    m <= j < misses@.len() ==> !self.held((start + #[trigger] misses@[j]) as u64),
                forall|a: int, b: int|
                    0 <= a < b < misses@.len() ==> #[trigger] misses@[a] < #[trigger] misses@[b],
                forall|k: u64|
                    !(start <= k < start + first.len()) && #[trigger] self.held(k) ==> was.held(k)
                        && self.page(k) == was.page(k),
                forall|i: int|
                    0 <= i < first.len() ==> (#[trigger] out@[i])@ == (if misses@.take(
                        m as int,
                    ).contains(i as usize) {
                        was.contents(disk@)[start + i]
                    } else {
                        first[i]@
                    }),
            decreases misses@.len() - m,
        {
            let i: usize = misses[m];
            let idx: u64 = start + i as u64;
            assert(idx < n);
            let ghost before = out@;
            let data = copy_vec(disk[idx as usize].as_slice());
            let copy = copy_vec(data.as_slice());
            assert(!self.held(idx));
            assert(self.contents(disk@)[idx as int] == disk@[idx as int]@);
            self.insert_page(disk, idx, copy);
            out.set(i, data);
            proof {
                let t = misses@.take(m + 1);
                let u = misses@.take(m as int);
                assert(t[m as int] == i);
                assert(absolute(start as int, t).drop_last() =~= absolute(start as int, u));
                assert(absolute(start as int, t).last() == idx);
                assert forall|k: int| 0 <= k < first.len() implies (#[trigger] out@[k])@ == (
                if t.contains(k as usize) {
                    was.contents(disk@)[start + k]
                } else {
                    first[k]@
                }) by {
                    if k == i {
                        assert(t.contains(k as usize));
                    } else {
                        assert(out@[k] == before[k]);
                        if t.contains(k as usize) {
                            let j = choose|j: int| 0 <= j < t.len() && t[j] == k as usize;
                            assert(k as usize != i);
                            assert(j != m);
                            assert(u[j] == k as usize);
                        } else if u.contains(k as usize) {
                            let j = choose|j: int| 0 <= j < u.len() && u[j] == k as usize;
                            assert(t[j] == k as usize);
                        }
                    }
                }
                assert forall|j: int| m + 1 <= j < misses@.len() implies !self.held(
                    (start + #[trigger] misses@[j]) as u64,
                ) by {
                    assert(misses@[m as int] < misses@[j]);
                }
            }
            m = m + 1;
        }
        assert(misses@.take(misses@.len() as int) =~= misses@);
    }

    /// Overwrites page `idx`. A page the cache can hold becomes dirty; any other is
    /// written to the device at once, and no longer waits for a checkpoint.
    pub fn write_page(
        &mut self,
        disk: &mut Vec<Vec<u8>>,
        tracker: &mut CheckpointTracker,
        idx: u64,
        data: Vec<u8>,
    )
        requires
            old(self).wf(old(disk)@),
            idx < old(disk).len(),
            data@.len() == PAGE_SIZE,
        ensures
            final(self).wf(final(disk)@),
            final(self).device_id == old(self).device_id,
            final(self).clock == old(self).clock,
            final(self).contents(final(disk)@) == old(self).contents(old(disk)@).update(
                idx as int,
                data@,
            ),
            final(self).held(idx) == old(self).fits(idx),
            final(tracker).committed_seq == old(tracker).committed_seq,
            final(tracker).paused == old(tracker).paused,
            old(self).fits(idx) ==> home(final(disk)@) == home(old(disk)@) && final(self).dirty()
                == old(self).dirty().insert(idx) && final(tracker).seqs@ == old(tracker).seqs@,
            !old(self).fits(idx) ==> home(final(disk)@) == home(old(disk)@).update(
                idx as int,
                data@,
            ) && final(self).dirty() == old(self).dirty() && final(tracker).seqs@ == old(
                tracker).seqs@.remove(idx),
            forall|k: u64|
                k != idx && #[trigger] final(self).held(k) ==> old(self).held(k) && final(self).page(
                    k,
                ) == old(self).page(k),
            orders(final(self).shards@) == (if old(self).held(idx) {
                looked_for(orders(old(self).shards@), old(self).device_id, idx)
            } else {
                fetched(orders(old(self).shards@), old(self).device_id, old(self).kept(), idx)
            }),
    {
        let ghost d0 = disk@;
        let si: usize = shard_index(self.device_id, idx);
        proof {
            self.shards@[si as int].lemma_wf();
        }
        let mut cached: bool = self.shards[si].touch(idx);
        proof {
            lemma_one_shard(old(self).shards@, self.shards@, self.device_id, si as int);
            assert(self.same_pages(old(self)));
            assert(self.kept() =~= old(self).kept());
            assert(orders(self.shards@) =~= looked_for(
                orders(old(self).shards@),
                self.device_id,
                idx,
            ));
            assert(self.dirty() =~= old(self).dirty());
            assert(self.contents(disk@) =~= old(self).contents(disk@));
        }
        if !cached {
            let was = copy_vec(disk[idx as usize].as_slice());
            assert(self.shards@[si as int].recent() == old(self).shards@[si as int].recent());
            cached = self.insert_page(disk, idx, was);
        }
        let ghost mid = *self;
        if cached {
            let ghost before = self.shards@[si as int];
            let now: u64 = self.clock;
            self.shards[si].put(idx, data, now);
            proof {
                assert forall|k: u64| #[trigger] self.shards@[si as int].pages@.contains_key(
                    k,
                ) implies si == shard::shard_of(self.device_id, k) by {
                    assert(before.pages@.contains_key(k));
                }
                lemma_one_shard(mid.shards@, self.shards@, self.device_id, si as int);
                assert forall|k: u64| k != idx && #[trigger] mid.held(k) implies self.page(k)
                    == mid.page(k) by {
                    if shard::shard_of(self.device_id, k) == si {
                        assert(before.pages@.contains_key(k));
                    }
                }
                assert forall|k: u64| #[trigger] self.held(k) == mid.held(k) by {
                    if shard::shard_of(self.device_id, k) == si {
                        assert(self.shards@[si as int].pages@.dom().contains(k)
                            == before.pages@.dom().contains(k));
                    }
                }
                assert(self.dirty() =~= old(self).dirty().insert(idx));
                assert(self.contents(disk@) =~= old(self).contents(d0).update(idx as int, data@));
                assert(orders(self.shards@) =~= orders(mid.shards@));
            }
            let dirty: usize = self.shards[si].dirty_len();
            if dirty > SHARD_CAPACITY / 4 {
                self.kick_writeback();
            }
        } else {
            disk[idx as usize] = data;
            match tracker.enrolled_seq(idx) {
                Some(s) => {
                    tracker.note_checkpointed(idx, s);
                },
                None => {},
            }
            proof {
                assert(tracker.seqs@ =~= old(tracker).seqs@.remove(idx));
                assert(home(disk@) =~= home(d0).update(idx as int, data@));
                assert forall|i: int| 0 <= i < home(disk@).len() implies (#[trigger] home(
                    disk@,
                )[i]).len() == PAGE_SIZE by {
                    if i != idx {
                        assert(home(disk@)[i] == home(d0)[i]);
                    }
                }
                assert(self.contents(disk@) =~= old(self).contents(d0).update(idx as int, data@));
            }
        }
    }

    /// Whether a pass writes page `k` out: it must be dirty, the journal must have
    /// committed it, and unless the pass is forced it must have expired.
    pub open spec fn due(&self, tracker: CheckpointTracker, force: bool, k: u64) -> bool {
        &&& self.dirty().contains(k)
        &&& tracker.flushable(k)
        &&& (force || self.page(k).expired(self.clock))
    }

    /// Drops page `idx` from the cache, dirty or not.
    fn forget(&mut self, disk: &Vec<Vec<u8>>, idx: u64)
        requires
            old(self).wf(disk@),
        ensures
            final(self).wf(disk@),
            final(self).device_id == old(self).device_id,
            final(self).clock == old(self).clock,
            !final(self).held(idx),
            forall|k: u64| k != idx ==> #[trigger] final(self).held(k) == old(self).held(k),
            forall|k: u64|
                k != idx && old(self).held(k) ==> #[trigger] final(self).page(k) == old(self).page(
                    k,
                ),
    {
        let si: usize = shard_index(self.device_id, idx);
        let ghost before = self.shards@[si as int];
        self.shards[si].remove(idx);
        proof {
            assert forall|k: u64| #[trigger] self.shards@[si as int].pages@.contains_key(
                k,
            ) implies si == shard::shard_of(self.device_id, k) by {
                assert(before.pages@.contains_key(k));
            }
            lemma_one_shard(old(self).shards@, self.shards@, self.device_id, si as int);
            assert forall|k: u64| k != idx implies #[trigger] self.held(k) == old(self).held(k) by {}
        }
    }

    /// Writes a dirty page out if it is [`due`](Self::due). Returns whether it was.
    fn flush_page(
        &mut self,
        disk: &mut Vec<Vec<u8>>,
        tracker: &mut CheckpointTracker,
        force: bool,
        idx: u64,
    ) -> (r: bool)
        requires
            old(self).wf(old(disk)@),
            old(self).dirty().contains(idx),
        ensures
            final(self).wf(final(disk)@),
            final(self).device_id == old(self).device_id,
            final(self).clock == old(self).clock,
            final(self).contents(final(disk)@) == old(self).contents(old(disk)@),
            r == old(self).due(*old(tracker), force, idx),
            final(tracker).committed_seq == old(tracker).committed_seq,
            final(tracker).paused == old(tracker).paused,
            forall|k: u64| #[trigger] final(self).held(k) == old(self).held(k),
            forall|k: u64|
                k != idx && old(self).held(k) ==> #[trigger] final(self).page(k) == old(self).page(
                    k,
                ),
            !r ==> final(self).page(idx) == old(self).page(idx) && final(self).dirty() == old(
                self).dirty() && final(disk)@ == old(disk)@ && final(tracker).seqs@ == old(
                tracker).seqs@,
            r ==> final(self).dirty() == old(self).dirty().remove(idx) && home(final(disk)@)
                == home(old(disk)@).update(idx as int, old(self).page(idx).data@) && final(
                tracker).seqs@ == old(tracker).seqs@.remove(idx),
            forall|s: int|
                0 <= s < NUM_SHARDS && s != shard::shard_of(old(self).device_id, idx)
                    ==> #[trigger] final(self).shards@[s] == old(self).shards@[s],
    {
        let ghost d0 = disk@;
        let si: usize = shard_index(self.device_id, idx);
        self.shards[si].touch(idx);
        proof {
            lemma_one_shard(old(self).shards@, self.shards@, self.device_id, si as int);
            assert(self.same_pages(old(self)));
            assert(self.dirty() =~= old(self).dirty());
            assert(self.contents(disk@) =~= old(self).contents(disk@));
            self.shards@[si as int].lemma_wf();
        }
        let seq: Option<u64> = tracker.enrolled_seq(idx);
        if !tracker.may_flush(idx) {
            return false;
        }
        let now: u64 = self.clock;
        let (data, expired): (Vec<u8>, bool) = match self.shards[si].pages.get(idx) {
            Some(p) => (copy_vec(p.data.as_slice()), p.is_expired(now)),
            None => (Vec::new(), false),
        };
        if !force && !expired {
            return false;
        }
        let ghost mid = *self;
        assert(idx < disk.len());
        disk[idx as usize] = data;
        self.shards[si].clean(idx);
        match seq {
            Some(s) => {
                tracker.note_checkpointed(idx, s);
            },
            None => {},
        }
        proof {
            assert(tracker.seqs@ =~= old(tracker).seqs@.remove(idx));
            assert(home(disk@) =~= home(d0).update(idx as int, data@));
            assert forall|i: int| 0 <= i < home(disk@).len() implies (#[trigger] home(
                disk@,
            )[i]).len() == PAGE_SIZE by {
                if i != idx {
                    assert(home(disk@)[i] == home(d0)[i]);
                }
            }
            assert forall|k: u64| #[trigger] self.shards@[si as int].pages@.contains_key(
                k,
            ) implies si == shard::shard_of(self.device_id, k) by {
                assert(mid.shards@[si as int].pages@.contains_key(k));
            }
            lemma_one_shard(mid.shards@, self.shards@, self.device_id, si as int);
            assert forall|k: u64| #[trigger] self.held(k) == old(self).held(k) by {
                assert(mid.held(k) == old(self).held(k));
            }
            assert forall|k: u64| k != idx && old(self).held(k) implies #[trigger] self.page(k)
                == old(self).page(k) by {
                assert(mid.page(k) == old(self).page(k));
            }
            assert(self.dirty() =~= old(self).dirty().remove(idx));
            assert(self.contents(disk@) =~= old(self).contents(d0));
        }
        true
    }

    /// The pages a pass writes out.
    pub open spec fn due_set(&self, tracker: CheckpointTracker, force: bool) -> Set<u64> {
        Set::new(|k: u64| self.due(tracker, force, k))
    }

    /// A pass over some of the dirty pages that has written out those in `done`.
    spec fn midway(
        &self,
        disk: Seq<Vec<u8>>,
        tracker: CheckpointTracker,
        old_self: BlockPageCache,
        old_disk: Seq<Vec<u8>>,
        old_tracker: CheckpointTracker,
        force: bool,
        done: Set<u64>,
    ) -> bool {
        &&& self.wf(disk)
        &&& self.device_id == old_self.device_id
        &&& self.clock == old_self.clock
        &&& disk.len() == old_disk.len()
        &&& self.contents(disk) == old_self.contents(old_disk)
        &&& done.finite()
        &&& done.subset_of(old_self.due_set(old_tracker, force))
        &&& self.dirty() == old_self.dirty().difference(done)
        &&& tracker.committed_seq == old_tracker.committed_seq
        &&& tracker.paused == old_tracker.paused
        &&& tracker.seqs@ == old_tracker.seqs@.remove_keys(done)
        &&& forall|k: u64| #[trigger] self.held(k) == old_self.held(k)
        &&& forall|k: u64|
            !done.contains(k) && old_self.held(k) ==> #[trigger] self.page(k) == old_self.page(k)
        &&& forall|i: int|
            0 <= i < disk.len() ==> (#[trigger] disk[i])@ == (if done.contains(i as u64) {
                old_self.contents(old_disk)[i]
            } else {
                old_disk[i]@
            })
    }

    /// Writes dirty pages to the device in one pass: all those that the journal has
    /// committed if `force`, else only those of them that have expired. Returns the
    /// number of bytes written.
    pub fn flush_dirty_once(
        &mut self,
        disk: &mut Vec<Vec<u8>>,
        tracker: &mut CheckpointTracker,
        force: bool,
    ) -> (bytes: u64)
        requires
            old(self).wf(old(disk)@),
        ensures
            final(self).wf(final(disk)@),
            final(self).device_id == old(self).device_id,
            final(self).clock == old(self).clock,
            final(self).contents(final(disk)@) == old(self).contents(old(disk)@),
            final(self).dirty() == old(self).dirty().difference(
                old(self).due_set(*old(tracker), force),
            ),
            final(tracker).committed_seq == old(tracker).committed_seq,
            final(tracker).paused == old(tracker).paused,
            final(tracker).seqs@ == old(tracker).seqs@.remove_keys(
                old(self).due_set(*old(tracker), force),
            ),
            home(final(disk)@) == Seq::new(
                old(disk)@.len(),
                |i: int|
                    if old(self).due(*old(tracker), force, i as u64) {
                        old(self).contents(old(disk)@)[i]
                    } else {
                        home(old(disk)@)[i]
                    },
            ),
            bytes == PAGE_SIZE * old(self).due_set(*old(tracker), force).len(),
    {
        let ghost s0 = *self;
        let ghost d0 = disk@;
        let ghost t0 = *tracker;
        let ghost mut done = Set::<u64>::empty();
        let mut count: u64 = 0;
        let mut si: usize = 0;
        proof {
            assert(self.dirty() =~= s0.dirty().difference(done));
            assert(tracker.seqs@ =~= t0.seqs@.remove_keys(done));
        }
        while si < NUM_SHARDS
            invariant
                si <= NUM_SHARDS,
                self.midway(disk@, *tracker, s0, d0, t0, force, done),
                count == done.len(),
                count <= si * SHARD_CAPACITY,
                forall|k: u64|
                    #[trigger] done.contains(k) ==> shard::shard_of(s0.device_id, k) < si,
                forall|k: u64|
                    #[trigger] s0.due(t0, force, k) && shard::shard_of(s0.device_id, k) < si
                        ==> done.contains(k),
            decreases NUM_SHARDS - si,
        {
            let n: usize = self.shards[si].dirty_len();
            let keys = self.shards[si].dirty.listed();
            let ghost order = keys@;
            let ghost dset = self.shards@[si as int].dirty@;
            proof {
                self.shards@[si as int].lemma_wf();
                assert forall|k: u64| #[trigger] keys@.contains(k) <==> (s0.dirty().contains(k)
                    && shard::shard_of(s0.device_id, k) == si) by {
                    assert(order.to_set().contains(k) <==> keys@.contains(k));
                    if dset.contains(k) {
                        assert(self.held(k) && self.page(k).dirty);
                        assert(self.dirty().contains(k));
                    }
                    if s0.dirty().contains(k) && shard::shard_of(s0.device_id, k) == si {
                        assert(!done.contains(k));
                        assert(self.dirty().contains(k));
                        assert(self.held(k));
                    }
                }
            }
            let ghost done0 = done;
            let mut j: usize = 0;
            while j < n
                invariant
                    si < NUM_SHARDS,
                    j <= n,
                    n <= SHARD_CAPACITY,
                    n == keys@.len(),
                    crate::sorted::ascending(keys@),
                    forall|k: u64| #[trigger]
                        keys@.contains(k) <==> (s0.dirty().contains(k) && shard::shard_of(
                            s0.device_id,
                            k,
                        ) == si),
                    self.midway(disk@, *tracker, s0, d0, t0, force, done),
                    count == done.len(),
                    count <= si * SHARD_CAPACITY + j,
                    forall|k: u64|
                        #[trigger] done.contains(k) ==> shard::shard_of(s0.device_id, k) < si || (
                        exists|q: int| 0 <= q < j && keys@[q] == k),
                    forall|k: u64|
                        #[trigger] s0.due(t0, force, k) && shard::shard_of(s0.device_id, k) < si
                            ==> done.contains(k),
                    forall|q: int|
                        0 <= q < j && s0.due(t0, force, #[trigger] keys@[q]) ==> done.contains(
                            keys@[q],
                        ),
                decreases n - j,
            {
                let k: u64 = keys[j];
                proof {
                    assert(keys@.contains(k));
                    assert(!done.contains(k));
                    assert(self.dirty().contains(k));
                    assert(self.page(k) == s0.page(k));
                    assert(tracker.seqs@.contains_key(k) == t0.seqs@.contains_key(k));
                    assert(self.due(*tracker, force, k) == s0.due(t0, force, k));
                }
                let ghost mid = *self;
                let ghost dmid = disk@;
                let ghost tmid = *tracker;
                let hit: bool = self.flush_page(disk, tracker, force, k);
                if hit {
                    count = count + 1;
                    proof {
                        let done1 = done.insert(k);
                        assert(s0.due_set(t0, force).contains(k));
                        assert(self.dirty() =~= s0.dirty().difference(done1));
                        assert(tracker.seqs@ =~= t0.seqs@.remove_keys(done1));
                        assert forall|i: int| 0 <= i < disk@.len() implies (#[trigger] disk@[i])@
                            == (if done1.contains(i as u64) {
                            s0.contents(d0)[i]
                        } else {
                            d0[i]@
                        }) by {
                            assert(home(disk@)[i] == home(dmid).update(
                                k as int,
                                mid.page(k).data@,
                            )[i]);
                            if i == k {
                                assert(mid.contents(dmid)[i] == mid.page(k).data@);
                            } else {
                                assert(disk@[i]@ == dmid[i]@);
                                assert(i < crate::block_device::MAX_PAGES);
                            }
                        }
                        assert(home(disk@).len() == home(dmid).len());
                        done = done1;
                    }
                }
                assert(disk@.len() == d0.len()) by {
                    assert(home(disk@).len() == disk@.len());
                    assert(home(dmid).len() == dmid.len());
                }
                j = j + 1;
            }
            proof {
                assert forall|k: u64| #[trigger] done.contains(k) implies shard::shard_of(
                    s0.device_id,
                    k,
                ) < si + 1 by {
                    if shard::shard_of(s0.device_id, k) >= si {
                        let q = choose|q: int| 0 <= q < j && keys@[q] == k;
                        assert(keys@.contains(keys@[q]));
                    }
                }
                assert forall|k: u64| #[trigger] s0.due(t0, force, k) && shard::shard_of(
                    s0.device_id,
                    k,
                ) < si + 1 implies done.contains(k) by {
                    if shard::shard_of(s0.device_id, k) == si {
                        assert(keys@.contains(k));
                        let q = choose|q: int| 0 <= q < keys@.len() && keys@[q] == k;
                        assert(s0.due(t0, force, keys@[q]));
                    }
                }
            }
            si = si + 1;
        }
        proof {
            assert(done =~= s0.due_set(t0, force));
            assert(home(disk@) =~= Seq::new(
                d0.len(),
                |i: int|
                    if s0.due(t0, force, i as u64) {
                        s0.contents(d0)[i]
                    } else {
                        home(d0)[i]
                    },
            ));
        }
        assert(count <= 2048);
        count * 4096
    }

    /// Drops what is cached of `count` pages from `first` on, for a caller that has
    /// just put those pages on the device itself: what is cached is older, and the
    /// pages have reached their home location.
    pub fn invalidate_pages(
        &mut self,
        disk: &Vec<Vec<u8>>,
        tracker: &mut CheckpointTracker,
        first: u64,
        count: u64,
    )
        requires
            old(self).wf(disk@),
            first + count <= u64::MAX,
        ensures
            final(self).wf(disk@),
            final(self).device_id == old(self).device_id,
            final(self).clock == old(self).clock,
            forall|k: u64| #[trigger]
                final(self).held(k) == (old(self).held(k) && !(first <= k < first + count)),
            forall|k: u64| #[trigger] final(self).held(k) ==> final(self).page(k) == old(self).page(k),
            final(self).contents(disk@) == Seq::new(
                disk@.len(),
                |i: int|
                    if first <= i < first + count {
                        home(disk@)[i]
                    } else {
                        old(self).contents(disk@)[i]
                    },
            ),
            final(self).dirty() == old(self).dirty().difference(
                Set::new(|k: u64| first <= k < first + count),
            ),
            final(tracker).committed_seq == old(tracker).committed_seq,
            final(tracker).paused == old(tracker).paused,
            final(tracker).seqs@ == old(tracker).seqs@.remove_keys(
                Set::new(|k: u64| first <= k < first + count),
            ),
    {
        let ghost s0 = *self;
        let ghost t0 = *tracker;
        let mut k: u64 = first;
        assert(tracker.seqs@ =~= t0.seqs@.remove_keys(Set::new(|x: u64| first <= x < first)));
        while k < first + count
            invariant
                first <= k <= first + count <= u64::MAX,
                self.wf(disk@),
                self.device_id == s0.device_id,
                self.clock == s0.clock,
                forall|x: u64| #[trigger] self.held(x) == (s0.held(x) && !(first <= x < k)),
                forall|x: u64| #[trigger] self.held(x) ==> self.page(x) == s0.page(x),
                tracker.committed_seq == t0.committed_seq,
                tracker.paused == t0.paused,
                tracker.seqs@ == t0.seqs@.remove_keys(Set::new(|x: u64| first <= x < k)),
            decreases first + count - k,
        {
            let ghost mid = *self;
            self.forget(disk, k);
            match tracker.enrolled_seq(k) {
                Some(s) => {
                    tracker.note_checkpointed(k, s);
                },
                None => {},
            }
            proof {
                assert forall|x: u64| #[trigger] self.held(x) == (s0.held(x) && !(first <= x < k
                    + 1)) by {
                    if x != k {
                        assert(self.held(x) == mid.held(x));
                    }
                }
                assert forall|x: u64| #[trigger] self.held(x) implies self.page(x) == s0.page(
                    x,
                ) by {
                    assert(mid.held(x));
                    assert(self.page(x) == mid.page(x));
                }
                assert(tracker.seqs@ =~= t0.seqs@.remove_keys(
                    Set::new(|x: u64| first <= x < k + 1),
                ));
            }
            k = k + 1;
        }
        proof {
            assert(self.dirty() =~= s0.dirty().difference(
                Set::new(|x: u64| first <= x < first + count),
            ));
            assert(self.contents(disk@) =~= Seq::new(
                disk@.len(),
                |i: int|
                    if first <= i < first + count {
                        home(disk@)[i]
                    } else {
                        s0.contents(disk@)[i]
                    },
            ));
        }
    }

    /// Writes every dirty page out and drops everything. Pages that the journal has
    /// not committed are written too: nothing else holds their contents any more.
    pub fn invalidate_device(&mut self, disk: &mut Vec<Vec<u8>>, tracker: &mut CheckpointTracker)
        requires
            old(self).wf(old(disk)@),
        ensures
            final(self).wf(final(disk)@),
            final(self).device_id == old(self).device_id,
            final(self).clock == old(self).clock,
            forall|k: u64| !#[trigger] final(self).held(k),
            home(final(disk)@) == old(self).contents(old(disk)@),
            final(self).contents(final(disk)@) == old(self).contents(old(disk)@),
            final(tracker).committed_seq == old(tracker).committed_seq,
            final(tracker).paused == old(tracker).paused,
            final(tracker).seqs@ == old(tracker).seqs@.remove_keys(old(self).dirty()),
    {
        let ghost s0 = *self;
        let ghost d0 = disk@;
        let ghost t0 = *tracker;
        self.flush_dirty_once(disk, tracker, true);
        let ghost s1 = *self;
        let ghost d1 = disk@;
        let n: usize = disk.len();
        let mut k: usize = 0;
        let ghost gone = |x: u64, k: int| s0.due_set(t0, true).contains(x) || (s0.dirty().contains(x) && x < k);
        proof {
            assert(home(d1).len() == d0.len());
            assert(tracker.seqs@ =~= t0.seqs@.remove_keys(Set::new(|x: u64| gone(x, 0))));
        }
        while k < n
            invariant
                k <= n,
                n == disk.len(),
                d1.len() == n,
                self.wf(disk@),
                s1.wf(d1),
                self.device_id == s1.device_id,
                self.clock == s1.clock,
                self.contents(disk@) == s1.contents(d1),
                s1.dirty() == s0.dirty().difference(s0.due_set(t0, true)),
                forall|x: u64| #[trigger] self.held(x) == (s1.held(x) && x >= k),
                forall|x: u64| #[trigger] self.held(x) ==> self.page(x) == s1.page(x),
                tracker.committed_seq == t0.committed_seq,
                tracker.paused == t0.paused,
                gone == (|x: u64, k: int|
                    s0.due_set(t0, true).contains(x) || (s0.dirty().contains(x) && x < k)),
                tracker.seqs@ == t0.seqs@.remove_keys(Set::new(|x: u64| gone(x, k as int))),
            decreases n - k,
        {
            let idx: u64 = k as u64;
            let si: usize = shard_index(self.device_id, idx);
            let ghost mid = *self;
            let ghost dmid = disk@;
            let ghost tmid = *tracker;
            let still: Option<Vec<u8>> = match self.shards[si].pages.get(idx) {
                Some(p) => if p.dirty {
                    Some(copy_vec(p.data.as_slice()))
                } else {
                    None
                },
                None => None,
            };
            proof {
                assert(still is Some <==> mid.dirty().contains(idx));
                assert(mid.dirty().contains(idx) <==> s1.dirty().contains(idx)) by {
                    assert(mid.held(idx) == s1.held(idx));
                }
                if mid.held(idx) {
                    mid.shards@[si as int].lemma_wf();
                }
            }
            self.forget(disk, idx);
            match still {
                Some(data) => {
                    disk[k] = data;
                    match tracker.enrolled_seq(idx) {
                        Some(s) => {
                            tracker.note_checkpointed(idx, s);
                        },
                        None => {},
                    }
                    proof {
                        assert(home(disk@) =~= home(dmid).update(k as int, data@));
                        assert forall|i: int| 0 <= i < home(disk@).len() implies (#[trigger] home(
                            disk@,
                        )[i]).len() == PAGE_SIZE by {
                            if i != k {
                                assert(home(disk@)[i] == home(dmid)[i]);
                            }
                        }
                    }
                },
                None => {},
            }
            proof {
                assert forall|x: u64| #[trigger] self.held(x) == (s1.held(x) && x >= k + 1) by {
                    if x != idx {
                        assert(self.held(x) == mid.held(x));
                    }
                }
                assert forall|x: u64| #[trigger] self.held(x) implies self.page(x) == s1.page(
                    x,
                ) by {
                    assert(mid.held(x));
                    assert(self.page(x) == mid.page(x));
                }
                assert(self.contents(disk@) =~= mid.contents(dmid));
                assert(tracker.seqs@ =~= t0.seqs@.remove_keys(
                    Set::new(|x: u64| gone(x, k as int + 1)),
                ));
            }
            k = k + 1;
        }
        proof {
            assert forall|x: u64| !#[trigger] self.held(x) by {
                if self.held(x) {
                    assert(s1.held(x));
                }
            }
            assert(home(disk@) =~= self.contents(disk@));
            assert(Set::new(|x: u64| gone(x, n as int)) =~= s0.dirty()) by {
                assert forall|x: u64| s0.dirty().contains(x) implies x < n by {
                    assert(s0.held(x));
                }
            }
        }
    }
}

} // verus!
