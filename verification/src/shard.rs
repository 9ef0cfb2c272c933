//! One shard of the block page cache: its pages, the order in which they were used,
//! and which of them are dirty.
use lru::LruCache;
use vstd::prelude::*;
use crate::block_device::PAGE_SIZE;
use crate::recency;
use crate::recency::{lru_get, lru_len, lru_new, lru_peek, lru_pop, lru_put};
use crate::sorted::{SortedMap, SortedSet};

verus! {

/// Pages per shard.
pub const SHARD_CAPACITY: usize = 256;

/// Number of shards.
pub const NUM_SHARDS: usize = 8;

/// A dirty page is written back by a periodic pass once it has been dirty for this
/// many milliseconds. Forced passes do not wait.
pub const DIRTY_EXPIRE_MS: u64 = 5_000;

/// The shard a page belongs to.
#[verifier::opaque]
pub open spec fn shard_of(device_id: u64, idx: u64) -> int {
    (device_id.wrapping_mul(0x517c_c1b7_2722_0a95).wrapping_add(
        idx.wrapping_mul(0x6c62_272e_07bb_0142),
    ) % 8) as int
}

/// The shard a page belongs to.
pub fn shard_index(device_id: u64, idx: u64) -> (r: usize)
    ensures
        r == shard_of(device_id, idx),
        r < NUM_SHARDS,
{
    reveal(shard_of);
    let h: u64 = device_id.wrapping_mul(0x517c_c1b7_2722_0a95).wrapping_add(
        idx.wrapping_mul(0x6c62_272e_07bb_0142),
    );
    (h % 8) as usize
}

/// There are only so many shards.
pub broadcast proof fn lemma_shard_of(device_id: u64, idx: u64)
    ensures
        0 <= #[trigger] shard_of(device_id, idx) < NUM_SHARDS,
{
    reveal(shard_of);
}

/// A page held by the cache.
pub struct CachedBlockPage {
    /// Device and page index.
    pub key: (u64, u64),
    pub data: Vec<u8>,
    pub dirty: bool,
    /// When the page was first dirtied, in milliseconds (0: not dirty).
    pub dirty_since: u64,
    /// Users that keep the page from being evicted.
    pub pin_count: u32,
}

impl CachedBlockPage {
    /// A clean, unpinned page.
    pub fn new(key: (u64, u64), data: Vec<u8>) -> (r: CachedBlockPage)
        ensures
            r == (CachedBlockPage { key, data, dirty: false, dirty_since: 0, pin_count: 0 }),
    {
        CachedBlockPage { key, data, dirty: false, dirty_since: 0, pin_count: 0 }
    }

    /// Marks the page dirty. Only the first mark sets the time.
    pub fn mark_dirty(&mut self, now: u64)
        ensures
            *final(self) == (CachedBlockPage {
                dirty: true,
                dirty_since: if old(self).dirty {
                    old(self).dirty_since
                } else {
                    now
                },
                ..*old(self)
            }),
    {
        if !self.dirty {
            self.dirty = true;
            self.dirty_since = now;
        }
    }

    /// Marks the page clean.
    pub fn clear_dirty(&mut self)
        ensures
            *final(self) == (CachedBlockPage { dirty: false, dirty_since: 0, ..*old(self) }),
    {
        self.dirty = false;
        self.dirty_since = 0;
    }

    /// Whether the page holds changes that its home copy does not.
    pub fn is_dirty(&self) -> (r: bool)
        ensures
            r == self.dirty,
    {
        self.dirty
    }

    /// Whether the page has been dirty for at least [`DIRTY_EXPIRE_MS`].
    pub open spec fn expired(&self, now: u64) -> bool {
        self.dirty_since != 0 && now - self.dirty_since >= DIRTY_EXPIRE_MS
    }

    /// Whether the page has been dirty for at least [`DIRTY_EXPIRE_MS`].
    pub fn is_expired(&self, now: u64) -> (r: bool)
        ensures
            r == self.expired(now),
    {
        self.dirty_since != 0 && now >= self.dirty_since && now - self.dirty_since
            >= DIRTY_EXPIRE_MS
    }

    /// Keeps the page from being evicted.
    pub fn pin(&mut self)
        requires
            old(self).pin_count < u32::MAX,
        ensures
            *final(self) == (CachedBlockPage {
                pin_count: (old(self).pin_count + 1) as u32,
                ..*old(self)
            }),
    {
        self.pin_count = self.pin_count + 1;
    }

    /// Gives up one pin.
    pub fn unpin(&mut self)
        requires
            old(self).pin_count > 0,
        ensures
            *final(self) == (CachedBlockPage {
                pin_count: (old(self).pin_count - 1) as u32,
                ..*old(self)
            }),
    {
        self.pin_count = self.pin_count - 1;
    }

    /// How many pins there are.
    pub fn pin_count(&self) -> (r: u32)
        ensures
            r == self.pin_count,
    {
        self.pin_count
    }
}

/// One shard of the cache.
pub struct Shard {
    pub device_id: u64,
    pub lru: LruCache<(u64, u64), u64>,
    pub pages: SortedMap<CachedBlockPage>,
    pub dirty: SortedSet,
}

impl Shard {
    /// The page indices in the shard, most recently used first.
    pub closed spec fn recent(&self) -> Seq<u64> {
        values(recency::lru_entries(self.lru))
    }

    /// The recency list names the pages of the shard, each once; the dirty set
    /// names those that are dirty.
    pub closed spec fn wf(&self) -> bool {
        &&& recency::lru_capacity(self.lru) == SHARD_CAPACITY
        &&& recency::lru_entries(self.lru).len() <= SHARD_CAPACITY
        &&& keyed(recency::lru_entries(self.lru), self.device_id)
        &&& self.recent().no_duplicates()
        &&& self.recent().to_set() == self.pages@.dom()
        &&& forall|k: u64| #[trigger]
            self.pages@.contains_key(k) ==> self.pages@[k].key == (self.device_id, k)
                && self.pages@[k].data@.len() == PAGE_SIZE
        &&& forall|k: u64| #[trigger]
            self.dirty@.contains(k) <==> (self.pages@.contains_key(k) && self.pages@[k].dirty)
    }
}

/// The order of use once page `k`, which is in it, has been used.
pub open spec fn used_now(r: Seq<u64>, k: u64) -> Seq<u64> {
    seq![k] + r.remove(r.index_of(k))
}

/// The order of use once page `k`, which is not in it, has been added. A full shard lets the
/// least recently used page go for it, unless that page has to stay: the new page is then not
/// added.
pub open spec fn used_first(r: Seq<u64>, stay: Set<u64>, k: u64) -> Seq<u64> {
    if r.len() < SHARD_CAPACITY {
        seq![k] + r
    } else if stay.contains(r.last()) {
        r
    } else {
        seq![k] + r.drop_last()
    }
}

/// Adding a page lets no other page go but the least recently used one, if that may leave.
pub proof fn lemma_used_first(r: Seq<u64>, stay: Set<u64>, k: u64, x: u64)
    ensures
        r.len() < SHARD_CAPACITY || !stay.contains(r.last()) ==> used_first(r, stay, k).contains(k),
        r.contains(x) && !used_first(r, stay, k).contains(x) ==> x == r.last() && r.len()
            >= SHARD_CAPACITY && !stay.contains(x),
{
    let after = used_first(r, stay, k);
    if r.len() < SHARD_CAPACITY || !stay.contains(r.last()) {
        assert(after[0] == k);
    }
    if r.contains(x) {
        let i = choose|i: int| 0 <= i < r.len() && r[i] == x;
        if r.len() < SHARD_CAPACITY || (!stay.contains(r.last()) && i < r.len() - 1) {
            assert(after[i + 1] == x);
        }
    }
}

/// Whether every entry's key is the device and its value.
pub open spec fn keyed(es: Seq<((u64, u64), u64)>, dev: u64) -> bool {
    forall|i: int| 0 <= i < es.len() ==> (#[trigger] es[i]).0 == (dev, es[i].1)
}

/// The values of the entries, in the same order.
pub open spec fn values(es: Seq<((u64, u64), u64)>) -> Seq<u64> {
    es.map_values(|e: ((u64, u64), u64)| e.1)
}

proof fn lemma_find(es: Seq<((u64, u64), u64)>, dev: u64, k: u64)
    requires
        keyed(es, dev),
    ensures
        match recency::find_key(es, (dev, k)) {
            Some(i) => 0 <= i < es.len() && es[i] == ((dev, k), k) && values(es)[i] == k,
            None => !values(es).contains(k),
        },
        recency::find_key(es, (dev, k)) is Some <==> values(es).contains(k),
{
    if recency::find_key(es, (dev, k)) is None {
        if values(es).contains(k) {
            let i = choose|i: int| 0 <= i < es.len() && values(es)[i] == k;
            assert(es[i].0 == (dev, k));
        }
    } else {
        let i = recency::find_key(es, (dev, k))->Some_0;
        assert(es[i].0 == (dev, k));
        assert(values(es)[i] == k);
    }
}

proof fn lemma_removed_entry(es: Seq<((u64, u64), u64)>, dev: u64, i: int)
    requires
        keyed(es, dev),
        values(es).no_duplicates(),
        0 <= i < es.len(),
    ensures
        keyed(es.remove(i), dev),
        values(es.remove(i)).no_duplicates(),
        values(es.remove(i)).to_set() == values(es).to_set().remove(es[i].1),
{
    let v = values(es);
    let w = values(es.remove(i));
    assert(w =~= v.remove(i));
    assert forall|k: u64| w.to_set().contains(k) <==> v.to_set().remove(es[i].1).contains(k) by {
        if w.contains(k) {
            let j = choose|j: int| 0 <= j < w.len() && w[j] == k;
            let q = if j < i { j } else { j + 1 };
            assert(v[q] == k);
            assert(v[i] == es[i].1);
        }
        if v.contains(k) && k != es[i].1 {
            let j = choose|j: int| 0 <= j < v.len() && v[j] == k;
            let q = if j < i { j } else { j - 1 };
            assert(w[q] == k);
        }
    }
    assert(w.to_set() =~= v.to_set().remove(es[i].1));
}

proof fn lemma_added_entry(es: Seq<((u64, u64), u64)>, dev: u64, k: u64)
    requires
        keyed(es, dev),
        values(es).no_duplicates(),
        !values(es).contains(k),
    ensures
        keyed(seq![((dev, k), k)] + es, dev),
        values(seq![((dev, k), k)] + es).no_duplicates(),
        values(seq![((dev, k), k)] + es).to_set() == values(es).to_set().insert(k),
{
    let v = values(es);
    let w = values(seq![((dev, k), k)] + es);
    assert(w =~= seq![k] + v);
    assert forall|x: u64| w.to_set().contains(x) <==> v.to_set().insert(k).contains(x) by {
        if w.contains(x) {
            let j = choose|j: int| 0 <= j < w.len() && w[j] == x;
            if j > 0 {
                assert(v[j - 1] == x);
            }
        }
        if v.contains(x) {
            let j = choose|j: int| 0 <= j < v.len() && v[j] == x;
            assert(w[j + 1] == x);
        }
        assert(w[0] == k);
    }
    assert(w.to_set() =~= v.to_set().insert(k));
}

/// A page with new contents, dirty from `now` on unless it was dirty before.
pub open spec fn rewritten(p: CachedBlockPage, q: CachedBlockPage, now: u64) -> bool {
    &&& q.key == p.key
    &&& q.pin_count == p.pin_count
    &&& q.dirty
    &&& q.dirty_since == (if p.dirty {
        p.dirty_since
    } else {
        now
    })
}

impl Shard {
    /// What a well-formed shard means to its users.
    pub proof fn lemma_wf(&self)
        requires
            self.wf(),
        ensures
            forall|k: u64| #[trigger]
                self.pages@.contains_key(k) ==> self.pages@[k].key == (self.device_id, k)
                    && self.pages@[k].data@.len() == PAGE_SIZE,
            forall|k: u64| #[trigger]
                self.dirty@.contains(k) <==> (self.pages@.contains_key(k) && self.pages@[k].dirty),
            self.recent().no_duplicates(),
            self.recent().len() <= SHARD_CAPACITY,
            forall|k: u64| #[trigger]
                self.recent().contains(k) <==> self.pages@.contains_key(k),
    {
        assert forall|k: u64| #[trigger] self.recent().contains(k) <==> self.pages@.contains_key(
            k,
        ) by {
            assert(self.recent().to_set().contains(k) <==> self.recent().contains(k));
        }
    }

    /// Whether the shard holds as many pages as it can.
    pub fn is_full(&self) -> (r: bool)
        requires
            self.wf(),
        ensures
            r == (self.recent().len() >= SHARD_CAPACITY),
    {
        lru_len(&self.lru) >= SHARD_CAPACITY
    }

    /// How many pages are dirty; never more than the shard can hold.
    pub fn dirty_len(&self) -> (n: usize)
        requires
            self.wf(),
        ensures
            n == self.dirty@.len(),
            n <= SHARD_CAPACITY,
            self.dirty@.finite(),
    {
        let n: usize = self.dirty.len();
        proof {
            let r = self.recent();
            r.unique_seq_to_set();
            assert(self.dirty@.subset_of(r.to_set()));
            vstd::set_lib::lemma_len_subset(self.dirty@, r.to_set());
        }
        n
    }

    /// An empty shard.
    pub fn new(device_id: u64) -> (r: Shard)
        ensures
            r.wf(),
            r.device_id == device_id,
            r.pages@ == Map::<u64, CachedBlockPage>::empty(),
            r.dirty@ == Set::<u64>::empty(),
    {
        let r = Shard {
            device_id,
            lru: lru_new(SHARD_CAPACITY),
            pages: SortedMap::new(),
            dirty: SortedSet::new(),
        };
        assert(r.recent() =~= Seq::<u64>::empty());
        assert(r.recent().to_set() =~= r.pages@.dom());
        r
    }

    /// Marks the page most recently used. Returns whether the shard holds it.
    pub fn touch(&mut self, idx: u64) -> (r: bool)
        requires
            old(self).wf(),
        ensures
            final(self).wf(),
            final(self).device_id == old(self).device_id,
            final(self).pages@ == old(self).pages@,
            final(self).dirty@ == old(self).dirty@,
            r == old(self).pages@.contains_key(idx),
            final(self).recent() == (if r {
                used_now(old(self).recent(), idx)
            } else {
                old(self).recent()
            }),
    {
        let ghost es = recency::lru_entries(self.lru);
        let r = lru_get(&mut self.lru, (self.device_id, idx));
        proof {
            let dev = self.device_id;
            lemma_find(es, dev, idx);
            assert(old(self).recent().to_set().contains(idx) <==> values(es).contains(idx));
            if let Some(i) = recency::find_key(es, (dev, idx)) {
                lemma_removed_entry(es, dev, i);
                let rest = es.remove(i);
                assert(!values(rest).contains(idx)) by {
                    assert(values(rest).to_set().contains(idx) <==> values(rest).contains(idx));
                }
                lemma_added_entry(rest, dev, idx);
                assert(seq![((dev, idx), idx)] =~= seq![es[i]]);
                assert(values(es).index_of(idx) == i);
                assert(values(seq![es[i]] + rest) =~= used_now(values(es), idx));
                assert(values(es).to_set().remove(idx).insert(idx) =~= values(es).to_set());
            }
        }
        r.is_some()
    }

    /// The index of the least recently used page.
    pub open spec fn victim(&self) -> u64 {
        self.recent().last()
    }

    /// Adds a clean page, if there is room or the least recently used page can go:
    /// it must be neither pinned nor dirty. Returns whether the page was added.
    pub fn insert(&mut self, page: CachedBlockPage) -> (r: bool)
        requires
            old(self).wf(),
            page.key.0 == old(self).device_id,
            !old(self).pages@.contains_key(page.key.1),
            page.data@.len() == PAGE_SIZE,
            !page.dirty,
        ensures
            final(self).wf(),
            final(self).device_id == old(self).device_id,
            final(self).dirty@ == old(self).dirty@,
            old(self).recent().len() < SHARD_CAPACITY ==> r && final(self).pages@ == old(
                self,
            ).pages@.insert(page.key.1, page),
            old(self).recent().len() >= SHARD_CAPACITY ==> old(self).pages@.contains_key(
                old(self).victim(),
            ) && r == (old(self).pages@[old(self).victim()].pin_count == 0 && !old(
                self,
            ).pages@[old(self).victim()].dirty),
            old(self).recent().len() >= SHARD_CAPACITY && r ==> final(self).pages@ == old(
                self,
            ).pages@.remove(old(self).victim()).insert(page.key.1, page),
            !r ==> final(self).pages@ == old(self).pages@ && final(self).recent() == old(
                self,
            ).recent(),
            r ==> final(self).recent() == seq![page.key.1] + (if old(self).recent().len()
                >= SHARD_CAPACITY {
                old(self).recent().drop_last()
            } else {
                old(self).recent()
            }),
    {
        let idx: u64 = page.key.1;
        let dev: u64 = self.device_id;
        if lru_len(&self.lru) >= SHARD_CAPACITY {
            match lru_peek(&self.lru) {
                None => {
                    return false;
                },
                Some(e) => {
                    let evict: u64 = e.1;
                    let ghost es = recency::lru_entries(self.lru);
                    proof {
                        assert(values(es).last() == evict);
                        assert(self.recent().to_set().contains(self.recent().last()));
                        lemma_find(es, dev, evict);
                    }
                    let keep: bool = match self.pages.get(evict) {
                        Some(p) => p.pin_count != 0 || p.dirty,
                        None => true,
                    };
                    if keep {
                        return false;
                    }
                    lru_pop(&mut self.lru, e.0);
                    let gone = self.pages.remove(evict);
                    proof {
                        let i = recency::find_key(es, (dev, evict))->Some_0;
                        lemma_removed_entry(es, dev, i);
                        assert(values(es)[i] == values(es)[es.len() - 1]);
                        assert(i == es.len() - 1);
                        assert(values(es.remove(i)) =~= values(es).drop_last());
                        assert(self.pages@.dom() =~= old(self).pages@.dom().remove(evict));
                    }
                },
            }
        }
        let ghost es = recency::lru_entries(self.lru);
        proof {
            assert(!self.pages@.contains_key(idx));
            assert(self.recent().to_set().contains(idx) <==> self.recent().contains(idx));
            lemma_find(es, dev, idx);
            lemma_added_entry(es, dev, idx);
        }
        lru_put(&mut self.lru, (dev, idx), idx);
        assert(self.recent() =~= seq![idx] + values(es));
        let ghost before = self.pages@;
        self.pages.insert(idx, page);
        assert(self.pages@.dom() =~= before.dom().insert(idx));
        assert forall|k: u64| #[trigger] self.dirty@.contains(k) <==> (self.pages@.contains_key(k)
            && self.pages@[k].dirty) by {
            assert(old(self).dirty@.contains(k) <==> (old(self).pages@.contains_key(k) && old(
                self,
            ).pages@[k].dirty));
        }
        true
    }

    /// Puts `page` in place of the page with the same index.
    fn replace(&mut self, idx: u64, page: CachedBlockPage)
        requires
            old(self).wf(),
            old(self).pages@.contains_key(idx),
            page.key == (old(self).device_id, idx),
            page.data@.len() == PAGE_SIZE,
        ensures
            final(self).wf(),
            final(self).device_id == old(self).device_id,
            final(self).recent() == old(self).recent(),
            final(self).pages@ == old(self).pages@.insert(idx, page),
            final(self).dirty@ == (if page.dirty {
                old(self).dirty@.insert(idx)
            } else {
                old(self).dirty@.remove(idx)
            }),
    {
        if page.dirty {
            self.dirty.insert(idx);
        } else {
            self.dirty.remove(idx);
        }
        self.pages.insert(idx, page);
        assert(self.pages@.dom() =~= old(self).pages@.dom());
    }

    /// Overwrites a page the shard holds and marks it dirty.
    pub fn put(&mut self, idx: u64, data: Vec<u8>, now: u64)
        requires
            old(self).wf(),
            old(self).pages@.contains_key(idx),
            data@.len() == PAGE_SIZE,
        ensures
            final(self).wf(),
            final(self).device_id == old(self).device_id,
            final(self).pages@.dom() == old(self).pages@.dom(),
            forall|k: u64|
                k != idx && old(self).pages@.contains_key(k) ==> #[trigger] final(self).pages@[k]
                    == old(self).pages@[k],
            final(self).recent() == old(self).recent(),
            rewritten(old(self).pages@[idx], final(self).pages@[idx], now),
            final(self).pages@[idx].data@ == data@,
            final(self).dirty@ == old(self).dirty@.insert(idx),
    {
        let (was, since, pins): (bool, u64, u32) = match self.pages.get(idx) {
            Some(p) => (p.dirty, p.dirty_since, p.pin_count),
            None => (false, 0, 0),
        };
        let mut page = CachedBlockPage {
            key: (self.device_id, idx),
            data,
            dirty: was,
            dirty_since: since,
            pin_count: pins,
        };
        page.mark_dirty(now);
        self.replace(idx, page);
        assert(self.pages@.dom() =~= old(self).pages@.dom());
    }

    /// Marks a page the shard holds clean.
    pub fn clean(&mut self, idx: u64)
        requires
            old(self).wf(),
            old(self).pages@.contains_key(idx),
        ensures
            final(self).wf(),
            final(self).device_id == old(self).device_id,
            final(self).pages@ == old(self).pages@.insert(
                idx,
                CachedBlockPage { dirty: false, dirty_since: 0, ..old(self).pages@[idx] },
            ),
            final(self).dirty@ == old(self).dirty@.remove(idx),
    {
        let ghost d0 = self.dirty@;
        if let Some(p) = self.pages.remove(idx) {
            let mut page = p;
            page.clear_dirty();
            self.dirty.remove(idx);
            self.pages.insert(idx, page);
        }
        assert(self.pages@.dom() =~= old(self).pages@.dom());
        assert(self.pages@ =~= old(self).pages@.insert(
            idx,
            CachedBlockPage { dirty: false, dirty_since: 0, ..old(self).pages@[idx] },
        ));
    }
    /// Drops a page, dirty or not.
    pub fn remove(&mut self, idx: u64)
        requires
            old(self).wf(),
        ensures
            final(self).wf(),
            final(self).device_id == old(self).device_id,
            final(self).pages@ == old(self).pages@.remove(idx),
            final(self).dirty@ == old(self).dirty@.remove(idx),
    {
        let ghost es = recency::lru_entries(self.lru);
        let dev: u64 = self.device_id;
        proof {
            lemma_find(es, dev, idx);
            assert(self.recent().to_set().contains(idx) <==> self.recent().contains(idx));
        }
        lru_pop(&mut self.lru, (dev, idx));
        self.pages.remove(idx);
        self.dirty.remove(idx);
        proof {
            if let Some(i) = recency::find_key(es, (dev, idx)) {
                lemma_removed_entry(es, dev, i);
            }
            assert(self.pages@.dom() =~= old(self).pages@.dom().remove(idx));
            assert(self.recent().to_set() =~= self.pages@.dom());
        }
    }
}

} // verus!
