//! The recency list of a page cache shard: the `lru` crate's cache, keyed by device
//! and page, with the page's frame number as its value.
use lru::LruCache;
use std::num::NonZeroUsize;
use vstd::prelude::*;

verus! {

/// The cache type of the `lru` crate.
#[verifier::external_type_specification]
#[verifier::external_body]
#[verifier::reject_recursive_types(K)]
#[verifier::reject_recursive_types(V)]
#[verifier::reject_recursive_types(S)]
pub struct ExLruCache<K, V, S>(LruCache<K, V, S>);

/// The hasher that the `lru` crate picks by default.
#[verifier::external_type_specification]
#[verifier::external_body]
pub struct ExDefaultHasher(lru::DefaultHasher);

/// The entries of a cache, most recently used first.
pub uninterp spec fn lru_entries(c: LruCache<(u64, u64), u64>) -> Seq<((u64, u64), u64)>;

/// The number of entries a cache was made to hold.
pub uninterp spec fn lru_capacity(c: LruCache<(u64, u64), u64>) -> usize;

/// The position of `k` among entries.
pub open spec fn find_key(es: Seq<((u64, u64), u64)>, k: (u64, u64)) -> Option<int> {
    if exists|i: int| 0 <= i < es.len() && #[trigger] es[i].0 == k {
        Some(choose|i: int| 0 <= i < es.len() && #[trigger] es[i].0 == k)
    } else {
        None
    }
}

/// Wraps `LruCache::new`: an empty cache of the given capacity. It makes room for all of
/// its entries at once, so a capacity of zero, or one that does not fit in memory, is not for
/// it.
#[verifier::external_body]
pub(crate) fn lru_new(cap: usize) -> (c: LruCache<(u64, u64), u64>)
    requires
        0 < cap <= 65536,
    ensures
        lru_entries(c) == Seq::<((u64, u64), u64)>::empty(),
        lru_capacity(c) == cap,
{
    LruCache::new(NonZeroUsize::new(cap).unwrap())
}

/// Wraps `LruCache::get`: the value of `k`, whose entry moves to the front of the
/// recency order; nothing, and no change, when there is none.
#[verifier::external_body]
pub(crate) fn lru_get(c: &mut LruCache<(u64, u64), u64>, k: (u64, u64)) -> (r: Option<u64>)
    ensures
        lru_capacity(*final(c)) == lru_capacity(*old(c)),
        match find_key(lru_entries(*old(c)), k) {
            Some(i) => r == Some(lru_entries(*old(c))[i].1) && lru_entries(*final(c)) == seq![
                lru_entries(*old(c))[i],
            ] + lru_entries(*old(c)).remove(i),
            None => r is None && lru_entries(*final(c)) == lru_entries(*old(c)),
        },
{
    c.get(&k).copied()
}

/// Wraps `LruCache::put` for a key that is not in the cache while the cache has room:
/// the entry goes to the front of the recency order.
#[verifier::external_body]
pub(crate) fn lru_put(c: &mut LruCache<(u64, u64), u64>, k: (u64, u64), v: u64)
    requires
        find_key(lru_entries(*old(c)), k) is None,
        lru_entries(*old(c)).len() < lru_capacity(*old(c)),
    ensures
        lru_capacity(*final(c)) == lru_capacity(*old(c)),
        lru_entries(*final(c)) == seq![(k, v)] + lru_entries(*old(c)),
{
    c.put(k, v);
}

/// Wraps `LruCache::pop`: removes the entry of `k`, if there is one, and returns its
/// value.
#[verifier::external_body]
pub(crate) fn lru_pop(c: &mut LruCache<(u64, u64), u64>, k: (u64, u64)) -> (r: Option<u64>)
    ensures
        lru_capacity(*final(c)) == lru_capacity(*old(c)),
        match find_key(lru_entries(*old(c)), k) {
            Some(i) => r == Some(lru_entries(*old(c))[i].1) && lru_entries(*final(c))
                == lru_entries(*old(c)).remove(i),
            None => r is None && lru_entries(*final(c)) == lru_entries(*old(c)),
        },
{
    c.pop(&k)
}

/// Wraps `LruCache::peek_lru`: the least recently used entry, if there is any.
#[verifier::external_body]
pub(crate) fn lru_peek(c: &LruCache<(u64, u64), u64>) -> (r: Option<((u64, u64), u64)>)
    ensures
        match r {
            Some(e) => lru_entries(*c).len() > 0 && e == lru_entries(*c).last(),
            None => lru_entries(*c).len() == 0,
        },
{
    c.peek_lru().map(|e| (*e.0, *e.1))
}

/// Wraps `LruCache::len`: how many entries there are.
#[verifier::external_body]
pub(crate) fn lru_len(c: &LruCache<(u64, u64), u64>) -> (n: usize)
    ensures
        n == lru_entries(*c).len(),
{
    c.len()
}

} // verus!
