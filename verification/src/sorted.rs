//! Ordered sets and maps keyed by 64-bit integers: the ordered collections of the standard
//! library, with the order of their members stated over integers.
use std::collections::{BTreeMap, BTreeSet};
use vstd::laws_cmp::obeys_cmp;
use vstd::prelude::*;
use vstd::std_specs::btree::increasing_seq;
use vstd::std_specs::cmp::OrdSpec;
use vstd::std_specs::iter::IteratorSpec;

verus! {

broadcast use vstd::std_specs::btree::group_btree_axioms;

/// Whether `s` is strictly ascending.
pub open spec fn ascending(s: Seq<u64>) -> bool {
    forall|i: int, j: int| 0 <= i < j < s.len() ==> #[trigger] s[i] < #[trigger] s[j]
}

/// The members of a finite set in ascending order.
pub open spec fn in_order(s: Set<u64>) -> Seq<u64> {
    choose|q: Seq<u64>| ascending(q) && q.to_set() == s
}

/// Two strictly ascending sequences with the same members are the same.
pub proof fn ascending_unique(a: Seq<u64>, b: Seq<u64>)
    requires
        ascending(a),
        ascending(b),
        a.to_set() == b.to_set(),
    ensures
        a == b,
    decreases a.len(),
{
    if a.len() == 0 {
        if b.len() > 0 {
            assert(b.to_set().contains(b[0]));
            assert(a.to_set().contains(b[0]));
        }
        assert(a =~= b);
    } else {
        assert(a.to_set().contains(a.last()));
        assert(b.to_set().contains(a.last()));
        let i = choose|i: int| 0 <= i < b.len() && b[i] == a.last();
        assert(b.to_set().contains(b.last()));
        assert(a.to_set().contains(b.last()));
        let j = choose|j: int| 0 <= j < a.len() && a[j] == b.last();
        assert(i == b.len() - 1) by {
            if i < b.len() - 1 {
                assert(b[i] < b[b.len() - 1]);
                if j < a.len() - 1 {
                    assert(a[j] < a[a.len() - 1]);
                }
            }
        }
        let x = a.drop_last();
        let y = b.drop_last();
        assert(x.to_set() =~= y.to_set()) by {
            assert forall|k: u64| x.to_set().contains(k) <==> y.to_set().contains(k) by {
                if x.to_set().contains(k) {
                    let p = choose|p: int| 0 <= p < x.len() && x[p] == k;
                    assert(a[p] < a[a.len() - 1]);
                    assert(a.to_set().contains(k));
                    assert(b.to_set().contains(k));
                    let q = choose|q: int| 0 <= q < b.len() && b[q] == k;
                    assert(y[q] == k);
                }
                if y.to_set().contains(k) {
                    let p = choose|p: int| 0 <= p < y.len() && y[p] == k;
                    assert(b[p] < b[b.len() - 1]);
                    assert(b.to_set().contains(k));
                    assert(a.to_set().contains(k));
                    let q = choose|q: int| 0 <= q < a.len() && a[q] == k;
                    assert(x[q] == k);
                }
            }
        }
        ascending_unique(x, y);
        assert(a =~= x.push(a.last()));
        assert(b =~= y.push(b.last()));
    }
}

proof fn lemma_place(q: Seq<u64>, x: u64) -> (p: int)
    requires
        ascending(q),
        !q.contains(x),
    ensures
        0 <= p <= q.len(),
        forall|i: int| 0 <= i < p ==> q[i] < x,
        forall|i: int| p <= i < q.len() ==> q[i] > x,
    decreases q.len(),
{
    if q.len() == 0 || q.last() < x {
        q.len() as int
    } else {
        let r = q.drop_last();
        assert(q[q.len() - 1] != x);
        assert forall|i: int| 0 <= i < r.len() implies r[i] != x by {
            assert(q[i] != x);
        }
        let p = lemma_place(r, x);
        assert forall|i: int| p <= i < q.len() implies q[i] > x by {
            if i < r.len() {
                assert(r[i] > x);
            }
        }
        assert forall|i: int| 0 <= i < p implies q[i] < x by {
            assert(r[i] < x);
        }
        p
    }
}

proof fn lemma_sorted_exists(s: Set<u64>) -> (q: Seq<u64>)
    requires
        s.finite(),
    ensures
        ascending(q),
        q.to_set() == s,
    decreases s.len(),
{
    if s.len() == 0 {
        let q = Seq::<u64>::empty();
        assert(q.to_set() =~= s);
        q
    } else {
        let x = s.choose();
        let a = lemma_sorted_exists(s.remove(x));
        assert(!a.contains(x)) by {
            assert(a.to_set().contains(x) <==> a.contains(x));
        }
        let p = lemma_place(a, x);
        let q = a.insert(p, x);
        assert forall|k: u64| q.to_set().contains(k) <==> s.contains(k) by {
            assert(a.to_set().contains(k) <==> a.contains(k));
            if q.contains(k) {
                let i = choose|i: int| 0 <= i < q.len() && q[i] == k;
                if i != p {
                    assert(a[if i < p { i } else { i - 1 }] == k);
                }
            }
            if a.contains(k) {
                let i = choose|i: int| 0 <= i < a.len() && a[i] == k;
                assert(q[if i < p { i } else { i + 1 }] == k);
            }
            assert(q[p] == x);
        }
        assert(q.to_set() =~= s);
        q
    }
}

/// Every finite set has its members listed in ascending order, each once.
pub proof fn in_order_lists(s: Set<u64>)
    requires
        s.finite(),
    ensures
        ascending(in_order(s)),
        in_order(s).to_set() == s,
        in_order(s).len() == s.len(),
        forall|i: int| 0 <= i < in_order(s).len() ==> s.contains(#[trigger] in_order(s)[i]),
{
    let q = lemma_sorted_exists(s);
    assert(ascending(q) && q.to_set() == s);
    let o = in_order(s);
    assert(o.no_duplicates());
    o.unique_seq_to_set();
    assert forall|i: int| 0 <= i < o.len() implies s.contains(#[trigger] o[i]) by {
        assert(o.to_set().contains(o[i]));
    }
}

/// References to integers are ordered as the integers are.
proof fn lemma_refs_ordered(s: Seq<&u64>)
    requires
        increasing_seq(s),
    ensures
        ascending(s.unref()),
{
    assert(obeys_cmp::<u64>());
    assert(obeys_cmp::<&u64>());
    assert forall|i: int, j: int| 0 <= i < j < s.unref().len() implies #[trigger] s.unref()[i]
        < #[trigger] s.unref()[j] by {
        assert(OrdSpec::cmp_spec(&s[i], &s[j]) is Less);
    }
}

/// A set of integers, kept in ascending order.
pub struct SortedSet {
    items: BTreeSet<u64>,
}

impl View for SortedSet {
    type V = Set<u64>;

    closed spec fn view(&self) -> Set<u64> {
        self.items@
    }
}

impl SortedSet {
    /// The empty set.
    pub fn new() -> (r: SortedSet)
        ensures
            r@ == Set::<u64>::empty(),
    {
        SortedSet { items: BTreeSet::new() }
    }

    /// How many members there are.
    pub fn len(&self) -> (n: usize)
        ensures
            n == self@.len(),
            self@.finite(),
    {
        let ghost all = self.items.iter().remaining();
        assert(all.unref().to_set().finite());
        self.items.len()
    }

    /// Whether there are no members.
    pub fn is_empty(&self) -> (r: bool)
        ensures
            r == (self@ == Set::<u64>::empty()),
    {
        self.items.is_empty()
    }

    /// Whether `k` is a member.
    pub fn contains(&self, k: u64) -> (r: bool)
        ensures
            r == self@.contains(k),
    {
        self.items.contains(&k)
    }

    /// Adds `k`. Returns whether it was new.
    pub fn insert(&mut self, k: u64) -> (r: bool)
        ensures
            final(self)@ == old(self)@.insert(k),
            r == !old(self)@.contains(k),
    {
        self.items.insert(k)
    }

    /// Removes `k`. Returns whether it was a member.
    pub fn remove(&mut self, k: u64) -> (r: bool)
        ensures
            final(self)@ == old(self)@.remove(k),
            r == old(self)@.contains(k),
    {
        self.items.remove(&k)
    }

    /// The members in ascending order.
    pub fn listed(&self) -> (r: Vec<u64>)
        ensures
            r@ == in_order(self@),
            ascending(r@),
            r@.to_set() == self@,
            r@.len() == self@.len(),
            self@.finite(),
    {
        let mut r: Vec<u64> = Vec::new();
        let ghost all = self.items.iter().remaining();
        for k in it: self.items.iter()
            invariant
                it.seq() == all,
                r@ == all.unref().take(it.index()),
        {
            r.push(*k);
        }
        proof {
            assert(r@ =~= all.unref());
            assert(all.unref().to_set().finite());
            lemma_refs_ordered(all);
            in_order_lists(self@);
            ascending_unique(r@, in_order(self@));
        }
        r
    }

    /// Adds every member of `other`.
    pub fn add_all(&mut self, other: &SortedSet)
        ensures
            final(self)@ == old(self)@.union(other@),
    {
        let all = other.listed();
        let mut i: usize = 0;
        let ghost s0 = self@;
        assert(self@ =~= s0.union(all@.take(0).to_set()));
        while i < all.len()
            invariant
                i <= all@.len(),
                self@ == s0.union(all@.take(i as int).to_set()),
            decreases all@.len() - i,
        {
            let k: u64 = all[i];
            self.insert(k);
            proof {
                let a = all@.take(i as int);
                let b = all@.take(i + 1);
                assert(b =~= a.push(k));
                a.lemma_push_to_set_commute(k);
                assert(self@ =~= s0.union(b.to_set()));
            }
            i = i + 1;
        }
        assert(all@.take(all@.len() as int) =~= all@);
    }
}

/// A map from integers, kept in ascending order of its keys.
pub struct SortedMap<V> {
    items: BTreeMap<u64, V>,
}

impl<V> View for SortedMap<V> {
    type V = Map<u64, V>;

    closed spec fn view(&self) -> Map<u64, V> {
        self.items@
    }
}

impl<V> SortedMap<V> {
    /// The empty map.
    pub fn new() -> (r: SortedMap<V>)
        ensures
            r@ == Map::<u64, V>::empty(),
    {
        SortedMap { items: BTreeMap::new() }
    }

    /// How many entries there are.
    pub fn len(&self) -> (n: usize)
        ensures
            n == self@.dom().len(),
            self@.dom().finite(),
    {
        self.items.len()
    }

    /// Whether `k` has an entry.
    pub fn contains_key(&self, k: u64) -> (r: bool)
        ensures
            r == self@.contains_key(k),
    {
        self.items.contains_key(&k)
    }

    /// The entry of `k`.
    pub fn get(&self, k: u64) -> (r: Option<&V>)
        ensures
            match r {
                Some(v) => self@.contains_key(k) && *v == self@[k],
                None => !self@.contains_key(k),
            },
    {
        self.items.get(&k)
    }

    /// Sets the entry of `k`.
    pub fn insert(&mut self, k: u64, v: V)
        ensures
            final(self)@ == old(self)@.insert(k, v),
    {
        self.items.insert(k, v);
    }

    /// Removes the entry of `k`.
    pub fn remove(&mut self, k: u64) -> (r: Option<V>)
        ensures
            final(self)@ == old(self)@.remove(k),
            match r {
                Some(v) => old(self)@.contains_key(k) && v == old(self)@[k],
                None => !old(self)@.contains_key(k),
            },
    {
        self.items.remove(&k)
    }

    /// The keys in ascending order.
    pub fn keys(&self) -> (r: Vec<u64>)
        ensures
            r@ == in_order(self@.dom()),
            ascending(r@),
            r@.to_set() == self@.dom(),
            r@.len() == self@.dom().len(),
            self@.dom().finite(),
    {
        let mut r: Vec<u64> = Vec::new();
        let ghost all = self.items.keys().remaining();
        for k in it: self.items.keys()
            invariant
                it.seq() == all,
                r@ == all.unref().take(it.index()),
        {
            r.push(*k);
        }
        proof {
            assert(r@ =~= all.unref());
            assert(all.unref().to_set().finite());
            lemma_refs_ordered(all);
            in_order_lists(self@.dom());
            ascending_unique(r@, in_order(self@.dom()));
        }
        r
    }
}

} // verus!
