//! What a file holds: what a read gives back of a write.
use vstd::prelude::*;
use crate::bytes;
use crate::error::Error;
use super::chains;
use super::driver;
use super::entry;
use super::entry::EntryView;
use super::model;
use super::model::FatState;
use super::read;
use super::structures::ATTR_DIRECTORY;

verus! {

// ---- Chains ---------------------------------------------------------------------------------

/// Whether the FAT leads from cluster `i` of a list to the next, or to the end.
pub open spec fn follows(st: FatState, cs: Seq<u32>, i: int) -> bool {
    model::fat_next(st, cs[i]) == Ok::<Option<u32>, Error>(
        if i + 1 < cs.len() {
            Some(cs[i + 1])
        } else {
            None
        },
    )
}

/// Whether a cluster may be part of a file.
pub open spec fn used(st: FatState, c: u32) -> bool {
    chains::proper(st, c) && chains::busy(st, c)
}

/// Whether clusters make up a chain of the volume.
pub open spec fn holds(st: FatState, cs: Seq<u32>) -> bool {
    &&& cs.len() > 0
    &&& forall|i: int| 0 <= i < cs.len() ==> used(st, #[trigger] cs[i])
    &&& forall|i: int, j: int| 0 <= i < j < cs.len() ==> #[trigger] cs[i] != #[trigger] cs[j]
    &&& forall|i: int| 0 <= i < cs.len() ==> #[trigger] follows(st, cs, i)
}

/// Whether each of these clusters leads to the next, and the last to none.
pub open spec fn ends(st: FatState, cs: Seq<u32>) -> bool {
    cs.len() > 0 && forall|i: int| 0 <= i < cs.len() ==> #[trigger] follows(st, cs, i)
}

/// Chains from the same cluster go on the same.
proof fn lemma_same_way(st: FatState, cs: Seq<u32>, i: int, j: int)
    requires
        ends(st, cs),
        0 <= i < j < cs.len(),
    ensures
        cs[i] != cs[j],
    decreases cs.len() - j,
{
    assert(follows(st, cs, i));
    assert(follows(st, cs, j));
    if cs[i] == cs[j] && j + 1 < cs.len() {
        lemma_same_way(st, cs, i + 1, j + 1);
    }
}

/// A cluster whose entry can be read has a number that is bounded by the device, and a cluster
/// that another one leads to has a number of no more bits than an entry.
proof fn lemma_number_bound(st: FatState, cs: Seq<u32>, i: int)
    requires
        ends(st, cs),
        0 <= i < cs.len(),
    ensures
        st.variant is Fat32 ==> cs[i] < st.disk.len() as int / 4,
        i > 0 && st.variant is Fat16 ==> cs[i] < 0x1_0000,
        i > 0 && st.variant is Fat12 ==> cs[i] < 0x1000,
{
    reveal(model::fat_next);
    assert(follows(st, cs, i));
    if i > 0 {
        assert(follows(st, cs, i - 1));
    }
}

/// Every chain that ends is followed to its end.
#[verifier::spinoff_prover]
#[verifier::rlimit(40)]
pub proof fn ending_chain_is_followed(st: FatState, cs: Seq<u32>)
    requires
        ends(st, cs),
    ensures
        cs.len() <= model::chain_limit(st),
        model::chain(st, cs[0], model::chain_limit(st)) == Ok::<Seq<u32>, Error>(cs),
{
    let skipped = if st.variant is Fat32 {
        0int
    } else {
        1
    };
    let limit = model::chain_limit(st) - skipped;
    let nums = cs.skip(skipped).map_values(|c: u32| c as int);
    assert(nums.no_duplicates()) by {
        assert forall|i: int, j: int| 0 <= i < nums.len() && 0 <= j < nums.len() && i != j implies
            nums[i] != nums[j] by {
            if i < j {
                lemma_same_way(st, cs, i + skipped, j + skipped);
            } else {
                lemma_same_way(st, cs, j + skipped, i + skipped);
            }
        }
    }
    nums.unique_seq_to_set();
    vstd::set_lib::lemma_int_range(0, limit);
    let range = vstd::set_lib::set_int_range(0, limit);
    assert(nums.to_set().subset_of(range)) by {
        assert forall|x: int| #[trigger] nums.to_set().contains(x) implies range.contains(x) by {
            let i = choose|i: int| 0 <= i < nums.len() && nums[i] == x;
            lemma_number_bound(st, cs, i + skipped);
        }
    }
    vstd::set_lib::lemma_len_subset(nums.to_set(), range);
    lemma_chain(st, cs, 0, model::chain_limit(st));
    assert(cs.skip(0) =~= cs);
}

/// A chain is what the FAT makes of its first cluster.
proof fn lemma_chain(st: FatState, cs: Seq<u32>, k: int, fuel: int)
    requires
        ends(st, cs),
        0 <= k < cs.len(),
        fuel >= cs.len() - k,
    ensures
        model::chain(st, cs[k], fuel) == Ok::<Seq<u32>, Error>(cs.skip(k)),
    decreases cs.len() - k,
{
    assert(follows(st, cs, k));
    if k + 1 < cs.len() {
        lemma_chain(st, cs, k + 1, fuel - 1);
        assert(seq![cs[k]] + cs.skip(k + 1) =~= cs.skip(k));
    } else {
        assert(seq![cs[k]] =~= cs.skip(k));
    }
}

pub(crate) proof fn lemma_step(st: FatState, cs: Seq<u32>, i: int, k: int)
    requires
        holds(st, cs),
        0 <= i,
        0 <= k,
        i + k < cs.len(),
    ensures
        model::step(st, cs[i], k) == Ok::<Option<u32>, Error>(Some(cs[i + k])),
    decreases k,
{
    if k > 0 {
        assert(follows(st, cs, i));
        lemma_step(st, cs, i + 1, k - 1);
    }
}

/// A chain keeps its clusters where their entries are kept.
pub(crate) proof fn lemma_holds_kept(z: FatState, st: FatState, cs: Seq<u32>, but: Set<u32>)
    requires
        holds(st, cs),
        chains::same_but(z, st, but),
        forall|i: int| 0 <= i < cs.len() ==> !but.contains(#[trigger] cs[i]),
    ensures
        holds(z, cs),
{
    assert forall|i: int| 0 <= i < cs.len() implies used(z, #[trigger] cs[i]) by {
        assert(used(st, cs[i]));
        assert(model::fat_value(z, cs[i]) == model::fat_value(st, cs[i]));
    }
    assert forall|i: int| 0 <= i < cs.len() implies #[trigger] follows(z, cs, i) by {
        assert(follows(st, cs, i));
        assert(used(st, cs[i]));
        assert(model::fat_value(z, cs[i]) == model::fat_value(st, cs[i]));
        reveal(model::fat_next);
    }
}

/// A free cluster taken and linked behind a chain makes the chain longer by it.
pub(crate) proof fn lemma_grown(st: FatState, cs: Seq<u32>)
    requires
        chains::in_order(st),
        holds(st, cs),
        model::take_cluster(st).1 is Ok,
    ensures
        ({
            let (s1, r1) = model::take_cluster(st);
            let x = r1->Ok_0;
            let (s2, r2) = model::link(s1, cs.last(), x);
            &&& r2 is Ok
            &&& grown(st, s2, cs, x)
        }),
{
    chains::take_gives_a_free_cluster(st);
    let (s1, r1) = model::take_cluster(st);
    let x = r1->Ok_0;
    let last = cs.last();
    assert(used(st, cs[cs.len() - 1]));
    assert(last != x);
    chains::link_leads_on(s1, last, x);
    let s2 = model::link(s1, last, x).0;
    lemma_grown_chain(st, s1, s2, cs, x);
}

/// What holds after cluster `x` has been put behind a chain.
pub open spec fn grown(st: FatState, z: FatState, cs: Seq<u32>, x: u32) -> bool {
    &&& chains::in_order(z)
    &&& !chains::busy(st, x)
    &&& holds(z, cs.push(x))
    &&& chains::same_but(z, st, set![cs.last(), x])
    &&& chains::same_data(z, st)
    &&& z.inodes == st.inodes
}

#[verifier::spinoff_prover]
#[verifier::rlimit(40)]
proof fn lemma_grown_chain(st: FatState, s1: FatState, s2: FatState, cs: Seq<u32>, x: u32)
    requires
        holds(st, cs),
        chains::taken(st, s1, x),
        chains::linked(s1, s2, cs.last(), x),
    ensures
        grown(st, s2, cs, x),
{
    let last = cs.last();
    let all = cs.push(x);
    assert forall|d: u32| d < model::search_limit(st) && !set![last, x].contains(d) implies
        #[trigger] model::fat_value(s2, d) == model::fat_value(st, d) by {
        assert(!set![x].contains(d));
        assert(model::fat_value(s1, d) == model::fat_value(st, d));
    }
    assert forall|i: int| 0 <= i < cs.len() implies #[trigger] cs[i] != x by {
        assert(used(st, cs[i]));
    }
    assert forall|i: int| 0 <= i < cs.len() - 1 implies model::fat_value(s2, #[trigger] cs[i])
        == model::fat_value(st, cs[i]) by {
        assert(used(st, cs[i]));
        assert(cs[i] != cs[cs.len() - 1]);
        assert(!set![last, x].contains(cs[i]));
    }
    assert(used(st, cs[cs.len() - 1]));
    assert forall|i: int| 0 <= i < all.len() implies used(s2, #[trigger] all[i]) by {
        if i < cs.len() {
            assert(used(st, cs[i]));
        }
    }
    assert forall|i: int, j: int| 0 <= i < j < all.len() implies #[trigger] all[i]
        != #[trigger] all[j] by {
        if j < cs.len() {
            assert(cs[i] != cs[j]);
        } else {
            assert(cs[i] != x);
        }
    }
    assert forall|i: int| 0 <= i < all.len() implies #[trigger] follows(s2, all, i) by {
        if i < cs.len() - 1 {
            assert(follows(st, cs, i));
            assert(model::fat_value(s2, cs[i]) == model::fat_value(st, cs[i]));
            reveal(model::fat_next);
        }
    }
    assert forall|k: int|
        0 <= k < st.disk.len() && !(chains::fat_base(st) <= k < chains::fat_end(st) * 512) implies
        #[trigger] s2.disk[k] == st.disk[k] by {
        assert(s1.disk[k] == st.disk[k]);
    }
}

// ---- Bytes ------------------------------------------------------------------------------------

/// First byte of a cluster.
pub open spec fn spot(st: FatState, c: u32) -> int {
    (model::data_lba(st) + (c - 2) * model::spc(st)) * 512
}

/// Byte `p` of a chain.
pub open spec fn byte_at(st: FatState, cs: Seq<u32>, p: int) -> u8 {
    st.disk[spot(st, cs[p / model::bpc(st)]) + p % model::bpc(st)]
}

/// Whether a cluster's entry and bytes are what they were.
pub open spec fn untouched(z: FatState, st: FatState, c: u32) -> bool {
    &&& model::fat_value(z, c) == model::fat_value(st, c)
    &&& forall|k: int| spot(st, c) <= k < spot(st, c) + model::bpc(st) ==> #[trigger] z.disk[k] == st.disk[k]
}

/// Whether what is in use outside a chain, and what lies between the FATs and the clusters,
/// is what it was.
pub open spec fn rest_kept(z: FatState, st: FatState, cs: Seq<u32>) -> bool {
    &&& forall|c: u32| used(st, c) && !cs.contains(c) ==> #[trigger] untouched(z, st, c)
    &&& forall|k: int|
        chains::fat_end(st) * 512 <= k < model::data_lba(st) * 512 && k < st.disk.len()
            ==> #[trigger] z.disk[k] == st.disk[k]
}

/// Whether cluster `c` starts within the volume.
pub open spec fn inside(st: FatState, c: u32) -> bool {
    2 <= c && model::data_lba(st) + (c - 2) * model::spc(st) < st.start + st.size
}

/// Whether cluster `c` starts within the volume and lies on the device.
pub open spec fn sits(st: FatState, c: u32) -> bool {
    2 <= c && chains::placed(st, c)
}

/// A cluster lies behind the FATs and on the device.
pub(crate) proof fn lemma_spot(st: FatState, c: u32)
    requires
        model::valid(st),
        sits(st, c),
    ensures
        model::cluster_lba(st, c) * 512 == spot(st, c),
        chains::fat_end(st) * 512 <= model::data_lba(st) * 512 <= spot(st, c),
        spot(st, c) + model::bpc(st) <= st.disk.len(),
        (model::cluster_lba(st, c) + model::spc(st)) * 512 == spot(st, c) + model::bpc(st),
        model::bpc(st) >= 512,
{
    chains::lemma_fats(st);
    let k = c - 2;
    let s = model::spc(st);
    assert(k * s >= 0) by (nonlinear_arith)
        requires
            k >= 0,
            s >= 0,
    ;
    assert((k + 1) * s == k * s + s) by (nonlinear_arith);
    assert(c - 1 == k + 1);
}

/// Two clusters share no byte.
#[verifier::spinoff_prover]
#[verifier::rlimit(40)]
pub(crate) proof fn lemma_spots(st: FatState, c: u32, d: u32)
    requires
        model::spc(st) >= 1,
        c != d,
    ensures
        spot(st, c) + model::bpc(st) <= spot(st, d) || spot(st, d) + model::bpc(st) <= spot(st, c),
{
    let s = model::spc(st);
    let a = c - 2;
    let b = d - 2;
    if a < b {
        assert(a * s + s <= b * s) by (nonlinear_arith)
            requires
                a < b,
                s >= 0,
        ;
    } else {
        assert(b * s + s <= a * s) by (nonlinear_arith)
            requires
                b < a,
                s >= 0,
        ;
    }
}

/// A write into one cluster.
pub open spec fn cluster_written(
    st: FatState,
    z: FatState,
    c: u32,
    inner: int,
    part: Seq<u8>,
    fresh: bool,
) -> bool {
    &&& driver::same_layout(z, st)
    &&& z == (FatState { disk: z.disk, ..st })
    &&& forall|k: int|
        0 <= k < st.disk.len() ==> #[trigger] z.disk[k] == {
            let o = k - spot(st, c);
            if inner <= o < inner + part.len() {
                part[o - inner]
            } else if fresh && 0 <= o < model::bpc(st) {
                0
            } else {
                st.disk[k]
            }
        }
}

#[verifier::spinoff_prover]
#[verifier::rlimit(40)]
pub(crate) proof fn lemma_write_cluster(st: FatState, c: u32, inner: int, part: Seq<u8>, fresh: bool)
    requires
        chains::fats_fit(st),
        chains::proper(st, c),
        0 <= inner,
        inner + part.len() <= model::bpc(st),
    ensures
        ({
            let d = if fresh {
                Ok::<Seq<u8>, Error>(bytes::zeros(model::bpc(st)))
            } else {
                model::read(st, model::cluster_lba(st, c), model::spc(st))
            };
            let (z, r) = model::write(
                st,
                model::cluster_lba(st, c),
                bytes::splice(d->Ok_0, inner, part),
            );
            &&& d is Ok
            &&& r == Ok::<(), Error>(())
            &&& cluster_written(st, z, c, inner, part, fresh)
        }),
{
    lemma_spot(st, c);
    let l = model::cluster_lba(st, c);
    let d = if fresh {
        bytes::zeros(model::bpc(st))
    } else {
        st.disk.subrange(l * 512, (l + model::spc(st)) * 512)
    };
    let data = bytes::splice(d, inner, part);
    assert(data.len() == model::bpc(st));
    chains::lemma_write(st, l, data);
    let z = model::write(st, l, data).0;
    assert forall|k: int| 0 <= k < st.disk.len() implies #[trigger] z.disk[k] == {
        let o = k - spot(st, c);
        if inner <= o < inner + part.len() {
            part[o - inner]
        } else if fresh && 0 <= o < model::bpc(st) {
            0
        } else {
            st.disk[k]
        }
    } by {
        let o = k - spot(st, c);
        if 0 <= o < model::bpc(st) {
            assert(z.disk[k] == data[o]);
        }
    }
}

/// Where a byte of a chain lies.
pub(crate) proof fn lemma_place(st: FatState, cs: Seq<u32>, p: int)
    requires
        model::spc(st) >= 1,
        0 <= p < cs.len() * model::bpc(st),
    ensures
        0 <= p / model::bpc(st) < cs.len(),
        0 <= p % model::bpc(st) < model::bpc(st),
        p == (p / model::bpc(st)) * model::bpc(st) + p % model::bpc(st),
{
    let b = model::bpc(st);
    let n = cs.len() as int;
    assert(0 <= p / b < n && 0 <= p % b < b && p == (p / b) * b + p % b) by (nonlinear_arith)
        requires
            b >= 1,
            0 <= p < n * b,
    ;
}

pub(crate) proof fn lemma_index(t: int, inner: int, b: int)
    requires
        0 <= inner < b,
        0 <= t,
    ensures
        (t * b + inner) / b == t,
        (t * b + inner) % b == inner,
        t * b >= 0,
{
    assert((t * b + inner) / b == t && (t * b + inner) % b == inner && t * b >= 0)
        by (nonlinear_arith)
        requires
            0 <= inner < b,
            0 <= t,
    ;
}

/// What a write into one cluster of a chain does to the chain.
#[verifier::spinoff_prover]
#[verifier::rlimit(40)]
proof fn lemma_cluster_in_chain(
    st: FatState,
    z: FatState,
    cs: Seq<u32>,
    t: int,
    inner: int,
    part: Seq<u8>,
    fresh: bool,
)
    requires
        chains::in_order(st),
        holds(st, cs),
        0 <= t < cs.len(),
        0 <= inner,
        inner + part.len() <= model::bpc(st),
        cluster_written(st, z, cs[t], inner, part, fresh),
    ensures
        chains::in_order(z),
        holds(z, cs),
        rest_kept(z, st, cs),
        chains::same_but(z, st, Set::empty()),
        forall|p: int|
            0 <= p < cs.len() * model::bpc(st) ==> #[trigger] byte_at(z, cs, p) == {
                let o = p % model::bpc(st);
                if p / model::bpc(st) != t {
                    byte_at(st, cs, p)
                } else if inner <= o < inner + part.len() {
                    part[o - inner]
                } else if fresh {
                    0
                } else {
                    byte_at(st, cs, p)
                }
            },
{
    let c = cs[t];
    let b = model::bpc(st);
    assert(used(st, c));
    lemma_spot(st, c);
    assert(model::valid(z));
    chains::lemma_same_fat(z, st);
    lemma_holds_kept(z, st, cs, Set::empty());
    chains::lemma_keeps_order(z, st, Set::empty());
    assert forall|d: u32| used(st, d) && !cs.contains(d) implies #[trigger] untouched(z, st, d) by {
        assert(d != c);
        lemma_spot(st, d);
        lemma_spots(st, c, d);
        assert(model::fat_value(z, d) == model::fat_value(st, d));
    }
    assert forall|p: int| 0 <= p < cs.len() * b implies #[trigger] byte_at(z, cs, p) == {
        let o = p % b;
        if p / b != t {
            byte_at(st, cs, p)
        } else if inner <= o < inner + part.len() {
            part[o - inner]
        } else if fresh {
            0
        } else {
            byte_at(st, cs, p)
        }
    } by {
        lemma_place(st, cs, p);
        let d = cs[p / b];
        assert(used(st, d));
        lemma_spot(st, d);
        if d != c {
            lemma_spots(st, c, d);
        } else if p / b < t {
            assert(cs[p / b] != cs[t]);
        } else if p / b > t {
            assert(cs[t] != cs[p / b]);
        }
    }
}

// ---- Writing ----------------------------------------------------------------------------------

/// A chain that has grown holds what it held.
#[verifier::spinoff_prover]
#[verifier::rlimit(40)]
proof fn lemma_grown_bytes(st: FatState, z: FatState, cs: Seq<u32>, x: u32)
    requires
        chains::in_order(st),
        holds(st, cs),
        grown(st, z, cs, x),
    ensures
        rest_kept(z, st, cs),
        forall|p: int|
            0 <= p < cs.len() * model::bpc(st) ==> #[trigger] byte_at(z, cs.push(x), p) == byte_at(
                st,
                cs,
                p,
            ),
{
    let b = model::bpc(st);
    chains::lemma_fats(st);
    assert forall|d: u32| used(st, d) && !cs.contains(d) implies #[trigger] untouched(z, st, d) by {
        lemma_spot(st, d);
        assert(cs.contains(cs.last())) by {
            assert(cs[cs.len() - 1] == cs.last());
        }
        assert(!set![cs.last(), x].contains(d));
        assert(model::fat_value(z, d) == model::fat_value(st, d));
    }
    assert forall|p: int| 0 <= p < cs.len() * b implies #[trigger] byte_at(z, cs.push(x), p)
        == byte_at(st, cs, p) by {
        lemma_place_in(st, cs, p);
        assert(cs.push(x)[p / b] == cs[p / b]);
    }
}

pub(crate) proof fn lemma_place_in(st: FatState, cs: Seq<u32>, p: int)
    requires
        chains::fats_fit(st),
        holds(st, cs),
        0 <= p < cs.len() * model::bpc(st),
    ensures
        0 <= p / model::bpc(st) < cs.len(),
        chains::fat_end(st) * 512 <= spot(st, cs[p / model::bpc(st)]) + p % model::bpc(st)
            < st.disk.len(),
{
    lemma_place(st, cs, p);
    assert(used(st, cs[p / model::bpc(st)]));
    lemma_spot(st, cs[p / model::bpc(st)]);
}

/// What is in use outside a chain stays so over two steps.
#[verifier::spinoff_prover]
#[verifier::rlimit(40)]
pub(crate) proof fn lemma_rest_twice(
    st: FatState,
    mid: FatState,
    z: FatState,
    cs: Seq<u32>,
    more: Seq<u32>,
)
    requires
        driver::same_layout(mid, st),
        driver::same_layout(z, mid),
        rest_kept(mid, st, cs),
        rest_kept(z, mid, more),
        forall|c: u32| #[trigger] more.contains(c) && !cs.contains(c) ==> !chains::busy(st, c),
    ensures
        rest_kept(z, st, cs),
{
    assert forall|c: u32| used(st, c) && !cs.contains(c) implies #[trigger] untouched(z, st, c) by {
        assert(untouched(mid, st, c));
        assert(used(mid, c));
        assert(!more.contains(c));
        assert(untouched(z, mid, c));
        assert forall|k: int| spot(st, c) <= k < spot(st, c) + model::bpc(st) implies
            #[trigger] z.disk[k] == st.disk[k] by {
            assert(z.disk[k] == mid.disk[k]);
        }
    }
    assert forall|k: int|
        chains::fat_end(st) * 512 <= k < model::data_lba(st) * 512 && k < st.disk.len() implies
        #[trigger] z.disk[k] == st.disk[k] by {
        assert(z.disk[k] == mid.disk[k]);
    }
}

/// What holds after `buf` has been written to a chain from byte `from` on. Where cluster
/// `blank` is given, it was new, and is zero around what was written.
#[verifier::opaque]
pub open spec fn chain_written(
    st: FatState,
    z: FatState,
    cs: Seq<u32>,
    more: Seq<u32>,
    from: int,
    buf: Seq<u8>,
    blank: Option<int>,
) -> bool {
    &&& chains::in_order(z)
    &&& driver::same_layout(z, st)
    &&& z.inodes == st.inodes
    &&& holds(z, more)
    &&& cs.len() <= more.len()
    &&& more.take(cs.len() as int) == cs
    &&& from + buf.len() <= more.len() * model::bpc(st)
    &&& rest_kept(z, st, cs)
    &&& forall|c: u32| #[trigger] more.contains(c) && !cs.contains(c) ==> !chains::busy(st, c)
    &&& forall|p: int|
        from <= p < from + buf.len() ==> #[trigger] byte_at(z, more, p) == buf[p - from]
    &&& forall|p: int|
        0 <= p < cs.len() * model::bpc(st) && !(from <= p < from + buf.len()) && blank != Some(
            p / model::bpc(st),
        ) ==> #[trigger] byte_at(z, more, p) == byte_at(st, cs, p)
}

/// A write that ends within one cluster.
#[verifier::spinoff_prover]
#[verifier::rlimit(40)]
pub(crate) proof fn lemma_last_written(
    st: FatState,
    s1: FatState,
    cs: Seq<u32>,
    t: int,
    inner: int,
    buf: Seq<u8>,
    fresh: bool,
)
    requires
        chains::in_order(st),
        holds(st, cs),
        0 <= t < cs.len(),
        0 <= inner,
        inner + buf.len() <= model::bpc(st),
        buf.len() > 0,
        cluster_written(st, s1, cs[t], inner, buf, fresh),
    ensures
        chain_written(
            st,
            s1,
            cs,
            cs,
            t * model::bpc(st) + inner,
            buf,
            if fresh {
                Some(t)
            } else {
                None
            },
        ),
{
    reveal(chain_written);
    let b = model::bpc(st);
    let from = t * b + inner;
    lemma_cluster_in_chain(st, s1, cs, t, inner, buf, fresh);
    lemma_span(t, cs.len() as int, b);
    assert(cs.take(cs.len() as int) =~= cs);
    assert forall|p: int| from <= p < from + buf.len() implies #[trigger] byte_at(s1, cs, p)
        == buf[p - from] by {
        lemma_index(t, p - t * b, b);
    }
    assert forall|p: int|
        0 <= p < cs.len() * b && !(from <= p < from + buf.len()) && (if fresh {
            Some(t)
        } else {
            None
        }) != Some(p / b) implies #[trigger] byte_at(s1, cs, p) == byte_at(st, cs, p) by {
        lemma_place(st, cs, p);
        if p / b == t {
            assert(p == t * b + p % b);
        }
    }
}

pub(crate) proof fn lemma_span(t: int, n: int, b: int)
    requires
        0 <= t < n,
        b >= 1,
    ensures
        t * b >= 0,
        (t + 1) * b == t * b + b,
        (t + 1) * b <= n * b,
{
    assert(t * b >= 0 && (t + 1) * b == t * b + b && (t + 1) * b <= n * b) by (nonlinear_arith)
        requires
            0 <= t < n,
            b >= 1,
    ;
}

/// Two writes to a chain, the second right after the first, with clusters put behind the
/// chain in between.
#[verifier::spinoff_prover]
#[verifier::rlimit(40)]
proof fn lemma_written_on(
    st: FatState,
    s1: FatState,
    s3: FatState,
    z: FatState,
    cs: Seq<u32>,
    mid: Seq<u32>,
    more: Seq<u32>,
    t: int,
    inner: int,
    buf: Seq<u8>,
    fresh: bool,
    blank: Option<int>,
)
    requires
        chains::in_order(st),
        holds(st, cs),
        0 <= t < cs.len(),
        0 <= inner < model::bpc(st),
        buf.len() > model::bpc(st) - inner,
        cluster_written(st, s1, cs[t], inner, buf.take(model::bpc(st) - inner), fresh),
        mid.len() >= cs.len(),
        mid.take(cs.len() as int) == cs,
        t + 1 < mid.len(),
        blank is None || (blank == Some(t + 1) && t + 1 == cs.len()),
        driver::same_layout(s3, s1),
        s3.inodes == s1.inodes,
        rest_kept(s3, s1, cs),
        forall|c: u32| #[trigger] mid.contains(c) && !cs.contains(c) ==> !chains::busy(s1, c),
        forall|p: int|
            0 <= p < cs.len() * model::bpc(st) ==> #[trigger] byte_at(s3, mid, p) == byte_at(
                s1,
                cs,
                p,
            ),
        chain_written(
            s3,
            z,
            mid,
            more,
            (t + 1) * model::bpc(st),
            buf.skip(model::bpc(st) - inner),
            blank,
        ),
    ensures
        chain_written(
            st,
            z,
            cs,
            more,
            t * model::bpc(st) + inner,
            buf,
            if fresh {
                Some(t)
            } else {
                None
            },
        ),
{
    reveal(chain_written);
    let b = model::bpc(st);
    let take = b - inner;
    let from = t * b + inner;
    lemma_cluster_in_chain(st, s1, cs, t, inner, buf.take(take), fresh);
    lemma_span(t, cs.len() as int, b);
    lemma_span(cs.len() - 1, mid.len() as int, b);
    assert(more.take(cs.len() as int) =~= more.take(mid.len() as int).take(cs.len() as int));
    lemma_taken_apart(st, s1, s3, z, cs, mid, more);
    assert forall|p: int| from <= p < from + buf.len() implies #[trigger] byte_at(z, more, p)
        == buf[p - from] by {
        if p < (t + 1) * b {
            lemma_index(t, p - t * b, b);
            assert(byte_at(z, more, p) == byte_at(s3, mid, p));
            assert(byte_at(s3, mid, p) == byte_at(s1, cs, p));
        }
    }
    assert forall|p: int|
        0 <= p < cs.len() * b && !(from <= p < from + buf.len()) && (if fresh {
            Some(t)
        } else {
            None
        }) != Some(p / b) implies #[trigger] byte_at(z, more, p) == byte_at(st, cs, p) by {
        lemma_place(st, cs, p);
        assert(byte_at(z, more, p) == byte_at(s3, mid, p));
        assert(byte_at(s3, mid, p) == byte_at(s1, cs, p));
        if p / b == t {
            assert(p == t * b + p % b);
        }
    }
}

/// Clusters that were put behind a chain were free before.
#[verifier::spinoff_prover]
#[verifier::rlimit(40)]
proof fn lemma_taken_apart(
    st: FatState,
    s1: FatState,
    s3: FatState,
    z: FatState,
    cs: Seq<u32>,
    mid: Seq<u32>,
    more: Seq<u32>,
)
    requires
        driver::same_layout(s1, st),
        driver::same_layout(s3, s1),
        driver::same_layout(z, s3),
        chains::fats_fit(st),
        holds(z, more),
        chains::same_but(s1, st, Set::empty()),
        rest_kept(s1, st, cs),
        rest_kept(s3, s1, cs),
        rest_kept(z, s3, mid),
        forall|c: u32| #[trigger] mid.contains(c) && !cs.contains(c) ==> !chains::busy(s1, c),
        forall|c: u32| #[trigger] more.contains(c) && !mid.contains(c) ==> !chains::busy(s3, c),
    ensures
        rest_kept(z, st, cs),
        forall|c: u32| #[trigger] more.contains(c) && !cs.contains(c) ==> !chains::busy(st, c),
{
    assert forall|c: u32| #[trigger] more.contains(c) && !cs.contains(c) implies !chains::busy(
        st,
        c,
    ) by {
        let i = choose|i: int| 0 <= i < more.len() && more[i] == c;
        assert(used(z, more[i]));
        assert(chains::proper(st, c));
        assert(model::fat_value(s1, c) == model::fat_value(st, c));
        if mid.contains(c) {
        } else if chains::busy(s1, c) {
            assert(used(s1, c));
            assert(untouched(s3, s1, c));
        }
    }
    lemma_rest_twice(s1, s3, z, cs, mid);
    lemma_rest_twice(st, s1, z, cs, cs);
}

/// Bytes written along a chain: it grows as far as it has to, and a want of free clusters is
/// the only way to fail.
#[verifier::spinoff_prover]
#[verifier::rlimit(40)]
pub(crate) proof fn lemma_write_chain(
    st: FatState,
    cs: Seq<u32>,
    t: int,
    inner: int,
    buf: Seq<u8>,
    fresh: bool,
) -> (more: Seq<u32>)
    requires
        chains::in_order(st),
        holds(st, cs),
        0 <= t < cs.len(),
        0 <= inner < model::bpc(st),
        buf.len() > 0,
    ensures
        ({
            let (z, r) = crate::fat32::write::write_chain(st, cs[t], inner, buf, fresh);
            &&& r matches Err(e) ==> e == Error::NoSpace
            &&& r is Ok ==> chain_written(
                st,
                z,
                cs,
                more,
                t * model::bpc(st) + inner,
                buf,
                if fresh {
                    Some(t)
                } else {
                    None
                },
            )
        }),
    decreases buf.len(),
{
    let b = model::bpc(st);
    let c = cs[t];
    let take = if b - inner < buf.len() {
        b - inner
    } else {
        buf.len() as int
    };
    let s1 = lemma_first_cluster(st, cs, t, inner, buf, fresh);
    let rest = buf.skip(take);
    if take >= buf.len() {
        assert(buf.take(take) =~= buf);
        lemma_last_written(st, s1, cs, t, inner, buf, fresh);
        cs
    } else if t + 1 < cs.len() {
        let more = lemma_write_chain(s1, cs, t + 1, 0, rest, false);
        let (z, r) = crate::fat32::write::write_chain(s1, cs[t + 1], 0, rest, false);
        if r is Ok {
            assert(cs.take(cs.len() as int) =~= cs);
            lemma_same_rest(s1, cs);
            lemma_written_on(st, s1, s1, z, cs, cs, more, t, inner, buf, fresh, None);
        }
        more
    } else {
        let (s2, r2) = model::take_cluster(s1);
        lemma_new_cluster(s1, cs);
        if r2 is Ok {
            let x = r2->Ok_0;
            let s3 = model::link(s2, c, x).0;
            let mid = cs.push(x);
            let more = lemma_write_chain(s3, mid, t + 1, 0, rest, true);
            let (z, r) = crate::fat32::write::write_chain(s3, x, 0, rest, true);
            if r is Ok {
                lemma_written_on(st, s1, s3, z, cs, mid, more, t, inner, buf, fresh, Some(t + 1));
            }
            more
        } else {
            cs
        }
    }
}

/// A new cluster behind a chain.
pub(crate) proof fn lemma_new_cluster(st: FatState, cs: Seq<u32>)
    requires
        chains::in_order(st),
        holds(st, cs),
    ensures
        ({
            let (s2, r2) = model::take_cluster(st);
            match r2 {
                Err(e) => e == Error::NoSpace && s2 == st,
                Ok(x) => {
                    let (s3, r3) = model::link(s2, cs.last(), x);
                    let mid = cs.push(x);
                    &&& r3 is Ok
                    &&& chains::in_order(s3)
                    &&& holds(s3, mid)
                    &&& driver::same_layout(s3, st)
                    &&& s3.inodes == st.inodes
                    &&& mid.take(cs.len() as int) == cs
                    &&& rest_kept(s3, st, cs)
                    &&& forall|c: u32|
                        #[trigger] mid.contains(c) && !cs.contains(c) ==> !chains::busy(st, c)
                    &&& forall|p: int|
                        0 <= p < cs.len() * model::bpc(st) ==> #[trigger] byte_at(s3, mid, p)
                            == byte_at(st, cs, p)
                },
            }
        }),
{
    chains::take_gives_a_free_cluster(st);
    let (s2, r2) = model::take_cluster(st);
    if r2 is Ok {
        let x = r2->Ok_0;
        lemma_grown(st, cs);
        let s3 = model::link(s2, cs.last(), x).0;
        assert(cs.push(x).take(cs.len() as int) =~= cs);
        lemma_grown_bytes(st, s3, cs, x);
        lemma_pushed(cs, x);
    }
}

/// What becomes of a write along a chain after its first cluster.
#[verifier::spinoff_prover]
#[verifier::rlimit(40)]
proof fn lemma_first_cluster(
    st: FatState,
    cs: Seq<u32>,
    t: int,
    inner: int,
    buf: Seq<u8>,
    fresh: bool,
) -> (s1: FatState)
    requires
        chains::in_order(st),
        holds(st, cs),
        0 <= t < cs.len(),
        0 <= inner < model::bpc(st),
        buf.len() > 0,
    ensures
        ({
            let b = model::bpc(st);
            let take = if b - inner < buf.len() {
                b - inner
            } else {
                buf.len() as int
            };
            let all = crate::fat32::write::write_chain(st, cs[t], inner, buf, fresh);
            &&& cluster_written(st, s1, cs[t], inner, buf.take(take), fresh)
            &&& chains::in_order(s1)
            &&& holds(s1, cs)
            &&& (t + 1) * b == t * b + b
            &&& if take >= buf.len() {
                all == (s1, Ok::<(), Error>(()))
            } else if t + 1 < cs.len() {
                all == crate::fat32::write::write_chain(s1, cs[t + 1], 0, buf.skip(take), false)
            } else {
                let (s2, r2) = model::take_cluster(s1);
                match r2 {
                    Err(e) => all == (s2, Err::<(), Error>(e)),
                    Ok(x) => {
                        let (s3, r3) = model::link(s2, cs.last(), x);
                        r3 is Ok ==> all == crate::fat32::write::write_chain(
                            s3,
                            x,
                            0,
                            buf.skip(take),
                            true,
                        )
                    },
                }
            }
        }),
{
    let b = model::bpc(st);
    let c = cs[t];
    let take = if b - inner < buf.len() {
        b - inner
    } else {
        buf.len() as int
    };
    let part = buf.take(take);
    assert(used(st, c));
    lemma_write_cluster(st, c, inner, part, fresh);
    let d = if fresh {
        Ok::<Seq<u8>, Error>(bytes::zeros(b))
    } else {
        model::read(st, model::cluster_lba(st, c), model::spc(st))
    };
    let s1 = model::write(st, model::cluster_lba(st, c), bytes::splice(d->Ok_0, inner, part)).0;
    lemma_cluster_in_chain(st, s1, cs, t, inner, part, fresh);
    assert(follows(s1, cs, t));
    lemma_span(t, t + 1, b);
    s1
}

proof fn lemma_same_rest(st: FatState, cs: Seq<u32>)
    ensures
        rest_kept(st, st, cs),
{
}

proof fn lemma_pushed(cs: Seq<u32>, x: u32)
    ensures
        forall|c: u32| #[trigger] cs.push(x).contains(c) && !cs.contains(c) ==> c == x,
{
    assert forall|c: u32| #[trigger] cs.push(x).contains(c) && !cs.contains(c) implies c == x by {
        let i = choose|i: int| 0 <= i < cs.push(x).len() && cs.push(x)[i] == c;
        if i < cs.len() {
            assert(cs[i] == c);
        }
    }
}

// ---- Making room ------------------------------------------------------------------------------

/// What holds after a chain has been made longer.
#[verifier::opaque]
pub open spec fn lengthened(st: FatState, z: FatState, cs: Seq<u32>, more: Seq<u32>) -> bool {
    &&& chains::in_order(z)
    &&& driver::same_layout(z, st)
    &&& z.inodes == st.inodes
    &&& holds(z, more)
    &&& cs.len() <= more.len()
    &&& more.take(cs.len() as int) == cs
    &&& rest_kept(z, st, cs)
    &&& forall|c: u32| #[trigger] more.contains(c) && !cs.contains(c) ==> !chains::busy(st, c)
    &&& forall|p: int|
        0 <= p < cs.len() * model::bpc(st) ==> #[trigger] byte_at(z, more, p) == byte_at(st, cs, p)
}

/// What is apart from a chain over two steps.
#[verifier::spinoff_prover]
#[verifier::rlimit(40)]
pub(crate) proof fn lemma_apart_twice(
    st: FatState,
    mid: FatState,
    z: FatState,
    cs: Seq<u32>,
    some: Seq<u32>,
    more: Seq<u32>,
)
    requires
        driver::same_layout(mid, st),
        driver::same_layout(z, mid),
        rest_kept(mid, st, cs),
        rest_kept(z, mid, some),
        holds(z, more),
        forall|c: u32| #[trigger] some.contains(c) && !cs.contains(c) ==> !chains::busy(st, c),
        forall|c: u32| #[trigger] more.contains(c) && !some.contains(c) ==> !chains::busy(mid, c),
    ensures
        rest_kept(z, st, cs),
        forall|c: u32| #[trigger] more.contains(c) && !cs.contains(c) ==> !chains::busy(st, c),
{
    lemma_rest_twice(st, mid, z, cs, some);
    assert forall|c: u32| #[trigger] more.contains(c) && !cs.contains(c) implies !chains::busy(
        st,
        c,
    ) by {
        let i = choose|i: int| 0 <= i < more.len() && more[i] == c;
        assert(used(z, more[i]));
        assert(chains::proper(st, c));
        if !some.contains(c) && chains::busy(st, c) {
            assert(used(st, c));
            assert(untouched(mid, st, c));
        }
    }
}

pub(crate) proof fn lemma_lengthened_itself(st: FatState, cs: Seq<u32>)
    requires
        chains::in_order(st),
        holds(st, cs),
    ensures
        lengthened(st, st, cs, cs),
{
    reveal(lengthened);
    assert(cs.take(cs.len() as int) =~= cs);
}

pub(crate) proof fn lemma_lengthened_twice(
    st: FatState,
    mid: FatState,
    z: FatState,
    cs: Seq<u32>,
    some: Seq<u32>,
    more: Seq<u32>,
)
    requires
        lengthened(st, mid, cs, some),
        lengthened(mid, z, some, more),
        model::spc(st) >= 1,
    ensures
        lengthened(st, z, cs, more),
{
    reveal(lengthened);
    lemma_apart_twice(st, mid, z, cs, some, more);
    assert(more.take(cs.len() as int) =~= more.take(some.len() as int).take(cs.len() as int));
    lemma_longer(cs.len() as int, some.len() as int, model::bpc(st));
    assert forall|p: int| 0 <= p < cs.len() * model::bpc(st) implies #[trigger] byte_at(z, more, p)
        == byte_at(st, cs, p) by {
        assert(byte_at(mid, some, p) == byte_at(st, cs, p));
    }
}

pub(crate) proof fn lemma_longer(a: int, b: int, n: int)
    requires
        a <= b,
        n >= 0,
    ensures
        a * n <= b * n,
{
    assert(a * n <= b * n) by (nonlinear_arith)
        requires
            a <= b,
            n >= 0,
    ;
}

/// A chain made longer and then written to.
#[verifier::spinoff_prover]
#[verifier::rlimit(40)]
pub(crate) proof fn lemma_lengthened_written(
    st: FatState,
    mid: FatState,
    z: FatState,
    cs: Seq<u32>,
    some: Seq<u32>,
    more: Seq<u32>,
    from: int,
    buf: Seq<u8>,
    blank: Option<int>,
)
    requires
        lengthened(st, mid, cs, some),
        chain_written(mid, z, some, more, from, buf, blank),
        model::spc(st) >= 1,
    ensures
        chain_written(st, z, cs, more, from, buf, blank),
{
    reveal(lengthened);
    reveal(chain_written);
    lemma_apart_twice(st, mid, z, cs, some, more);
    assert(more.take(cs.len() as int) =~= more.take(some.len() as int).take(cs.len() as int));
    lemma_longer(cs.len() as int, some.len() as int, model::bpc(st));
    assert forall|p: int|
        0 <= p < cs.len() * model::bpc(st) && !(from <= p < from + buf.len()) && blank != Some(
            p / model::bpc(st),
        ) implies #[trigger] byte_at(z, more, p) == byte_at(st, cs, p) by {
        assert(byte_at(mid, some, p) == byte_at(st, cs, p));
    }
}

pub(crate) proof fn lemma_new_lengthens(st: FatState, cs: Seq<u32>)
    requires
        chains::in_order(st),
        holds(st, cs),
    ensures
        ({
            let (s2, r2) = model::take_cluster(st);
            match r2 {
                Err(e) => e == Error::NoSpace && s2 == st,
                Ok(x) => {
                    let (s3, r3) = model::link(s2, cs.last(), x);
                    &&& r3 is Ok
                    &&& chains::in_order(s3)
                    &&& holds(s3, cs.push(x))
                    &&& driver::same_layout(s3, st)
                    &&& lengthened(st, s3, cs, cs.push(x))
                },
            }
        }),
{
    lemma_new_cluster(st, cs);
    reveal(lengthened);
}

/// A chain followed to cluster `i + n`, and made longer up to there.
#[verifier::spinoff_prover]
#[verifier::rlimit(40)]
proof fn lemma_reached(st: FatState, cs: Seq<u32>, i: int, n: int) -> (more: Seq<u32>)
    requires
        chains::in_order(st),
        holds(st, cs),
        0 <= i < cs.len(),
        0 <= n,
    ensures
        ({
            let (z, r) = crate::fat32::write::reached(st, cs[i], n);
            match r {
                Err(e) => e == Error::NoSpace,
                Ok(new) => lengthened(st, z, cs, more) && i + n < more.len() && (new <==> i + n
                    >= cs.len()),
            }
        }),
    decreases n,
{
    if n == 0 {
        lemma_lengthened_itself(st, cs);
        cs
    } else {
        assert(follows(st, cs, i));
        if i + 1 < cs.len() {
            lemma_reached(st, cs, i + 1, n - 1)
        } else {
            lemma_new_lengthens(st, cs);
            let (s2, r2) = model::take_cluster(st);
            if r2 is Ok {
                let x = r2->Ok_0;
                let s3 = model::link(s2, cs.last(), x).0;
                let some = cs.push(x);
                if n == 1 {
                    some
                } else {
                    let more = lemma_reached(s3, some, i + 1, n - 1);
                    let (z, r) = crate::fat32::write::reached(s3, x, n - 1);
                    if r is Ok {
                        lemma_lengthened_twice(st, s3, z, cs, some, more);
                    }
                    more
                }
            } else {
                cs
            }
        }
    }
}

// ---- Files ------------------------------------------------------------------------------------

/// Whether a file of `size` bytes lies in a chain.
pub open spec fn file_in(st: FatState, e: EntryView, cs: Seq<u32>) -> bool {
    &&& !entry::has_attr(e, ATTR_DIRECTORY)
    &&& holds(st, cs)
    &&& entry::first_cluster(e) == cs[0]
    &&& e.file_size <= cs.len() * model::bpc(st)
}

/// What holds after `buf` has been written to a file of `size` bytes, from byte `from` on.
pub open spec fn file_written(
    st: FatState,
    z: FatState,
    cs: Seq<u32>,
    more: Seq<u32>,
    size: int,
    from: int,
    buf: Seq<u8>,
) -> bool {
    &&& chains::in_order(z)
    &&& driver::same_layout(z, st)
    &&& z.inodes == st.inodes
    &&& holds(z, more)
    &&& cs.len() <= more.len()
    &&& more.take(cs.len() as int) == cs
    &&& from + buf.len() <= more.len() * model::bpc(st)
    &&& rest_kept(z, st, cs)
    &&& forall|c: u32| #[trigger] more.contains(c) && !cs.contains(c) ==> !chains::busy(st, c)
    &&& forall|p: int|
        from <= p < from + buf.len() ==> #[trigger] byte_at(z, more, p) == buf[p - from]
    &&& forall|p: int|
        0 <= p < size && !(from <= p < from + buf.len()) ==> #[trigger] byte_at(z, more, p)
            == byte_at(st, cs, p)
}

#[verifier::spinoff_prover]
#[verifier::rlimit(40)]
pub(crate) proof fn lemma_blank(size: int, target: int, n: int, b: int, new: bool, p: int)
    requires
        b >= 1,
        0 <= p < size,
        size <= n * b,
        new ==> target >= n,
        new || target >= (size + b - 1) / b,
    ensures
        p / b != target,
{
    if new {
        assert(p / b < n) by (nonlinear_arith)
            requires
                b >= 1,
                0 <= p < n * b,
        ;
    } else {
        let w = (size + b - 1) / b;
        assert(p / b < w) by (nonlinear_arith)
            requires
                b >= 1,
                0 <= p < size,
                w == (size + b - 1) / b,
        ;
    }
}

/// A write to a file that has data puts the bytes where they belong in it, leaves its other
/// bytes and every other cluster in use as they were, and fails only for want of space.
#[verifier::spinoff_prover]
#[verifier::rlimit(40)]
pub proof fn write_changes_contents(
    st: FatState,
    e: EntryView,
    cs: Seq<u32>,
    pos: Option<(u32, int)>,
    offset: int,
    buf: Seq<u8>,
) -> (more: Seq<u32>)
    requires
        chains::in_order(st),
        file_in(st, e, cs),
        offset >= 0,
        buf.len() > 0,
    ensures
        match crate::fat32::write::write_file(st, e, pos, offset, buf).1 {
            Err(x) => x == Error::NoSpace,
            Ok(head) => head == cs[0] && file_written(
                st,
                crate::fat32::write::write_file(st, e, pos, offset, buf).0,
                cs,
                more,
                e.file_size as int,
                offset,
                buf,
            ),
        },
{
    reveal(crate::fat32::write::write_file);
    reveal(crate::fat32::write::prepared);
    let b = model::bpc(st);
    let target = offset / b;
    let inner = offset % b;
    assert(used(st, cs[0]));
    assert(target >= 0 && 0 <= inner < b && offset == target * b + inner) by (nonlinear_arith)
        requires
            b >= 1,
            offset >= 0,
            target == offset / b,
            inner == offset % b,
    ;
    let some = lemma_reached(st, cs, 0, target);
    let (s1, r1) = crate::fat32::write::reached(st, cs[0], target);
    if r1 is Ok {
        assert(chains::in_order(s1) && holds(s1, some) && driver::same_layout(s1, st) && some[0]
            == cs[0]) by {
            reveal(lengthened);
            assert(some.take(cs.len() as int)[0] == some[0]);
        }
        lemma_step(s1, some, 0, target);
        let fresh = r1->Ok_0 || target >= (e.file_size + b - 1) / b;
        let more = lemma_write_chain(s1, some, target, inner, buf, fresh);
        let (z, r) = crate::fat32::write::write_chain(s1, some[target], inner, buf, fresh);
        if r is Ok {
            let blank = if fresh {
                Some(target)
            } else {
                None
            };
            lemma_lengthened_written(st, s1, z, cs, some, more, offset, buf, blank);
            reveal(chain_written);
            assert forall|p: int|
                0 <= p < e.file_size && !(offset <= p < offset + buf.len()) implies
                #[trigger] byte_at(z, more, p) == byte_at(st, cs, p) by {
                if fresh {
                    lemma_blank(e.file_size as int, target, cs.len() as int, b, r1->Ok_0, p);
                }
            }
        }
        more
    } else {
        cs
    }
}

// ---- Reading ----------------------------------------------------------------------------------

/// `n` clusters in a row.
pub open spec fn in_a_row(c: u32, n: int) -> Seq<u32> {
    Seq::new(n as nat, |i: int| (c + i) as u32)
}

/// The clusters of the runs from `i` on.
pub open spec fn unrolled(rs: Seq<(u32, u32)>, i: int) -> Seq<u32>
    decreases rs.len() - i,
{
    if i < 0 || i >= rs.len() {
        Seq::empty()
    } else {
        in_a_row(rs[i].0, rs[i].1 as int) + unrolled(rs, i + 1)
    }
}

#[verifier::spinoff_prover]
#[verifier::rlimit(40)]
proof fn lemma_unrolled_push(rs: Seq<(u32, u32)>, r: (u32, u32), i: int)
    requires
        0 <= i <= rs.len(),
    ensures
        unrolled(rs.push(r), i) == unrolled(rs, i) + in_a_row(r.0, r.1 as int),
    decreases rs.len() - i,
{
    let all = rs.push(r);
    if i < rs.len() {
        lemma_unrolled_push(rs, r, i + 1);
        let a = in_a_row(rs[i].0, rs[i].1 as int);
        assert(all[i] == rs[i]);
        assert(a + (unrolled(rs, i + 1) + in_a_row(r.0, r.1 as int)) =~= (a + unrolled(rs, i + 1))
            + in_a_row(r.0, r.1 as int));
    } else {
        assert(all[i] == r);
        assert(unrolled(all, i + 1) =~= Seq::<u32>::empty());
        assert(in_a_row(r.0, r.1 as int) + unrolled(all, i + 1) =~= unrolled(rs, i) + in_a_row(
            r.0,
            r.1 as int,
        ));
    }
}

/// The runs of clusters hold just these clusters.
#[verifier::spinoff_prover]
#[verifier::rlimit(40)]
proof fn lemma_ranges(cs: Seq<u32>)
    requires
        forall|i: int| 0 <= i < cs.len() ==> #[trigger] cs[i] >= 1,
    ensures
        unrolled(read::ranges(cs), 0) == cs,
        read::in_numbers(read::ranges(cs)),
    decreases cs.len(),
{
    if cs.len() == 0 {
        assert(unrolled(read::ranges(cs), 0) =~= cs);
    } else {
        let up = cs.drop_last();
        assert forall|i: int| 0 <= i < up.len() implies #[trigger] up[i] >= 1 by {
            assert(up[i] == cs[i]);
        }
        lemma_ranges(up);
        let p = read::ranges(up);
        let x = cs.last();
        assert(x >= 1) by {
            assert(cs[cs.len() - 1] == x);
        }
        if p.len() > 0 && p.last().0 + p.last().1 == x {
            let r = p.last();
            let q = p.drop_last();
            let one = (r.0, (r.1 + 1) as u32);
            assert(p[p.len() - 1] == r);
            assert(q.push(r) =~= p);
            assert(p.update(p.len() - 1, one) =~= q.push(one));
            lemma_unrolled_push(q, r, 0);
            lemma_unrolled_push(q, one, 0);
            assert(unrolled(q, 0) + in_a_row(one.0, one.1 as int) =~= (unrolled(q, 0) + in_a_row(
                r.0,
                r.1 as int,
            )).push(x));
            assert(up.push(x) =~= cs);
        } else {
            lemma_unrolled_push(p, (x, 1u32), 0);
            assert(unrolled(p, 0) + in_a_row(x, 1) =~= cs);
        }
    }
}

proof fn lemma_spot_on(st: FatState, c: u32, i: int)
    requires
        0 <= i,
        c + i <= u32::MAX,
    ensures
        spot(st, (c + i) as u32) == spot(st, c) + i * model::bpc(st),
{
    let s = model::spc(st);
    let a = c - 2;
    assert((a + i) * s * 512 == a * s * 512 + i * (512 * s)) by (nonlinear_arith);
}

/// Clusters in a row are read as one.
#[verifier::spinoff_prover]
#[verifier::rlimit(40)]
proof fn lemma_run(st: FatState, c: u32, n: int)
    requires
        model::valid(st),
        1 <= n,
        c + n <= 0x1_0000_0000,
        forall|i: int| 0 <= i < n ==> sits(st, #[trigger] ((c + i) as u32)),
    ensures
        read::read_run(st, c as int, n) == Ok::<Seq<u8>, Error>(
            st.disk.subrange(spot(st, c), spot(st, c) + n * model::bpc(st)),
        ),
    decreases n,
{
    let s = model::spc(st);
    let b = model::bpc(st);
    let most = 4096int / s;
    assert(1 <= most) by (nonlinear_arith)
        requires
            1 <= s <= 128,
            most == 4096int / s,
    ;
    let k = if n < most {
        n
    } else {
        most
    };
    assert(sits(st, ((c + 0) as u32)));
    lemma_spot(st, c);
    assert(sits(st, ((c + (k - 1)) as u32)));
    lemma_spot(st, (c + (k - 1)) as u32);
    lemma_spot_on(st, c, k - 1);
    assert(sits(st, ((c + (n - 1)) as u32)));
    lemma_spot(st, (c + (n - 1)) as u32);
    lemma_spot_on(st, c, n - 1);
    let l = model::cluster_lba(st, c);
    assert((l + k * s) * 512 == l * 512 + k * b && (k - 1) * b + b == k * b && k * s >= 1 && (n
        - 1) * b + b == n * b && n * b == k * b + (n - k) * b && 0 <= k * b && 0 <= (n - k) * b)
        by (nonlinear_arith)
        requires
            b == 512 * s,
            1 <= k <= n,
            s >= 1,
    ;
    let all = st.disk.subrange(spot(st, c), spot(st, c) + n * b);
    let d = st.disk.subrange(spot(st, c), spot(st, c) + k * b);
    assert(model::read(st, l, k * s) == Ok::<Seq<u8>, Error>(d));
    if k == n {
        assert(read::read_run(st, c + k, 0) == Ok::<Seq<u8>, Error>(Seq::empty()));
        assert(d + Seq::<u8>::empty() =~= all);
    } else {
        let next = (c + k) as u32;
        assert forall|i: int| 0 <= i < n - k implies sits(
            st,
            #[trigger] ((next + i) as u32),
        ) by {
            assert(sits(st, (c + (k + i)) as u32));
        }
        lemma_run(st, next, n - k);
        lemma_spot_on(st, c, k);
        let e = st.disk.subrange(spot(st, next), spot(st, next) + (n - k) * b);
        assert(d + e =~= all);
    }
}

/// The bytes of a chain from `from` on.
pub open spec fn bytes_at(st: FatState, cs: Seq<u32>, from: int, n: int) -> Seq<u8> {
    Seq::new(n as nat, |o: int| byte_at(st, cs, from + o))
}

/// A byte of a run is a byte of the clusters that the run stands for.
proof fn lemma_run_byte(st: FatState, rs: Seq<(u32, u32)>, i: int, x: int)
    requires
        model::spc(st) >= 1,
        0 <= i < rs.len(),
        rs[i].0 + rs[i].1 <= 0x1_0000_0000,
        0 <= x < rs[i].1 * model::bpc(st),
    ensures
        byte_at(st, unrolled(rs, i), x) == st.disk[spot(st, rs[i].0) + x],
{
    let run = in_a_row(rs[i].0, rs[i].1 as int);
    let all = unrolled(rs, i);
    lemma_place(st, run, x);
    let j = x / model::bpc(st);
    assert(all[j] == run[j]);
    lemma_spot_on(st, rs[i].0, j);
}

/// A byte past a run is a byte of the runs after it.
#[verifier::spinoff_prover]
#[verifier::rlimit(40)]
proof fn lemma_later_byte(st: FatState, rs: Seq<(u32, u32)>, i: int, x: int)
    requires
        model::spc(st) >= 1,
        0 <= i < rs.len(),
        0 <= x,
    ensures
        byte_at(st, unrolled(rs, i), rs[i].1 * model::bpc(st) + x) == byte_at(
            st,
            unrolled(rs, i + 1),
            x,
        ) || x >= unrolled(rs, i + 1).len() * model::bpc(st),
{
    let b = model::bpc(st);
    let n = rs[i].1 as int;
    let rest = unrolled(rs, i + 1);
    if x < rest.len() * b {
        lemma_place(st, rest, x);
        let j = x / b;
        lemma_longer(0, n + j, b);
        lemma_index(n + j, x % b, b);
        assert((n + j) * b == n * b + j * b) by (nonlinear_arith);
        assert(n * b + x == (n + j) * b + x % b);
        assert(unrolled(rs, i)[n + j] == rest[j]);
    }
}

/// The first bytes of runs are those of the clusters that they stand for.
#[verifier::spinoff_prover]
#[verifier::rlimit(40)]
proof fn lemma_read_some(
    st: FatState,
    rs: Seq<(u32, u32)>,
    i: int,
    left: int,
    remaining: int,
    skip: int,
)
    requires
        model::valid(st),
        read::in_numbers(rs),
        0 <= i <= rs.len(),
        0 <= left <= unrolled(rs, i).len(),
        0 <= remaining,
        0 <= skip < model::bpc(st),
        remaining > 0 ==> skip + remaining <= left * model::bpc(st),
        forall|j: int|
            0 <= j < left ==> sits(st, #[trigger] unrolled(rs, i)[j]),
    ensures
        read::read_some(st, rs, i, left, remaining, skip) == Ok::<Seq<u8>, Error>(
            bytes_at(st, unrolled(rs, i), skip, remaining),
        ),
    decreases rs.len() - i,
{
    let b = model::bpc(st);
    let all = unrolled(rs, i);
    if remaining == 0 {
        assert(bytes_at(st, all, skip, 0) =~= Seq::<u8>::empty());
    } else {
        assert(left > 0) by (nonlinear_arith)
            requires
                left * b > 0,
                b > 0,
        ;
        let c = rs[i].0;
        let whole = rs[i].1 as int;
        let k = if whole < left {
            whole
        } else {
            left
        };
        assert forall|j: int| 0 <= j < k implies sits(st, #[trigger] ((c + j) as u32)) by {
            assert(sits(st, all[j]));
        }
        lemma_run(st, c, k);
        assert(sits(st, ((c + 0) as u32)));
        assert(sits(st, ((c + (k - 1)) as u32)));
        lemma_spot(st, c);
        lemma_spot(st, (c + (k - 1)) as u32);
        lemma_spot_on(st, c, k - 1);
        lemma_span(k - 1, whole, b);
        let d = st.disk.subrange(spot(st, c), spot(st, c) + k * b);
        assert(d.len() == k * b);
        let avail = d.len() - skip;
        let take = if remaining < avail {
            remaining
        } else {
            avail
        };
        assert(left * b == k * b + (left - k) * b) by (nonlinear_arith);
        lemma_longer(0, left - k, b);
        let rest = unrolled(rs, i + 1);
        assert forall|j: int| 0 <= j < left - k implies sits(st, #[trigger] rest[j]) by {
            assert(all[whole + j] == rest[j]);
            assert(sits(st, all[whole + j]));
        }
        lemma_read_some(st, rs, i + 1, left - k, remaining - take, 0);
        let tail = bytes_at(st, rest, 0, remaining - take);
        let want = bytes_at(st, all, skip, remaining);
        let got = d.subrange(skip, skip + take) + tail;
        assert forall|o: int| 0 <= o < remaining implies want[o] == #[trigger] got[o] by {
            if o < take {
                lemma_run_byte(st, rs, i, skip + o);
            } else {
                assert(k == whole);
                lemma_later_byte(st, rs, i, o - take);
                assert((left - k) * b <= rest.len() * b) by (nonlinear_arith)
                    requires
                        left - k <= rest.len(),
                        b >= 0,
                ;
                assert(byte_at(st, all, k * b + (o - take)) == byte_at(st, rest, o - take));
                assert(take == k * b - skip);
            }
        }
        assert(want =~= got);
    }
}

/// The runs of the rest of a chain.
proof fn lemma_chain_ranges(st: FatState, cs: Seq<u32>, k: int) -> (rs: Seq<(u32, u32)>)
    requires
        holds(st, cs),
        0 <= k < cs.len(),
    ensures
        read::chain_ranges(st, cs[k]) == Ok::<Seq<(u32, u32)>, Error>(rs),
        unrolled(rs, 0) == cs.skip(k),
        read::in_numbers(rs),
{
    reveal(read::chain_ranges);
    assert(used(st, cs[k]));
    ending_chain_is_followed(st, cs);
    lemma_chain(st, cs, k, model::chain_limit(st));
    let rest = cs.skip(k);
    assert forall|i: int| 0 <= i < rest.len() implies #[trigger] rest[i] >= 1 by {
        assert(used(st, cs[k + i]));
    }
    lemma_ranges(rest);
    read::ranges(rest)
}

proof fn lemma_skipped_byte(st: FatState, cs: Seq<u32>, k: int, x: int)
    requires
        model::spc(st) >= 1,
        0 <= k <= cs.len(),
        0 <= x < (cs.len() - k) * model::bpc(st),
    ensures
        byte_at(st, cs.skip(k), x) == byte_at(st, cs, k * model::bpc(st) + x),
{
    let b = model::bpc(st);
    let rest = cs.skip(k);
    lemma_place(st, rest, x);
    let j = x / b;
    lemma_index(k + j, x % b, b);
    assert((k + j) * b == k * b + j * b) by (nonlinear_arith);
    assert(rest[j] == cs[k + j]);
}

/// The last cluster that a read touches.
#[verifier::spinoff_prover]
#[verifier::rlimit(40)]
proof fn lemma_touched(offset: int, n: int, len: int, b: int)
    requires
        b >= 1,
        offset >= 0,
        n >= 1,
        offset + n <= len * b,
    ensures
        ({
            let idx = offset / b;
            let left = (offset + n - 1) / b - idx + 1;
            &&& 0 <= idx < len
            &&& 1 <= left <= len - idx
            &&& offset % b + n <= left * b
            &&& 0 <= offset % b < b
            &&& offset == idx * b + offset % b
        }),
{
    let idx = offset / b;
    let r = offset % b;
    let last = (offset + n - 1) / b;
    assert(offset == idx * b + r && 0 <= r < b && 0 <= idx) by (nonlinear_arith)
        requires
            b >= 1,
            offset >= 0,
            idx == offset / b,
            r == offset % b,
    ;
    assert(last * b <= offset + n - 1 < (last + 1) * b) by (nonlinear_arith)
        requires
            b >= 1,
            last == (offset + n - 1) / b,
    ;
    assert(idx <= last) by (nonlinear_arith)
        requires
            b >= 1,
            idx * b <= offset + n - 1,
            offset + n - 1 < (last + 1) * b,
    ;
    assert(last < len) by (nonlinear_arith)
        requires
            b >= 1,
            last * b < len * b,
    ;
    assert((last - idx + 1) * b == (last + 1) * b - idx * b) by (nonlinear_arith);
}

/// A read of a file gives the bytes of its chain, as far as the file goes.
#[verifier::spinoff_prover]
#[verifier::rlimit(40)]
pub proof fn read_gives_contents(st: FatState, e: EntryView, cs: Seq<u32>, offset: int, count: int)
    requires
        chains::fats_fit(st),
        file_in(st, e, cs),
        offset >= 0,
    ensures
        read::file_slice(st, e, offset, count) == Ok::<Seq<u8>, Error>(
            if offset >= e.file_size || count <= 0 {
                Seq::empty()
            } else if count < e.file_size - offset {
                bytes_at(st, cs, offset, count)
            } else {
                bytes_at(st, cs, offset, e.file_size - offset)
            },
        ),
{
    reveal(read::file_slice);
    if offset < e.file_size && count > 0 {
        let n = if count < e.file_size - offset {
            count
        } else {
            e.file_size - offset
        };
        let b = model::bpc(st);
        assert(used(st, cs[0]));
        let idx = offset / b;
        let skip = offset % b;
        let left = (offset + n - 1) / b - idx + 1;
        lemma_touched(offset, n, cs.len() as int, b);
        lemma_step(st, cs, 0, idx);
        let rs = lemma_chain_ranges(st, cs, idx);
        let rest = cs.skip(idx);
        assert forall|j: int| 0 <= j < rest.len() implies chains::proper(st, #[trigger] rest[j]) by {
            assert(used(st, cs[idx + j]));
        }
        assert forall|j: int| 0 <= j < left implies sits(st, #[trigger] rest[j]) by {
            assert(chains::proper(st, rest[j]));
        }
        lemma_read_some(st, rs, 0, left, n, skip);
        lemma_longer(left, cs.len() - idx, b);
        assert forall|o: int| 0 <= o < n implies #[trigger] byte_at(st, rest, skip + o) == byte_at(
            st,
            cs,
            offset + o,
        ) by {
            lemma_skipped_byte(st, cs, idx, skip + o);
        }
        assert(bytes_at(st, rest, skip, n) =~= bytes_at(st, cs, offset, n));
    }
}

/// The first bytes of all runs.
#[verifier::spinoff_prover]
#[verifier::rlimit(40)]
proof fn lemma_read_all(st: FatState, rs: Seq<(u32, u32)>, i: int, remaining: int)
    requires
        model::valid(st),
        read::in_numbers(rs),
        0 <= i <= rs.len(),
        0 <= remaining <= unrolled(rs, i).len() * model::bpc(st),
        forall|j: int|
            0 <= j < unrolled(rs, i).len() ==> sits(st, #[trigger] unrolled(rs, i)[j]),
    ensures
        read::read_all(st, rs, i, remaining) == Ok::<Seq<u8>, Error>(
            bytes_at(st, unrolled(rs, i), 0, remaining),
        ),
    decreases rs.len() - i,
{
    let b = model::bpc(st);
    let all = unrolled(rs, i);
    if remaining == 0 {
        assert(bytes_at(st, all, 0, 0) =~= Seq::<u8>::empty());
    } else {
        assert(all.len() > 0) by (nonlinear_arith)
            requires
                all.len() * b > 0,
        ;
        let c = rs[i].0;
        let k = rs[i].1 as int;
        assert forall|j: int| 0 <= j < k implies sits(st, #[trigger] ((c + j) as u32)) by {
            assert(sits(st, all[j]));
        }
        lemma_run(st, c, k);
        assert(sits(st, ((c + 0) as u32)));
        assert(sits(st, ((c + (k - 1)) as u32)));
        lemma_spot(st, c);
        lemma_spot(st, (c + (k - 1)) as u32);
        lemma_spot_on(st, c, k - 1);
        lemma_span(k - 1, k, b);
        let d = st.disk.subrange(spot(st, c), spot(st, c) + k * b);
        assert(d.len() == k * b);
        let take = if remaining < d.len() {
            remaining
        } else {
            d.len() as int
        };
        let rest = unrolled(rs, i + 1);
        assert(all.len() == k + rest.len());
        assert((k + rest.len()) * b == k * b + rest.len() * b) by (nonlinear_arith);
        lemma_longer(0, rest.len() as int, b);
        assert forall|j: int| 0 <= j < rest.len() implies sits(st, #[trigger] rest[j]) by {
            assert(all[k + j] == rest[j]);
            assert(sits(st, all[k + j]));
        }
        lemma_read_all(st, rs, i + 1, remaining - take);
        let tail = bytes_at(st, rest, 0, remaining - take);
        let want = bytes_at(st, all, 0, remaining);
        let got = d.take(take) + tail;
        assert forall|o: int| 0 <= o < remaining implies want[o] == #[trigger] got[o] by {
            if o < take {
                lemma_run_byte(st, rs, i, o);
            } else {
                lemma_later_byte(st, rs, i, o - take);
            }
        }
        assert(want =~= got);
    }
}

/// A read of a whole file gives the bytes of its chain up to its size.
#[verifier::spinoff_prover]
#[verifier::rlimit(40)]
pub proof fn whole_file_gives_contents(st: FatState, e: EntryView, cs: Seq<u32>)
    requires
        chains::fats_fit(st),
        file_in(st, e, cs),
    ensures
        read::file_data(st, e) == Ok::<Seq<u8>, Error>(bytes_at(st, cs, 0, e.file_size as int)),
{
    reveal(read::file_data);
    assert(used(st, cs[0]));
    if e.file_size == 0 {
        assert(bytes_at(st, cs, 0, 0) =~= Seq::<u8>::empty());
    } else {
        let rs = lemma_chain_ranges(st, cs, 0);
        assert(cs.skip(0) =~= cs);
        assert forall|j: int| 0 <= j < cs.len() implies chains::proper(st, #[trigger] cs[j]) by {
            assert(used(st, cs[j]));
        }
        lemma_read_all(st, rs, 0, e.file_size as int);
    }
}

// ---- Reads of parts -----------------------------------------------------------------------

/// Clusters in a row that can be read are on the device.
#[verifier::spinoff_prover]
#[verifier::rlimit(40)]
proof fn lemma_run_ok(st: FatState, c: u32, n: int)
    requires
        model::valid(st),
        1 <= n,
        c + n <= 0x1_0000_0000,
        forall|i: int| 0 <= i < n ==> inside(st, #[trigger] ((c + i) as u32)),
        read::read_run(st, c as int, n) is Ok,
    ensures
        forall|i: int| 0 <= i < n ==> sits(st, #[trigger] ((c + i) as u32)),
    decreases n,
{
    let s = model::spc(st);
    let most = 4096int / s;
    assert(1 <= most) by (nonlinear_arith)
        requires
            1 <= s <= 128,
            most == 4096int / s,
    ;
    let k = if n < most {
        n
    } else {
        most
    };
    assert(inside(st, ((c + 0) as u32)));
    let l = model::cluster_lba(st, c);
    assert(l == model::data_lba(st) + (c - 2) * s);
    assert(k * s >= 1) by (nonlinear_arith)
        requires
            k >= 1,
            s >= 1,
    ;
    assert(model::read(st, l, k * s) is Ok);
    assert((l + k * s) * 512 <= st.disk.len());
    if k < n {
        let next = (c + k) as u32;
        assert forall|i: int| 0 <= i < n - k implies inside(st, #[trigger] ((next + i) as u32)) by {
            assert(inside(st, (c + (k + i)) as u32));
        }
        lemma_run_ok(st, next, n - k);
    }
    assert forall|i: int| 0 <= i < n implies sits(st, #[trigger] ((c + i) as u32)) by {
        let x = (c + i) as u32;
        assert(inside(st, x));
        if i < k {
            assert((x - 1) * s == (c - 2) * s + (i + 1) * s) by (nonlinear_arith)
                requires
                    x == c + i,
            ;
            assert((i + 1) * s <= k * s) by (nonlinear_arith)
                requires
                    i + 1 <= k,
                    s >= 0,
            ;
        } else {
            assert(sits(st, (((c + k) as u32) + (i - k)) as u32));
        }
    }
}

/// Runs that can be read give the bytes of their clusters, and those clusters are on the device.
#[verifier::spinoff_prover]
#[verifier::rlimit(60)]
proof fn lemma_read_all_ok(st: FatState, rs: Seq<(u32, u32)>, i: int, remaining: int)
    requires
        model::valid(st),
        read::in_numbers(rs),
        0 <= i <= rs.len(),
        0 <= remaining,
        forall|j: int| 0 <= j < unrolled(rs, i).len() ==> inside(st, #[trigger] unrolled(rs, i)[j]),
        read::read_all(st, rs, i, remaining) is Ok,
    ensures
        remaining <= unrolled(rs, i).len() * model::bpc(st),
        read::read_all(st, rs, i, remaining) == Ok::<Seq<u8>, Error>(
            bytes_at(st, unrolled(rs, i), 0, remaining),
        ),
        forall|j: int|
            0 <= j < unrolled(rs, i).len() && j * model::bpc(st) < remaining ==> sits(
                st,
                #[trigger] unrolled(rs, i)[j],
            ),
    decreases rs.len() - i,
{
    let b = model::bpc(st);
    let all = unrolled(rs, i);
    lemma_longer(0, all.len() as int, b);
    if remaining == 0 {
        assert(bytes_at(st, all, 0, 0) =~= Seq::<u8>::empty());
        assert forall|j: int| 0 <= j < all.len() && j * b < remaining implies sits(
            st,
            #[trigger] all[j],
        ) by {
            lemma_longer(0, j, b);
        }
    } else {
        let c = rs[i].0;
        let k = rs[i].1 as int;
        assert forall|j: int| 0 <= j < k implies inside(st, #[trigger] ((c + j) as u32)) by {
            assert(inside(st, all[j]));
        }
        lemma_run_ok(st, c, k);
        lemma_run(st, c, k);
        assert(sits(st, ((c + 0) as u32)));
        assert(sits(st, ((c + (k - 1)) as u32)));
        lemma_spot(st, c);
        lemma_spot(st, (c + (k - 1)) as u32);
        lemma_spot_on(st, c, k - 1);
        lemma_span(k - 1, k, b);
        let d = st.disk.subrange(spot(st, c), spot(st, c) + k * b);
        assert(d.len() == k * b);
        let take = if remaining < d.len() {
            remaining
        } else {
            d.len() as int
        };
        let rest = unrolled(rs, i + 1);
        assert(all.len() == k + rest.len());
        assert((k + rest.len()) * b == k * b + rest.len() * b) by (nonlinear_arith);
        lemma_longer(0, rest.len() as int, b);
        assert forall|j: int| 0 <= j < rest.len() implies inside(st, #[trigger] rest[j]) by {
            assert(all[k + j] == rest[j]);
            assert(inside(st, all[k + j]));
        }
        lemma_read_all_ok(st, rs, i + 1, remaining - take);
        let tail = bytes_at(st, rest, 0, remaining - take);
        let want = bytes_at(st, all, 0, remaining);
        let got = d.take(take) + tail;
        assert forall|o: int| 0 <= o < remaining implies want[o] == #[trigger] got[o] by {
            if o < take {
                lemma_run_byte(st, rs, i, o);
            } else {
                lemma_later_byte(st, rs, i, o - take);
            }
        }
        assert(want =~= got);
        assert forall|j: int| 0 <= j < all.len() && j * b < remaining implies sits(
            st,
            #[trigger] all[j],
        ) by {
            if j < k {
                assert(sits(st, (c + j) as u32));
            } else {
                assert(j * b == k * b + (j - k) * b) by (nonlinear_arith);
                lemma_longer(0, j - k, b);
                assert(rest[j - k] == all[j]);
                assert(sits(st, rest[j - k]));
            }
        }
    }
}

proof fn lemma_step_on(st: FatState, cs: Seq<u32>, i: int, k: int)
    requires
        ends(st, cs),
        0 <= i,
        0 <= k,
        i + k < cs.len(),
    ensures
        model::step(st, cs[i], k) == Ok::<Option<u32>, Error>(Some(cs[i + k])),
    decreases k,
{
    if k > 0 {
        assert(follows(st, cs, i));
        lemma_step_on(st, cs, i + 1, k - 1);
    }
}

/// Where a whole file can be read, reading a part of it gives that part, however its clusters
/// are scattered. This holds of every chain whose clusters start within the volume.
#[verifier::spinoff_prover]
#[verifier::rlimit(60)]
pub proof fn part_is_a_slice(st: FatState, e: EntryView, cs: Seq<u32>, offset: int, count: int)
    requires
        model::valid(st),
        ends(st, cs),
        entry::first_cluster(e) == cs[0],
        forall|i: int| 0 <= i < cs.len() ==> inside(st, #[trigger] cs[i]),
        read::file_data(st, e) is Ok,
        offset >= 0,
    ensures
        ({
            let d = read::file_data(st, e)->Ok_0;
            &&& d.len() == e.file_size
            &&& read::file_slice(st, e, offset, count) == Ok::<Seq<u8>, Error>(
                if offset >= e.file_size || count <= 0 {
                    Seq::empty()
                } else if count < e.file_size - offset {
                    d.subrange(offset, offset + count)
                } else {
                    d.skip(offset)
                },
            )
        }),
{
    reveal(read::file_data);
    reveal(read::file_slice);
    reveal(read::chain_ranges);
    let d = read::file_data(st, e)->Ok_0;
    if e.file_size > 0 {
        assert(inside(st, cs[0]));
        ending_chain_is_followed(st, cs);
        assert forall|i: int| 0 <= i < cs.len() implies #[trigger] cs[i] >= 1 by {
            assert(inside(st, cs[i]));
        }
        lemma_ranges(cs);
        let b = model::bpc(st);
        let all = read::ranges(cs);
        lemma_read_all_ok(st, all, 0, e.file_size as int);
        assert(d == bytes_at(st, cs, 0, e.file_size as int));
        if offset < e.file_size && count > 0 {
            let n = if count < e.file_size - offset {
                count
            } else {
                e.file_size - offset
            };
            let idx = offset / b;
            let skip = offset % b;
            let left = (offset + n - 1) / b - idx + 1;
            lemma_touched(offset, n, cs.len() as int, b);
            lemma_step_on(st, cs, 0, idx);
            lemma_chain(st, cs, idx, model::chain_limit(st));
            let rest = cs.skip(idx);
            assert forall|i: int| 0 <= i < rest.len() implies #[trigger] rest[i] >= 1 by {
                assert(inside(st, cs[idx + i]));
            }
            lemma_ranges(rest);
            let rs = read::ranges(rest);
            assert(inside(st, cs[idx]));
            assert forall|j: int| 0 <= j < left implies sits(st, #[trigger] rest[j]) by {
                assert((idx + j) * b < e.file_size) by {
                    let last = (offset + n - 1) / b;
                    assert(last * b <= offset + n - 1) by (nonlinear_arith)
                        requires
                            b >= 1,
                            last == (offset + n - 1) / b,
                    ;
                    assert((idx + j) * b <= last * b) by (nonlinear_arith)
                        requires
                            idx + j <= last,
                            b >= 0,
                    ;
                }
                assert(unrolled(all, 0)[idx + j] == rest[j]);
                assert(sits(st, unrolled(all, 0)[idx + j]));
            }
            lemma_read_some(st, rs, 0, left, n, skip);
            lemma_longer(left, cs.len() - idx, b);
            assert forall|o: int| 0 <= o < n implies #[trigger] byte_at(st, rest, skip + o)
                == byte_at(st, cs, offset + o) by {
                lemma_skipped_byte(st, cs, idx, skip + o);
            }
            assert(bytes_at(st, rest, skip, n) =~= d.subrange(offset, offset + n));
        }
    }
}

/// What is written to a file that has data is what a read of the same range gives back.
#[verifier::spinoff_prover]
#[verifier::rlimit(40)]
pub proof fn write_then_read(
    st: FatState,
    e: EntryView,
    cs: Seq<u32>,
    pos: Option<(u32, int)>,
    offset: int,
    buf: Seq<u8>,
    after: EntryView,
) -> (more: Seq<u32>)
    requires
        chains::in_order(st),
        file_in(st, e, cs),
        offset >= 0,
        buf.len() > 0,
        !entry::has_attr(after, ATTR_DIRECTORY),
        entry::first_cluster(after) == cs[0],
        after.file_size == (if e.file_size > offset + buf.len() {
            e.file_size as int
        } else {
            offset + buf.len()
        }),
    ensures
        ({
            let (z, r) = crate::fat32::write::write_file(st, e, pos, offset, buf);
            match r {
                Err(x) => x == Error::NoSpace,
                Ok(_) => {
                    &&& chains::in_order(z)
                    &&& file_in(z, after, more)
                    &&& read::file_slice(z, after, offset, buf.len() as int) == Ok::<
                        Seq<u8>,
                        Error,
                    >(buf)
                },
            }
        }),
{
    let more = write_changes_contents(st, e, cs, pos, offset, buf);
    let (z, r) = crate::fat32::write::write_file(st, e, pos, offset, buf);
    if r is Ok {
        assert(more.take(cs.len() as int)[0] == more[0]);
        lemma_longer(cs.len() as int, more.len() as int, model::bpc(st));
        read_gives_contents(z, after, more, offset, buf.len() as int);
        assert(bytes_at(z, more, offset, buf.len() as int) =~= buf);
    }
    more
}

} // verus!
