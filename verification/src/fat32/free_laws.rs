//! What freeing a chain gives back.
use vstd::prelude::*;
use crate::error::Error;
use super::chains;
use super::contents;
use super::driver;
use super::model;
use super::model::FatState;

verus! {

/// What holds after the clusters of a chain have been freed: they are free, every other FAT
/// entry is what it was, and so is every byte outside the FATs.
pub open spec fn freed(st: FatState, z: FatState, cs: Seq<u32>) -> bool {
    &&& chains::in_order(z)
    &&& driver::same_layout(z, st)
    &&& z.inodes == st.inodes
    &&& forall|i: int| 0 <= i < cs.len() ==> !chains::busy(z, #[trigger] cs[i])
    &&& chains::same_but(z, st, cs.to_set())
    &&& chains::same_data(z, st)
}

/// The rest of a chain is a chain.
proof fn lemma_rest(st: FatState, cs: Seq<u32>)
    requires
        contents::holds(st, cs),
        cs.len() > 1,
    ensures
        contents::holds(st, cs.skip(1)),
{
    let t = cs.skip(1);
    assert forall|i: int| 0 <= i < t.len() implies contents::used(st, #[trigger] t[i]) by {
        assert(contents::used(st, cs[i + 1]));
    }
    assert forall|i: int, j: int| 0 <= i < j < t.len() implies #[trigger] t[i] != #[trigger] t[j] by {
        assert(cs[i + 1] != cs[j + 1]);
    }
    assert forall|i: int| 0 <= i < t.len() implies #[trigger] contents::follows(st, t, i) by {
        assert(contents::follows(st, cs, i + 1));
    }
}

/// One cluster freed.
#[verifier::spinoff_prover]
#[verifier::rlimit(40)]
proof fn lemma_free_one(st: FatState, c: u32)
    requires
        chains::in_order(st),
        chains::proper(st, c),
    ensures
        ({
            let (z, r) = model::set_fat(st, c, 0);
            &&& r == Ok::<(), Error>(())
            &&& chains::in_order(z)
            &&& driver::same_layout(z, st)
            &&& z == (FatState { disk: z.disk, ..st })
            &&& !chains::busy(z, c)
            &&& chains::same_but(z, st, set![c])
            &&& chains::same_data(z, st)
        }),
{
    chains::lemma_set(st, c, 0);
    let z = model::set_fat(st, c, 0).0;
    assert forall|d: u32| 2 <= d < model::search_limit(z) && !chains::busy(z, d) implies
        #[trigger] chains::proper(z, d) by {
        if d != c {
            assert(!set![c].contains(d));
            assert(model::fat_value(z, d) == model::fat_value(st, d));
            assert(!chains::busy(st, d));
            assert(chains::proper(st, d));
        }
    }
}

/// Freeing the rest after the first cluster has been freed.
#[verifier::spinoff_prover]
#[verifier::rlimit(40)]
proof fn lemma_freed_on(st: FatState, s: FatState, z: FatState, cs: Seq<u32>)
    requires
        cs.len() > 1,
        contents::holds(st, cs),
        driver::same_layout(s, st),
        s.inodes == st.inodes,
        !chains::busy(s, cs[0]),
        chains::same_but(s, st, set![cs[0]]),
        chains::same_data(s, st),
        freed(s, z, cs.skip(1)),
    ensures
        freed(st, z, cs),
{
    let t = cs.skip(1);
    assert(contents::used(st, cs[0]));
    assert(!t.contains(cs[0])) by {
        if t.contains(cs[0]) {
            let j = choose|j: int| 0 <= j < t.len() && t[j] == cs[0];
            assert(cs[0] != cs[j + 1]);
        }
    }
    assert forall|i: int| 0 <= i < cs.len() implies !chains::busy(z, #[trigger] cs[i]) by {
        if i == 0 {
            assert(model::fat_value(z, cs[0]) == model::fat_value(s, cs[0]));
        } else {
            assert(t[i - 1] == cs[i]);
        }
    }
    assert forall|d: u32| d < model::search_limit(st) && !cs.to_set().contains(d) implies
        #[trigger] model::fat_value(z, d) == model::fat_value(st, d) by {
        assert(d != cs[0]) by {
            assert(cs.contains(cs[0]));
        }
        if t.contains(d) {
            let j = choose|j: int| 0 <= j < t.len() && t[j] == d;
            assert(cs[j + 1] == d);
        }
        assert(!t.to_set().contains(d));
        assert(model::fat_value(z, d) == model::fat_value(s, d));
        assert(!set![cs[0]].contains(d));
    }
    assert forall|k: int|
        0 <= k < st.disk.len() && !(chains::fat_base(st) <= k < chains::fat_end(st) * 512) implies
        #[trigger] z.disk[k] == st.disk[k] by {
        assert(s.disk[k] == st.disk[k]);
    }
}

#[verifier::spinoff_prover]
#[verifier::rlimit(40)]
proof fn lemma_free_from(st: FatState, cs: Seq<u32>, n: int)
    requires
        chains::in_order(st),
        contents::holds(st, cs),
        0 <= n,
        n + cs.len() <= model::free_limit(st),
    ensures
        model::free_from(st, cs[0], n).1 == Ok::<int, Error>(n + cs.len()),
        freed(st, model::free_from(st, cs[0], n).0, cs),
    decreases cs.len(),
{
    assert(contents::used(st, cs[0]));
    assert(contents::follows(st, cs, 0));
    lemma_free_one(st, cs[0]);
    let s = model::set_fat(st, cs[0], 0).0;
    if cs.len() > 1 {
        let t = cs.skip(1);
        lemma_rest(st, cs);
        assert forall|i: int| 0 <= i < t.len() implies !set![cs[0]].contains(#[trigger] t[i]) by {
            assert(cs[0] != cs[i + 1]);
        }
        contents::lemma_holds_kept(s, st, t, set![cs[0]]);
        lemma_free_from(s, t, n + 1);
        let z = model::free_from(s, t[0], n + 1).0;
        lemma_freed_on(st, s, z, cs);
    } else {
        assert(cs.to_set() =~= set![cs[0]]) by {
            assert(cs.contains(cs[0]));
        }
    }
}

/// A chain that is freed gives back all of its clusters and nothing else, and tells how many
/// they are.
#[verifier::spinoff_prover]
#[verifier::rlimit(40)]
pub proof fn freed_is_free(st: FatState, cs: Seq<u32>)
    requires
        chains::in_order(st),
        contents::holds(st, cs),
        cs.len() <= model::free_limit(st),
    ensures
        model::free_chain(st, cs[0]).1 == Ok::<int, Error>(cs.len() as int),
        freed(st, model::free_chain(st, cs[0]).0, cs),
{
    reveal(model::free_chain);
    assert(contents::used(st, cs[0]));
    lemma_free_from(st, cs, 0);
    let s = model::free_from(st, cs[0], 0).0;
    let z = model::free_chain(st, cs[0]).0;
    assert(z.disk == s.disk);
    assert forall|d: u32| #[trigger] model::fat_value(z, d) == model::fat_value(s, d) by {}
    assert forall|d: u32| 2 <= d < model::search_limit(z) && !chains::busy(z, d) implies
        #[trigger] chains::proper(z, d) by {
        assert(!chains::busy(s, d));
        assert(chains::proper(s, d));
    }
}

} // verus!
