//! Flushing many pages at once: every page is where it belongs afterwards, and the rest of the
//! file is what it was.
use vstd::prelude::*;
use crate::block_device;
use crate::block_device::Pages;
use crate::bytes;
use crate::error::Error;
use super::contents;
use super::contents::{Role, Storage, LIMIT};
use super::extents;
use super::layout;
use super::layout::{EfsExtent, InodeView, INODE_DATA_AREA_SIZE};
use super::model;
use super::model::{Assigned, FsState};
use super::names;
use super::space;

verus! {

// ---- Blocks to spare --------------------------------------------------------------------------

/// Whether the blocks of a pool from `u` on play no role yet.
spec fn spare(st: FsState, ino: u64, s: Storage, pool: Seq<u64>, u: int) -> bool {
    forall|n: int, r: Role|
        #![trigger pool[n], contents::at(st, ino, s, r)]
        u <= n < pool.len() ==> contents::at(st, ino, s, r) != Some(pool[n] as int)
}

/// Whether a pool is made of different blocks in use.
spec fn in_hand(st: FsState, pool: Seq<u64>) -> bool {
    &&& pool.no_duplicates()
    &&& forall|n: int| 0 <= n < pool.len() ==> contents::kept(st, #[trigger] pool[n] as int)
}

/// A pool taken from the volume.
#[verifier::spinoff_prover]
#[verifier::rlimit(40)]
proof fn lemma_pool(
    st: FsState,
    ino: u64,
    s: Storage,
    need: int,
    goal: Option<u64>,
    acc: Seq<u64>,
)
    requires
        model::mounted(st),
        contents::separate(st, ino, s),
        in_hand(st, acc),
        spare(st, ino, s, acc, 0),
        model::alloc_pool(st, need, goal, acc).1 is Ok,
    ensures
        ({
            let (z, r) = model::alloc_pool(st, need, goal, acc);
            &&& model::mounted(z)
            &&& contents::same_shape(st, z)
            &&& contents::untouched(st, z)
            &&& contents::separate(z, ino, s)
            &&& in_hand(z, r->Ok_0)
            &&& spare(z, ino, s, r->Ok_0, 0)
        }),
    decreases need - acc.len(),
{
    if acc.len() >= need {
        assert(contents::same_shape(st, st));
    } else {
        let g = if acc.len() > 0 {
            Some(model::inc64(acc.last()))
        } else {
            goal
        };
        contents::lemma_apart(st, ino, s);
        space::allocated_were_free(st, need - acc.len(), g);
        let (st1, r1) = model::alloc_blocks(st, need - acc.len(), g);
        let bs = r1->Ok_0;
        let both = acc + bs;
        contents::lemma_same_roles(st, st1, ino, s);
        contents::lemma_separate_same(st, st1, ino, s);
        assert forall|n: int| 0 <= n < both.len() implies contents::kept(
            st1,
            #[trigger] both[n] as int,
        ) by {
            if n < acc.len() {
                assert(both[n] == acc[n]);
                assert(contents::kept(st, acc[n] as int));
            } else {
                assert(both[n] == bs[n - acc.len()]);
            }
        }
        assert(both.no_duplicates()) by {
            assert forall|x: int, y: int|
                0 <= x < both.len() && 0 <= y < both.len() && x != y implies both[x]
                != both[y] by {
                lemma_both_differ(st, acc, bs, x, y);
            }
        }
        assert forall|n: int, r: Role|
            #![trigger both[n], contents::at(st1, ino, s, r)]
            0 <= n < both.len() implies contents::at(st1, ino, s, r) != Some(both[n] as int) by {
            assert(contents::at(st, ino, s, r) == contents::at(st1, ino, s, r));
            if n < acc.len() {
                assert(both[n] == acc[n]);
            } else {
                assert(both[n] == bs[n - acc.len()]);
                assert(!contents::kept(st, bs[n - acc.len()] as int));
            }
        }
        lemma_pool(st1, ino, s, need, goal, both);
        contents::lemma_untouched(st, st1, model::alloc_pool(st1, need, goal, both).0);
    }
}

proof fn lemma_both_differ(st: FsState, acc: Seq<u64>, bs: Seq<u64>, x: int, y: int)
    requires
        in_hand(st, acc),
        bs.no_duplicates(),
        forall|i: int| 0 <= i < bs.len() ==> !contents::kept(st, (#[trigger] bs[i]) as int),
        0 <= x < acc.len() + bs.len(),
        0 <= y < acc.len() + bs.len(),
        x != y,
    ensures
        (acc + bs)[x] != (acc + bs)[y],
{
    let n = acc.len();
    if x < n && y < n {
        assert(acc[x] != acc[y]);
    } else if x >= n && y >= n {
        assert(bs[x - n] != bs[y - n]);
    } else if x < n {
        assert(contents::kept(st, acc[x] as int));
        assert(!contents::kept(st, bs[y - n] as int));
    } else {
        assert(contents::kept(st, acc[y] as int));
        assert(!contents::kept(st, bs[x - n] as int));
    }
}

/// Blocks of a pool that are given back were nobody's.
#[verifier::spinoff_prover]
#[verifier::rlimit(40)]
proof fn lemma_pool_back(st: FsState, ino: u64, s: Storage, pool: Seq<u64>, u: int)
    requires
        model::mounted(st),
        contents::separate(st, ino, s),
        0 <= u,
        spare(st, ino, s, pool, u),
        model::free_list(st, pool, u).1 is Ok,
    ensures
        ({
            let z = model::free_list(st, pool, u).0;
            &&& model::mounted(z)
            &&& contents::same_shape(st, z)
            &&& contents::untouched(st, z)
            &&& contents::separate(z, ino, s)
        }),
    decreases pool.len() - u,
{
    if u < pool.len() {
        let b = pool[u];
        contents::lemma_apart(st, ino, s);
        contents::lemma_free(st, b);
        let st1 = model::free_block(st, b).0;
        contents::lemma_same_roles(st, st1, ino, s);
        assert forall|r: Role| (#[trigger] contents::at(st1, ino, s, r)) matches Some(x) implies
            contents::kept(st1, contents::at(st1, ino, s, r)->Some_0) by {
            if contents::at(st1, ino, s, r) is Some {
                assert(contents::at(st, ino, s, r) == contents::at(st1, ino, s, r));
                assert(contents::kept(st, contents::at(st, ino, s, r)->Some_0));
                assert(contents::at(st, ino, s, r) != Some(pool[u] as int));
            }
        }
        assert forall|r: Role, q: Role|
            #![trigger contents::at(st1, ino, s, r), contents::at(st1, ino, s, q)]
            r != q && contents::at(st1, ino, s, r) is Some && contents::at(st1, ino, s, q) is Some
                implies contents::at(st1, ino, s, r) != contents::at(st1, ino, s, q) by {
            assert(contents::at(st, ino, s, r) == contents::at(st1, ino, s, r));
            assert(contents::at(st, ino, s, q) == contents::at(st1, ino, s, q));
        }
        assert forall|n: int, r: Role|
            #![trigger pool[n], contents::at(st1, ino, s, r)]
            u + 1 <= n < pool.len() implies contents::at(st1, ino, s, r) != Some(
            pool[n] as int,
        ) by {
            assert(contents::at(st, ino, s, r) == contents::at(st1, ino, s, r));
        }
        lemma_pool_back(st1, ino, s, pool, u + 1);
        contents::lemma_untouched(st, st1, model::free_list(st1, pool, u + 1).0);
    } else {
        assert(contents::same_shape(st, st));
    }
}

// ---- Mapping a batch --------------------------------------------------------------------------

/// What has been assigned stays assigned.
proof fn lemma_assign_prefix(lbs: Seq<u32>, pool: Seq<u64>, k: int, a: Assigned)
    ensures
        model::assign(lbs, pool, k, a) matches Some(res) ==> a.phys.len() <= res.phys.len()
            && forall|n: int| 0 <= n < a.phys.len() ==> #[trigger] res.phys[n] == a.phys[n],
    decreases lbs.len() - k,
{
    if k < lbs.len() {
        match extents::map_lookup(a.map, lbs[k]) {
            Some(p) => {
                let next = Assigned { phys: a.phys.push(p), ..a };
                lemma_assign_prefix(lbs, pool, k + 1, next);
                assert(forall|n: int| 0 <= n < a.phys.len() ==> next.phys[n] == a.phys[n]);
            },
            None => {
                if a.used < pool.len() {
                    let next = Assigned {
                        map: extents::map_insert(a.map, lbs[k], pool[a.used]),
                        used: a.used + 1,
                        phys: a.phys.push(pool[a.used]),
                    };
                    lemma_assign_prefix(lbs, pool, k + 1, next);
                    assert(forall|n: int| 0 <= n < a.phys.len() ==> next.phys[n] == a.phys[n]);
                }
            },
        }
    }
}

/// Whether an extent can name each of these blocks.
spec fn addressable(phys: Seq<u64>) -> bool {
    forall|n: int| 0 <= n < phys.len() ==> #[trigger] phys[n] < 0x1_0000_0000_0000
}

/// Whether the first `k` blocks of a batch are mapped as `a` says.
spec fn assigned_to(lbs: Seq<u32>, a: Assigned, k: int) -> bool {
    &&& a.phys.len() == k
    &&& forall|n: int|
        0 <= n < k ==> extents::map_lookup(a.map, #[trigger] lbs[n]) == Some(a.phys[n])
}

/// Whether a map says what another does, but for the blocks of a batch that this lacks.
spec fn extends(m: Seq<EfsExtent>, n: Seq<EfsExtent>, lbs: Seq<u32>) -> bool {
    forall|lb: u32|
        (extents::map_lookup(m, lb) is Some || !lbs.contains(lb)) ==> #[trigger] extents::map_lookup(
            n,
            lb,
        ) == extents::map_lookup(m, lb)
}

#[verifier::spinoff_prover]
#[verifier::rlimit(40)]
proof fn lemma_assign(
    st: FsState,
    ino: u64,
    leaves: Seq<u64>,
    lbs: Seq<u32>,
    pool: Seq<u64>,
    k: int,
    a: Assigned,
)
    requires
        model::mounted(st),
        contents::separate(st, ino, Storage { map: a.map, leaves }),
        extents::valid_map(a.map),
        in_hand(st, pool),
        spare(st, ino, Storage { map: a.map, leaves }, pool, a.used),
        0 <= a.used <= pool.len(),
        0 <= k <= lbs.len(),
        assigned_to(lbs, a, k),
        model::assign(lbs, pool, k, a) is Some,
        addressable(model::assign(lbs, pool, k, a)->Some_0.phys),
    ensures
        ({
            let res = model::assign(lbs, pool, k, a)->Some_0;
            let t = Storage { map: res.map, leaves };
            &&& contents::separate(st, ino, t)
            &&& extents::valid_map(res.map)
            &&& spare(st, ino, t, pool, res.used)
            &&& 0 <= res.used
            &&& assigned_to(lbs, res, lbs.len() as int)
            &&& extends(a.map, res.map, lbs)
        }),
    decreases lbs.len() - k,
{
    if k < lbs.len() {
        let s = Storage { map: a.map, leaves };
        match extents::map_lookup(a.map, lbs[k]) {
            Some(p) => {
                let next = Assigned { phys: a.phys.push(p), ..a };
                assert(assigned_to(lbs, next, k + 1)) by {
                    assert forall|n: int| 0 <= n < k + 1 implies extents::map_lookup(
                        next.map,
                        #[trigger] lbs[n],
                    ) == Some(next.phys[n]) by {}
                }
                lemma_assign(st, ino, leaves, lbs, pool, k + 1, next);
            },
            None => {
                let p = pool[a.used];
                let next = Assigned {
                    map: extents::map_insert(a.map, lbs[k], p),
                    used: a.used + 1,
                    phys: a.phys.push(p),
                };
                lemma_assign_prefix(lbs, pool, k + 1, next);
                let res = model::assign(lbs, pool, k, a)->Some_0;
                assert(res.phys[k] == next.phys[k]);
                assert(p < 0x1_0000_0000_0000);
                assert forall|r: Role| #[trigger] contents::at(st, ino, s, r) != Some(p as int) by {
                    assert(pool[a.used] == p);
                }
                assert(contents::kept(st, pool[a.used] as int));
                contents::lemma_add_data(st, ino, s, lbs[k], p);
                extents::insert_then_lookup(a.map, lbs[k], p, lbs[k]);
                let t = Storage { map: next.map, leaves };
                lemma_still_spare(st, ino, s, t, lbs[k], p, pool, a.used);
                assert forall|lb: u32| lb != lbs[k] implies #[trigger] extents::map_lookup(
                    next.map,
                    lb,
                ) == extents::map_lookup(a.map, lb) by {
                    extents::insert_then_lookup(a.map, lbs[k], p, lb);
                }
                assert(assigned_to(lbs, next, k + 1)) by {
                    assert forall|n: int| 0 <= n < k + 1 implies extents::map_lookup(
                        next.map,
                        #[trigger] lbs[n],
                    ) == Some(next.phys[n]) by {
                        if n < k {
                            assert(extents::map_lookup(a.map, lbs[n]) == Some(a.phys[n]));
                            assert(lbs[n] != lbs[k]);
                        }
                    }
                }
                lemma_assign(st, ino, leaves, lbs, pool, k + 1, next);
                assert(lbs.contains(lbs[k]));
                assert(extends(a.map, res.map, lbs)) by {
                    assert forall|lb: u32|
                        (extents::map_lookup(a.map, lb) is Some || !lbs.contains(lb)) implies
                        #[trigger] extents::map_lookup(res.map, lb) == extents::map_lookup(
                        a.map,
                        lb,
                    ) by {
                        assert(lb != lbs[k]);
                        assert(extents::map_lookup(next.map, lb) == extents::map_lookup(
                            a.map,
                            lb,
                        ));
                    }
                }
            },
        }
    }
}

/// Mapping one block of a pool leaves the rest of it to spare.
proof fn lemma_still_spare(
    st: FsState,
    ino: u64,
    s: Storage,
    t: Storage,
    lb: u32,
    p: u64,
    pool: Seq<u64>,
    u: int,
)
    requires
        extents::valid_map(s.map),
        extents::map_lookup(s.map, lb) is None,
        p < 0x1_0000_0000_0000,
        t == (Storage { map: extents::map_insert(s.map, lb, p), leaves: s.leaves }),
        0 <= u < pool.len(),
        pool[u] == p,
        pool.no_duplicates(),
        spare(st, ino, s, pool, u),
    ensures
        spare(st, ino, t, pool, u + 1),
{
    assert forall|n: int, r: Role|
        #![trigger pool[n], contents::at(st, ino, t, r)]
        u + 1 <= n < pool.len() implies contents::at(st, ino, t, r) != Some(pool[n] as int) by {
        assert(contents::at(st, ino, s, r) != Some(pool[n] as int));
        assert(pool[n] != pool[u]);
        match r {
            Role::Data(o) => {
                extents::insert_then_lookup(s.map, lb, p, o);
            },
            _ => {},
        }
    }
}

/// What mapping a batch leads to: the file in order with the batch mapped, and the blocks it
/// had before as they were.
spec fn batch_mapped(
    a: FsState,
    z: FsState,
    ino: u64,
    i: InodeView,
    s: Storage,
    j: InodeView,
    t: Storage,
    lbs: Seq<u32>,
    phys: Seq<u64>,
    size: Option<u64>,
) -> bool {
    &&& contents::in_order(z, ino, j, t)
    &&& contents::same_shape(a, z)
    &&& !j.inline()
    &&& j.mode == i.mode
    &&& j.size == (match size {
        Some(n) => if n > i.size {
            n
        } else {
            i.size
        },
        None => i.size,
    })
    &&& phys.len() == lbs.len()
    &&& forall|n: int|
        0 <= n < lbs.len() ==> extents::map_lookup(t.map, #[trigger] lbs[n]) == Some(phys[n])
    &&& extends(s.map, t.map, lbs)
    &&& forall|o: u32|
        (#[trigger] extents::map_lookup(s.map, o)) is Some && model::has_block(
            a,
            extents::map_lookup(s.map, o)->Some_0 as int,
        ) ==> contents::block(z, extents::map_lookup(s.map, o)->Some_0 as int)
            == contents::block(a, extents::map_lookup(s.map, o)->Some_0 as int)
}

/// Storing the map of a batch and the inode.
#[verifier::spinoff_prover]
#[verifier::rlimit(40)]
proof fn lemma_batch_stored(
    st: FsState,
    ino: u64,
    i: InodeView,
    s: Storage,
    st2: FsState,
    m: Seq<EfsExtent>,
    lbs: Seq<u32>,
    phys: Seq<u64>,
    size: Option<u64>,
    j: InodeView,
)
    requires
        contents::in_order(st, ino, i, s),
        !i.inline(),
        model::mounted(st2),
        contents::same_shape(st, st2),
        contents::untouched(st, st2),
        contents::separate(st2, ino, Storage { map: m, leaves: s.leaves }),
        extents::valid_map(m),
        phys.len() == lbs.len(),
        forall|n: int|
            0 <= n < lbs.len() ==> extents::map_lookup(m, #[trigger] lbs[n]) == Some(phys[n]),
        extends(s.map, m, lbs),
        model::store_map(st2, i, m).1 is Ok,
        j.data_area == model::store_map(st2, i, m).1->Ok_0.data_area,
        j.flags == i.flags,
        j.mode == i.mode,
        j.size == (match size {
            Some(n) => if n > i.size {
                n
            } else {
                i.size
            },
            None => i.size,
        }),
        model::write_inode(model::store_map(st2, i, m).0, ino, j).1 is Ok,
    ensures
        batch_mapped(
            st,
            model::write_inode(model::store_map(st2, i, m).0, ino, j).0,
            ino,
            i,
            s,
            j,
            Storage { map: m, leaves: model::tree_blocks(j) },
            lbs,
            phys,
            size,
        ),
{
    contents::lemma_store(st2, ino, i, m);
    let (st3, rj) = model::store_map(st2, i, m);
    let t = Storage { map: m, leaves: model::tree_blocks(j) };
    contents::lemma_area_decides(st3, rj->Ok_0, j);
    contents::lemma_put_inode(st3, ino, t, j);
    let z = model::write_inode(st3, ino, j).0;
    assert forall|b: u64| #[trigger]
        model::tree_blocks(j).contains(b) && model::has_block(st3, b as int) implies
        contents::block(z, b as int) == contents::block(st3, b as int) by {
        assert(contents::at(st3, ino, t, Role::Leaf(b)) == Some(b as int));
        assert(contents::at(st3, ino, t, Role::Home) == model::inode_block(st3, ino));
    }
    contents::lemma_load_same(st3, z, j);
    names::lemma_shapes(st, st2, st3);
    names::lemma_shapes(st, st3, z);
    assert forall|o: u32|
        (#[trigger] extents::map_lookup(s.map, o)) is Some && model::has_block(
            st,
            extents::map_lookup(s.map, o)->Some_0 as int,
        ) implies contents::block(z, extents::map_lookup(s.map, o)->Some_0 as int)
        == contents::block(st, extents::map_lookup(s.map, o)->Some_0 as int) by {
        let q = extents::map_lookup(s.map, o)->Some_0;
        assert(extents::map_lookup(m, o) == Some(q));
        contents::lemma_data_alone(st3, ino, t, o);
        contents::lemma_data_alone(st, ino, s, o);
        contents::lemma_same_bitmap(st, st2, q as int);
        assert(contents::block(st2, q as int) == contents::block(st, q as int));
        assert(contents::block(st3, q as int) == contents::block(st2, q as int));
        assert(contents::block(z, q as int) == contents::block(st3, q as int));
    }
}

/// A batch mapped.
#[verifier::spinoff_prover]
#[verifier::rlimit(40)]
proof fn lemma_map_batch(
    st: FsState,
    ino: u64,
    i: InodeView,
    s: Storage,
    lbs: Seq<u32>,
    size: Option<u64>,
    now: u64,
) -> (r: (InodeView, Storage))
    requires
        contents::in_order(st, ino, i, s),
        !i.inline(),
        model::map_batch(st, ino, i, lbs, size, now).1 is Ok,
        addressable(model::map_batch(st, ino, i, lbs, size, now).1->Ok_0),
    ensures
        batch_mapped(
            st,
            model::map_batch(st, ino, i, lbs, size, now).0,
            ino,
            i,
            s,
            r.0,
            r.1,
            lbs,
            model::map_batch(st, ino, i, lbs, size, now).1->Ok_0,
            size,
        ),
{
    let none = Seq::<u64>::empty();
    let need = model::unmapped(s.map, lbs, lbs.len() as int);
    let goal = model::batch_goal(s.map, lbs, 0);
    lemma_pool(st, ino, s, need, goal, none);
    let (st1, rp) = model::alloc_pool(st, need, goal, none);
    let pool = rp->Ok_0;
    let a0 = Assigned { map: s.map, used: 0, phys: none };
    assert(Storage { map: s.map, leaves: s.leaves } == s);
    lemma_assign(st1, ino, s.leaves, lbs, pool, 0, a0);
    let a = model::assign(lbs, pool, 0, a0)->Some_0;
    let t0 = Storage { map: a.map, leaves: s.leaves };
    lemma_pool_back(st1, ino, t0, pool, a.used);
    let st2 = model::free_list(st1, pool, a.used).0;
    contents::lemma_untouched(st, st1, st2);
    let (st3, rj) = model::store_map(st2, i, a.map);
    let j0 = rj->Ok_0;
    contents::lemma_store(st2, ino, i, a.map);
    let j = layout::stamped(
        InodeView {
            size: match size {
                Some(n) => if n > j0.size {
                    n
                } else {
                    j0.size
                },
                None => j0.size,
            },
            mtime_sec: now,
            ..j0
        },
    );
    lemma_batch_stored(st, ino, i, s, st2, a.map, lbs, a.phys, size, j);
    (j, Storage { map: a.map, leaves: model::tree_blocks(j) })
}

// ---- Writing the pages ------------------------------------------------------------------------

/// A contiguous run is one.
pub proof fn lemma_contiguous(phys: Seq<u64>, k: int, cap: int)
    requires
        0 <= k < phys.len(),
    ensures
        ({
            let n = model::contiguous(phys, k, cap);
            &&& 1 <= n
            &&& k + n <= phys.len()
            &&& forall|d: int| 0 <= d < n ==> #[trigger] phys[k + d] == phys[k] + d
        }),
    decreases cap,
{
    if !(cap <= 1 || k + 1 >= phys.len() || phys[k + 1] != phys[k] + 1) {
        lemma_contiguous(phys, k + 1, cap - 1);
        let n = model::contiguous(phys, k, cap);
        assert forall|d: int| 0 <= d < n implies #[trigger] phys[k + d] == phys[k] + d by {
            if d > 0 {
                assert(phys[k + 1 + (d - 1)] == phys[k + 1] + (d - 1));
            }
        }
    }
}

/// Whether block `x` is none of the blocks from `k` on.
spec fn none_of(phys: Seq<u64>, k: int, x: int) -> bool {
    forall|n: int| k <= n < phys.len() ==> #[trigger] phys[n] != x
}

/// What writing pages to blocks does: every block holds its page, and no other block changes.
spec fn pages_written(a: FsState, z: FsState, phys: Seq<u64>, data: Pages, k: int) -> bool {
    &&& z == (FsState { pages: z.pages, ..a })
    &&& z.pages.len() == a.pages.len()
    &&& block_device::full_pages(z.pages)
    &&& forall|n: int|
        k <= n < phys.len() ==> model::has_block(a, #[trigger] phys[n] as int) && contents::block(
            z,
            phys[n] as int,
        ) == data[n]
    &&& forall|x: int|
        model::has_block(a, x) && none_of(phys, k, x) ==> #[trigger] contents::block(z, x)
            == contents::block(a, x)
}

#[verifier::spinoff_prover]
#[verifier::rlimit(40)]
proof fn lemma_runs(st: FsState, phys: Seq<u64>, data: Pages, k: int)
    requires
        block_device::full_pages(st.pages),
        0 <= st.base,
        0 <= k <= phys.len(),
        data.len() == phys.len(),
        block_device::full_pages(data),
        phys.no_duplicates(),
        model::write_runs(st, phys, data, k).1 is Ok,
    ensures
        pages_written(st, model::write_runs(st, phys, data, k).0, phys, data, k),
    decreases phys.len() - k,
{
    if k < phys.len() {
        let n = model::contiguous(phys, k, model::MAX_RUN_BLOCKS as int);
        lemma_contiguous(phys, k, model::MAX_RUN_BLOCKS as int);
        let st1 = FsState {
            pages: model::overlay(st.pages, st.base + phys[k], data.subrange(k, k + n)),
            ..st
        };
        assert forall|x: int| 0 <= x < st1.pages.len() implies (#[trigger] st1.pages[x]).len()
            == block_device::PAGE_SIZE by {
            let at = st.base + phys[k];
            if at <= x < at + n {
                assert(st1.pages[x] == data[k + (x - at)]);
            } else {
                assert(st1.pages[x] == st.pages[x]);
            }
        }
        lemma_runs(st1, phys, data, k + n);
        let z = model::write_runs(st1, phys, data, k + n).0;
        assert forall|m: int| k <= m < phys.len() implies model::has_block(
            st,
            #[trigger] phys[m] as int,
        ) && contents::block(z, phys[m] as int) == data[m] by {
            if m < k + n {
                let d = m - k;
                assert(phys[k + d] == phys[k] + d);
                assert(none_of(phys, k + n, phys[m] as int)) by {
                    assert forall|q: int| k + n <= q < phys.len() implies #[trigger] phys[q]
                        != phys[m] by {}
                }
                assert(contents::block(st1, phys[m] as int) == data.subrange(k, k + n)[d]);
                assert(contents::block(z, phys[m] as int) == contents::block(
                    st1,
                    phys[m] as int,
                ));
            }
        }
        assert forall|x: int| model::has_block(st, x) && none_of(phys, k, x) implies
            #[trigger] contents::block(z, x) == contents::block(st, x) by {
            assert(none_of(phys, k + n, x));
            assert(!(phys[k] <= x < phys[k] + n)) by {
                if phys[k] <= x < phys[k] + n {
                    let d = x - phys[k];
                    assert(phys[k + d] == phys[k] + d);
                }
            }
            assert(contents::block(st1, x) == contents::block(st, x));
        }
    }
}

/// Writing blocks of a file's data leaves the file in order.
#[verifier::spinoff_prover]
#[verifier::rlimit(40)]
proof fn lemma_data_written(
    a: FsState,
    z: FsState,
    ino: u64,
    i: InodeView,
    s: Storage,
    lbs: Seq<u32>,
    phys: Seq<u64>,
    data: Pages,
)
    requires
        contents::in_order(a, ino, i, s),
        !i.inline(),
        phys.len() == lbs.len(),
        forall|n: int|
            0 <= n < lbs.len() ==> extents::map_lookup(s.map, #[trigger] lbs[n]) == Some(phys[n]),
        pages_written(a, z, phys, data, 0),
    ensures
        contents::in_order(z, ino, i, s),
        contents::same_shape(a, z),
{
    assert(contents::same_shape(a, z));
    contents::lemma_same_roles(a, z, ino, s);
    assert forall|r: Role|
        !(r is Data) && (#[trigger] contents::at(a, ino, s, r)) is Some && model::has_block(
            a,
            contents::at(a, ino, s, r)->Some_0,
        ) implies contents::block(z, contents::at(a, ino, s, r)->Some_0) == contents::block(
        a,
        contents::at(a, ino, s, r)->Some_0,
    ) by {
        let x = contents::at(a, ino, s, r)->Some_0;
        assert(none_of(phys, 0, x)) by {
            assert forall|n: int| 0 <= n < phys.len() implies #[trigger] phys[n] != x by {
                assert(extents::map_lookup(s.map, lbs[n]) == Some(phys[n]));
                assert(contents::at(a, ino, s, Role::Data(lbs[n])) == Some(phys[n] as int));
            }
        }
    }
    assert forall|g: int|
        0 <= g < a.bgds.len() && model::has_block(
            a,
            contents::bitmap_of(a, g),
        ) implies contents::block(z, #[trigger] contents::bitmap_of(a, g)) == contents::block(
        a,
        contents::bitmap_of(a, g),
    ) by {
        assert(contents::at(a, ino, s, Role::Bitmap(g)) == Some(contents::bitmap_of(a, g)));
    }
    contents::lemma_kept_same(a, z);
    contents::lemma_separate_same(a, z, ino, s);
    assert forall|b: u64| #[trigger]
        model::tree_blocks(i).contains(b) && model::has_block(a, b as int) implies contents::block(
        z,
        b as int,
    ) == contents::block(a, b as int) by {
        assert(contents::at(a, ino, s, Role::Leaf(b)) == Some(b as int));
    }
    contents::lemma_load_same(a, z, i);
    assert(contents::at(a, ino, s, Role::Home) == model::inode_block(a, ino));
    assert(model::read_inode(z, ino) == model::read_inode(a, ino)) by {
        reveal(model::read_inode);
    }
}

// ---- The device keeps its size ----------------------------------------------------------------

proof fn lemma_size_pool(st: FsState, need: int, goal: Option<u64>, acc: Seq<u64>)
    requires
        st.base >= 0,
    ensures
        contents::same_size(st, model::alloc_pool(st, need, goal, acc).0),
    decreases need - acc.len(),
{
    if acc.len() < need {
        let g = if acc.len() > 0 {
            Some(model::inc64(acc.last()))
        } else {
            goal
        };
        contents::lemma_size_alloc(st, need - acc.len(), g);
        let (st1, r) = model::alloc_blocks(st, need - acc.len(), g);
        if r is Ok && !(r->Ok_0.len() == 0 || acc.len() + r->Ok_0.len() > need) {
            lemma_size_pool(st1, need, goal, acc + r->Ok_0);
        }
    }
}

proof fn lemma_size_batch(
    st: FsState,
    ino: u64,
    i: InodeView,
    lbs: Seq<u32>,
    size: Option<u64>,
    now: u64,
)
    requires
        st.base >= 0,
        model::map_batch(st, ino, i, lbs, size, now).1 is Ok,
    ensures
        contents::same_size(st, model::map_batch(st, ino, i, lbs, size, now).0),
{
    let m = model::load_map(st, i)->Ok_0;
    let need = model::unmapped(m, lbs, lbs.len() as int);
    let goal = model::batch_goal(m, lbs, 0);
    lemma_size_pool(st, need, goal, Seq::empty());
    let (st1, rp) = model::alloc_pool(st, need, goal, Seq::empty());
    let a = model::assign(
        lbs,
        rp->Ok_0,
        0,
        Assigned { map: m, used: 0, phys: Seq::empty() },
    )->Some_0;
    contents::lemma_size_free(st1, rp->Ok_0, a.used);
    let st2 = model::free_list(st1, rp->Ok_0, a.used).0;
    contents::lemma_size_store(st2, i, a.map);
    let (st3, rj) = model::store_map(st2, i, a.map);
    let j0 = rj->Ok_0;
    contents::lemma_size_inode(
        st3,
        ino,
        layout::stamped(
            InodeView {
                size: match size {
                    Some(n) => if n > j0.size {
                        n
                    } else {
                        j0.size
                    },
                    None => j0.size,
                },
                mtime_sec: now,
                ..j0
            },
        ),
    );
}

/// Blocks that pages could be written to are on the device.
proof fn lemma_runs_fit(st: FsState, phys: Seq<u64>, data: Pages, k: int)
    requires
        0 <= k <= phys.len(),
        model::write_runs(st, phys, data, k).1 is Ok,
    ensures
        forall|n: int| k <= n < phys.len() ==> st.base + #[trigger] phys[n] < st.pages.len(),
    decreases phys.len() - k,
{
    if k < phys.len() {
        let n = model::contiguous(phys, k, model::MAX_RUN_BLOCKS as int);
        lemma_contiguous(phys, k, model::MAX_RUN_BLOCKS as int);
        let st1 = FsState {
            pages: model::overlay(st.pages, st.base + phys[k], data.subrange(k, k + n)),
            ..st
        };
        lemma_runs_fit(st1, phys, data, k + n);
        assert forall|m: int| k <= m < phys.len() implies st.base + #[trigger] phys[m]
            < st.pages.len() by {
            if m < k + n {
                assert(phys[k + (m - k)] == phys[k] + (m - k));
            }
        }
    }
}

// ---- Chunks -----------------------------------------------------------------------------------

/// Whether pages can be flushed together: each has its own number, logical blocks can have
/// those numbers, and every page is whole.
pub open spec fn batch(index: Seq<u64>, data: Pages) -> bool {
    &&& index.no_duplicates()
    &&& forall|n: int| 0 <= n < index.len() ==> #[trigger] index[n] <= u32::MAX
    &&& data.len() == index.len()
    &&& block_device::full_pages(data)
}

/// Whether page `index` of a file is `data`.
pub open spec fn page_held(z: FsState, t: Storage, index: u64, data: Seq<u8>) -> bool {
    extents::map_lookup(t.map, index as u32) matches Some(p) && model::has_block(z, p as int)
        && contents::block(z, p as int) == data
}

/// What flushing pages does to a file: every page is where it belongs, and what the file
/// holds in other pages is what it was.
pub open spec fn pages_flushed(
    a: FsState,
    i: InodeView,
    s: Storage,
    z: FsState,
    j: InodeView,
    t: Storage,
    index: Seq<u64>,
    data: Pages,
) -> bool {
    &&& j.mode == i.mode
    &&& forall|n: int| 0 <= n < index.len() ==> page_held(z, t, #[trigger] index[n], data[n])
    &&& forall|pos: int|
        0 <= pos < i.size && pos < LIMIT && !index.contains((pos / 4096) as u64)
            ==> #[trigger] contents::holds_same(a, i, s, z, j, t, pos)
}

/// The size of a file that is to have at least `size` bytes.
pub open spec fn raised(old: u64, size: Option<u64>) -> u64 {
    match size {
        Some(n) => if n > old {
            n
        } else {
            old
        },
        None => old,
    }
}

/// Whether logical block `lb` is mapped as it was, and holds what it held.
spec fn same_block(a: FsState, s: Storage, z: FsState, t: Storage, lb: u32) -> bool {
    &&& extents::map_lookup(t.map, lb) == extents::map_lookup(s.map, lb)
    &&& extents::map_lookup(s.map, lb) matches Some(p) ==> model::has_block(a, p as int)
        ==> contents::block(z, p as int) == contents::block(a, p as int)
}

/// Whether the blocks of a file outside a batch are what they were.
spec fn rest_same(a: FsState, s: Storage, z: FsState, t: Storage, index: Seq<u64>) -> bool {
    &&& contents::same_device(a, z)
    &&& forall|lb: u32| !index.contains(lb as u64) ==> #[trigger] same_block(a, s, z, t, lb)
}

/// What the rest of the file is once a batch has been mapped and written.
#[verifier::spinoff_prover]
#[verifier::rlimit(40)]
proof fn lemma_rest_same(
    st: FsState,
    ino: u64,
    i: InodeView,
    s: Storage,
    st1: FsState,
    z: FsState,
    j: InodeView,
    t: Storage,
    index: Seq<u64>,
    phys: Seq<u64>,
    data: Pages,
    size: Option<u64>,
)
    requires
        contents::in_order(st, ino, i, s),
        !i.inline(),
        batch(index, data),
        batch_mapped(st, st1, ino, i, s, j, t, model::page_blocks(index), phys, size),
        pages_written(st1, z, phys, data, 0),
    ensures
        rest_same(st, s, z, t, index),
{
    let lbs = model::page_blocks(index);
    assert forall|lb: u32| !index.contains(lb as u64) implies #[trigger] same_block(
        st,
        s,
        z,
        t,
        lb,
    ) by {
        assert(!lbs.contains(lb)) by {
            if lbs.contains(lb) {
                let n = choose|n: int| 0 <= n < lbs.len() && lbs[n] == lb;
                assert(index[n] <= u32::MAX);
                assert(index[n] == lb as u64);
            }
        }
        assert(extents::map_lookup(t.map, lb) == extents::map_lookup(s.map, lb));
        if extents::map_lookup(s.map, lb) is Some {
            let q = extents::map_lookup(s.map, lb)->Some_0;
            if model::has_block(st, q as int) {
                contents::lemma_data_alone(st1, ino, t, lb);
                assert(none_of(phys, 0, q as int)) by {
                    assert forall|n: int| 0 <= n < phys.len() implies #[trigger] phys[n] != q by {
                        assert(extents::map_lookup(t.map, lbs[n]) == Some(phys[n]));
                        assert(lbs.contains(lbs[n]));
                        assert(lbs[n] != lb);
                    }
                }
                assert(contents::block(st1, q as int) == contents::block(st, q as int));
                assert(contents::block(z, q as int) == contents::block(st1, q as int));
            }
        }
    }
}

/// A byte of a block that is what it was is what it was.
proof fn lemma_same_byte(
    a: FsState,
    i: InodeView,
    s: Storage,
    m: FsState,
    j1: InodeView,
    t1: Storage,
    z: FsState,
    j: InodeView,
    t: Storage,
    pos: int,
)
    requires
        0 <= pos < LIMIT,
        !j1.inline(),
        !j.inline(),
        contents::same_device(m, z),
        contents::holds_same(a, i, s, m, j1, t1, pos),
        same_block(m, t1, z, t, (pos / 4096) as u32),
    ensures
        contents::holds_same(a, i, s, z, j, t, pos),
{
    contents::lemma_logical(pos);
}

/// The blocks of a batch are different ones.
#[verifier::spinoff_prover]
#[verifier::rlimit(40)]
proof fn lemma_phys_differ(
    st: FsState,
    ino: u64,
    t: Storage,
    index: Seq<u64>,
    data: Pages,
    phys: Seq<u64>,
)
    requires
        contents::separate(st, ino, t),
        batch(index, data),
        phys.len() == index.len(),
        forall|n: int|
            0 <= n < index.len() ==> extents::map_lookup(
                t.map,
                #[trigger] model::page_blocks(index)[n],
            ) == Some(phys[n]),
    ensures
        phys.no_duplicates(),
{
    let lbs = model::page_blocks(index);
    assert forall|x: int, y: int|
        0 <= x < phys.len() && 0 <= y < phys.len() && x != y implies phys[x] != phys[y] by {
        assert(extents::map_lookup(t.map, lbs[x]) == Some(phys[x]));
        assert(extents::map_lookup(t.map, lbs[y]) == Some(phys[y]));
        assert(index[x] <= u32::MAX && index[y] <= u32::MAX);
        assert(index[x] != index[y]);
        assert(lbs[x] != lbs[y]);
        contents::lemma_data_alone(st, ino, t, lbs[x]);
    }
}

/// What writing the pages of a batch that has been mapped leads to.
#[verifier::spinoff_prover]
#[verifier::rlimit(40)]
proof fn lemma_batch_written(
    st: FsState,
    ino: u64,
    i: InodeView,
    s: Storage,
    st1: FsState,
    j: InodeView,
    t: Storage,
    index: Seq<u64>,
    phys: Seq<u64>,
    data: Pages,
    size: Option<u64>,
)
    requires
        contents::in_order(st, ino, i, s),
        !i.inline(),
        batch(index, data),
        batch_mapped(st, st1, ino, i, s, j, t, model::page_blocks(index), phys, size),
        model::write_runs(st1, phys, data, 0).1 is Ok,
    ensures
        ({
            let z = model::write_runs(st1, phys, data, 0).0;
            &&& contents::in_order(z, ino, j, t)
            &&& pages_flushed(st, i, s, z, j, t, index, data)
            &&& rest_same(st, s, z, t, index)
        }),
{
    let lbs = model::page_blocks(index);
    lemma_phys_differ(st1, ino, t, index, data, phys);
    lemma_runs(st1, phys, data, 0);
    let z = model::write_runs(st1, phys, data, 0).0;
    lemma_data_written(st1, z, ino, j, t, lbs, phys, data);
    lemma_rest_same(st, ino, i, s, st1, z, j, t, index, phys, data, size);
    assert forall|n: int| 0 <= n < index.len() implies page_held(
        z,
        t,
        #[trigger] index[n],
        data[n],
    ) by {
        assert(extents::map_lookup(t.map, lbs[n]) == Some(phys[n]));
        assert(lbs[n] == index[n] as u32);
        assert(model::has_block(st1, phys[n] as int));
    }
    assert forall|pos: int|
        0 <= pos < i.size && pos < LIMIT && !index.contains((pos / 4096) as u64) implies
        #[trigger] contents::holds_same(st, i, s, z, j, t, pos) by {
        assert(((pos / 4096) as u32) as u64 == (pos / 4096) as u64);
        assert(same_block(st, s, z, t, (pos / 4096) as u32));
        lemma_same_byte(st, i, s, st, i, s, z, j, t, pos);
    }
}

/// The blocks of a batch that could be written can be named.
proof fn lemma_addressable(
    st: FsState,
    ino: u64,
    i: InodeView,
    lbs: Seq<u32>,
    data: Pages,
    size: Option<u64>,
    now: u64,
)
    requires
        st.base >= 0,
        st.pages.len() <= 0x1_0000_0000_0000,
        model::map_batch(st, ino, i, lbs, size, now).1 is Ok,
        model::write_runs(
            model::map_batch(st, ino, i, lbs, size, now).0,
            model::map_batch(st, ino, i, lbs, size, now).1->Ok_0,
            data,
            0,
        ).1 is Ok,
    ensures
        addressable(model::map_batch(st, ino, i, lbs, size, now).1->Ok_0),
{
    let (st1, rp) = model::map_batch(st, ino, i, lbs, size, now);
    let phys = rp->Ok_0;
    lemma_size_batch(st, ino, i, lbs, size, now);
    lemma_runs_fit(st1, phys, data, 0);
    assert forall|n: int| 0 <= n < phys.len() implies #[trigger] phys[n]
        < 0x1_0000_0000_0000 by {
        assert(st1.base + phys[n] < st1.pages.len());
    }
}

/// One transaction of pages of a file whose data is in blocks.
#[verifier::spinoff_prover]
#[verifier::rlimit(40)]
proof fn lemma_chunk_blocks(
    st: FsState,
    ino: u64,
    i: InodeView,
    s: Storage,
    index: Seq<u64>,
    data: Pages,
    size: Option<u64>,
    now: u64,
) -> (r: (InodeView, Storage))
    requires
        contents::in_order(st, ino, i, s),
        !i.inline(),
        batch(index, data),
        model::map_batch(st, ino, i, model::page_blocks(index), size, now).1 is Ok,
        model::write_runs(
            model::map_batch(st, ino, i, model::page_blocks(index), size, now).0,
            model::map_batch(st, ino, i, model::page_blocks(index), size, now).1->Ok_0,
            data,
            0,
        ).1 is Ok,
    ensures
        ({
            let z = model::write_runs(
                model::map_batch(st, ino, i, model::page_blocks(index), size, now).0,
                model::map_batch(st, ino, i, model::page_blocks(index), size, now).1->Ok_0,
                data,
                0,
            ).0;
            &&& contents::in_order(z, ino, r.0, r.1)
            &&& !r.0.inline()
            &&& r.0.size == raised(i.size, size)
            &&& pages_flushed(st, i, s, z, r.0, r.1, index, data)
            &&& rest_same(st, s, z, r.1, index)
        }),
{
    let lbs = model::page_blocks(index);
    lemma_addressable(st, ino, i, lbs, data, size, now);
    let (j, t) = lemma_map_batch(st, ino, i, s, lbs, size, now);
    let st1 = model::map_batch(st, ino, i, lbs, size, now).0;
    let phys = model::map_batch(st, ino, i, lbs, size, now).1->Ok_0;
    lemma_batch_written(st, ino, i, s, st1, j, t, index, phys, data, size);
    (j, t)
}

/// One transaction of pages.
#[verifier::spinoff_prover]
#[verifier::rlimit(40)]
proof fn lemma_chunk(
    st: FsState,
    ino: u64,
    i: InodeView,
    s: Storage,
    index: Seq<u64>,
    data: Pages,
    size: Option<u64>,
    now: u64,
) -> (r: (InodeView, Storage))
    requires
        contents::in_order(st, ino, i, s),
        i.inline() ==> i.size <= INODE_DATA_AREA_SIZE,
        index.len() > 0,
        batch(index, data),
        model::flush_chunk(st, ino, index, data, size, now).1 is Ok,
    ensures
        ({
            let z = model::flush_chunk(st, ino, index, data, size, now).0;
            &&& contents::in_order(z, ino, r.0, r.1)
            &&& !r.0.inline()
            &&& r.0.size == raised(i.size, size)
            &&& pages_flushed(st, i, s, z, r.0, r.1, index, data)
            &&& !i.inline() ==> rest_same(st, s, z, r.1, index)
        }),
{
    reveal(model::ensure_batch);
    if i.inline() {
        let st0 = model::convert_inline(st, ino, i).0;
        let (i0, s0) = contents::lemma_convert(st, ino, i, s);
        let (j, t) = lemma_chunk_blocks(st0, ino, i0, s0, index, data, size, now);
        let z = model::flush_chunk(st, ino, index, data, size, now).0;
        assert forall|pos: int|
            0 <= pos < i.size && pos < LIMIT && !index.contains((pos / 4096) as u64) implies
            #[trigger] contents::holds_same(st, i, s, z, j, t, pos) by {
            assert(contents::moved_byte(st0, s0.map, i, pos));
            assert(contents::holds_same(st0, i0, s0, z, j, t, pos));
        }
        (j, t)
    } else {
        lemma_chunk_blocks(st, ino, i, s, index, data, size, now)
    }
}

/// Pages flushed in two parts.
#[verifier::spinoff_prover]
#[verifier::rlimit(40)]
proof fn lemma_parts(
    st: FsState,
    i: InodeView,
    s: Storage,
    m: FsState,
    j1: InodeView,
    t1: Storage,
    z: FsState,
    j: InodeView,
    t: Storage,
    index: Seq<u64>,
    data: Pages,
    k: int,
    end: int,
)
    requires
        batch(index, data),
        0 <= k <= end <= index.len(),
        !j1.inline(),
        !j.inline(),
        j.mode == j1.mode,
        pages_flushed(st, i, s, m, j1, t1, index.subrange(k, end), data.subrange(k, end)),
        pages_flushed(m, j1, t1, z, j, t, index.skip(end), data.skip(end)),
        rest_same(m, t1, z, t, index.skip(end)),
    ensures
        pages_flushed(st, i, s, z, j, t, index.skip(k), data.skip(k)),
{
    let front = index.subrange(k, end);
    let back = index.skip(end);
    let all = index.skip(k);
    assert forall|n: int| 0 <= n < all.len() implies page_held(
        z,
        t,
        #[trigger] all[n],
        data.skip(k)[n],
    ) by {
        if n < end - k {
            assert(front[n] == all[n]);
            assert(page_held(m, t1, front[n], data.subrange(k, end)[n]));
            assert(index[k + n] <= u32::MAX);
            assert(!back.contains(all[n])) by {
                if back.contains(all[n]) {
                    let x = choose|x: int| 0 <= x < back.len() && back[x] == all[n];
                    assert(index[end + x] == index[k + n]);
                }
            }
            assert((all[n] as u32) as u64 == all[n]);
            assert(same_block(m, t1, z, t, all[n] as u32));
        } else {
            assert(back[n - (end - k)] == all[n]);
            assert(page_held(z, t, back[n - (end - k)], data.skip(end)[n - (end - k)]));
        }
    }
    assert forall|pos: int|
        0 <= pos < i.size && pos < LIMIT && !all.contains((pos / 4096) as u64) implies
        #[trigger] contents::holds_same(st, i, s, z, j, t, pos) by {
        let x = (pos / 4096) as u64;
        assert(!front.contains(x)) by {
            if front.contains(x) {
                let n = choose|n: int| 0 <= n < front.len() && front[n] == x;
                assert(all[n] == x);
            }
        }
        assert(!back.contains(x)) by {
            if back.contains(x) {
                let n = choose|n: int| 0 <= n < back.len() && back[n] == x;
                assert(all[n + (end - k)] == x);
            }
        }
        assert(((pos / 4096) as u32) as u64 == x);
        assert(contents::holds_same(st, i, s, m, j1, t1, pos));
        assert(same_block(m, t1, z, t, (pos / 4096) as u32));
        lemma_same_byte(st, i, s, m, j1, t1, z, j, t, pos);
    }
}

/// The rest of the file over two parts.
proof fn lemma_rest_parts(
    st: FsState,
    s: Storage,
    m: FsState,
    t1: Storage,
    z: FsState,
    t: Storage,
    index: Seq<u64>,
    k: int,
    end: int,
)
    requires
        0 <= k <= end <= index.len(),
        rest_same(st, s, m, t1, index.subrange(k, end)),
        rest_same(m, t1, z, t, index.skip(end)),
    ensures
        rest_same(st, s, z, t, index.skip(k)),
{
    let front = index.subrange(k, end);
    let back = index.skip(end);
    let all = index.skip(k);
    assert forall|lb: u32| !all.contains(lb as u64) implies #[trigger] same_block(
        st,
        s,
        z,
        t,
        lb,
    ) by {
        let x = lb as u64;
        assert(!front.contains(x)) by {
            if front.contains(x) {
                let n = choose|n: int| 0 <= n < front.len() && front[n] == x;
                assert(all[n] == x);
            }
        }
        assert(!back.contains(x)) by {
            if back.contains(x) {
                let n = choose|n: int| 0 <= n < back.len() && back[n] == x;
                assert(all[n + (end - k)] == x);
            }
        }
        assert(same_block(st, s, m, t1, lb));
        assert(same_block(m, t1, z, t, lb));
    }
}

/// Pages flushed from `k` on.
#[verifier::spinoff_prover]
#[verifier::rlimit(40)]
proof fn lemma_bulk(
    st: FsState,
    ino: u64,
    i: InodeView,
    s: Storage,
    index: Seq<u64>,
    data: Pages,
    k: int,
    size: Option<u64>,
    now: u64,
) -> (r: (InodeView, Storage))
    requires
        contents::in_order(st, ino, i, s),
        i.inline() ==> i.size <= INODE_DATA_AREA_SIZE,
        batch(index, data),
        0 <= k <= index.len(),
        model::flush_pages_bulk(st, ino, index, data, k, size, now).1 is Ok,
    ensures
        ({
            let z = model::flush_pages_bulk(st, ino, index, data, k, size, now).0;
            &&& contents::in_order(z, ino, r.0, r.1)
            &&& k == index.len() ==> z == st && r == (i, s)
            &&& k < index.len() ==> !r.0.inline() && r.0.size == raised(i.size, size)
            &&& pages_flushed(st, i, s, z, r.0, r.1, index.skip(k), data.skip(k))
            &&& !i.inline() ==> rest_same(st, s, z, r.1, index.skip(k))
        }),
    decreases index.len() - k,
{
    if k >= index.len() {
        assert forall|pos: int| 0 <= pos < i.size && pos < LIMIT implies
            #[trigger] contents::holds_same(st, i, s, st, i, s, pos) by {}
        (i, s)
    } else {
        let end = model::min(k + model::MAX_BULK_PAGES, index.len() as int);
        let hint = if end == index.len() {
            size
        } else {
            None
        };
        let front = index.subrange(k, end);
        let pages = data.subrange(k, end);
        let b = model::begin(st);
        contents::lemma_same_disk(st, b, ino);
        assert(contents::in_order(b, ino, i, s));
        assert(batch(front, pages)) by {
            assert forall|n: int| 0 <= n < front.len() implies #[trigger] front[n]
                <= u32::MAX by {
                assert(index[k + n] <= u32::MAX);
            }
            assert forall|n: int| 0 <= n < pages.len() implies (#[trigger] pages[n]).len()
                == block_device::PAGE_SIZE by {
                assert(pages[n] == data[k + n]);
            }
            assert forall|x: int, y: int|
                0 <= x < front.len() && 0 <= y < front.len() && x != y implies front[x]
                != front[y] by {
                assert(index[k + x] != index[k + y]);
            }
        }
        let w = model::flush_chunk(b, ino, front, pages, hint, now).0;
        let (j1, t1) = lemma_chunk(b, ino, i, s, front, pages, hint, now);
        let m = model::ended(w, true);
        contents::lemma_same_disk(w, m, ino);
        assert(contents::in_order(m, ino, j1, t1));
        lemma_ends(st, b, w, m, i, s, j1, t1, front, pages);
        let (j, t) = lemma_bulk(m, ino, j1, t1, index, data, end, size, now);
        let z = model::flush_pages_bulk(m, ino, index, data, end, size, now).0;
        lemma_parts(st, i, s, m, j1, t1, z, j, t, index, data, k, end);
        if !i.inline() {
            lemma_rest_parts(st, s, m, t1, z, t, index, k, end);
        }
        (j, t)
    }
}

/// Opening and closing a transaction changes nothing on the device.
proof fn lemma_ends(
    st: FsState,
    b: FsState,
    w: FsState,
    m: FsState,
    i: InodeView,
    s: Storage,
    j: InodeView,
    t: Storage,
    index: Seq<u64>,
    data: Pages,
)
    requires
        b == model::begin(st),
        m == model::ended(w, true),
        pages_flushed(b, i, s, w, j, t, index, data),
        !i.inline() ==> rest_same(b, s, w, t, index),
    ensures
        pages_flushed(st, i, s, m, j, t, index, data),
        !i.inline() ==> rest_same(st, s, m, t, index),
{
    assert forall|n: int| 0 <= n < index.len() implies page_held(
        m,
        t,
        #[trigger] index[n],
        data[n],
    ) by {
        assert(page_held(w, t, index[n], data[n]));
    }
    assert forall|pos: int|
        0 <= pos < i.size && pos < LIMIT && !index.contains((pos / 4096) as u64) implies
        #[trigger] contents::holds_same(st, i, s, m, j, t, pos) by {
        assert(contents::holds_same(b, i, s, w, j, t, pos));
    }
    if !i.inline() {
        assert forall|lb: u32| !index.contains(lb as u64) implies #[trigger] same_block(
            st,
            s,
            m,
            t,
            lb,
        ) by {
            assert(same_block(b, s, w, t, lb));
        }
    }
}

// ---- Laws -------------------------------------------------------------------------------------

/// Pages that are flushed together are all where they belong, whatever transactions they went
/// in; the other pages of the file are what they were, and the file is as long as it was or as
/// long as it was to be.
pub proof fn bulk_changes_contents(
    st: FsState,
    ino: u64,
    i: InodeView,
    s: Storage,
    index: Seq<u64>,
    data: Pages,
    size: Option<u64>,
    now: u64,
) -> (r: (InodeView, Storage))
    requires
        contents::in_order(st, ino, i, s),
        i.inline() ==> i.size <= INODE_DATA_AREA_SIZE,
        batch(index, data),
        index.len() > 0,
        model::flush_pages_bulk(st, ino, index, data, 0, size, now).1 is Ok,
    ensures
        ({
            let z = model::flush_pages_bulk(st, ino, index, data, 0, size, now).0;
            &&& contents::in_order(z, ino, r.0, r.1)
            &&& !r.0.inline()
            &&& r.0.size == raised(i.size, size)
            &&& pages_flushed(st, i, s, z, r.0, r.1, index, data)
        }),
{
    let r = lemma_bulk(st, ino, i, s, index, data, 0, size, now);
    assert(index.skip(0) =~= index);
    assert(data.skip(0) =~= data);
    r
}

/// A page that was flushed with others is the page that is filled, as far as it lies within
/// the file.
#[verifier::spinoff_prover]
#[verifier::rlimit(40)]
pub proof fn bulk_then_fill_page(
    st: FsState,
    ino: u64,
    i: InodeView,
    s: Storage,
    index: Seq<u64>,
    data: Pages,
    size: Option<u64>,
    now: u64,
    n: int,
)
    requires
        contents::in_order(st, ino, i, s),
        i.inline() ==> i.size <= INODE_DATA_AREA_SIZE,
        batch(index, data),
        0 <= n < index.len(),
        model::flush_pages_bulk(st, ino, index, data, 0, size, now).1 is Ok,
    ensures
        ({
            let z = model::flush_pages_bulk(st, ino, index, data, 0, size, now).0;
            let len = raised(i.size, size) as int;
            let valid = if index[n] * 4096 >= len {
                0
            } else {
                model::min(len - index[n] * 4096, 4096)
            };
            model::fill_page(z, ino, index[n]) == Ok::<(Seq<u8>, int), Error>(
                (bytes::splice(bytes::zeros(4096), 0, data[n].take(valid)), valid),
            )
        }),
{
    let (j, t) = bulk_changes_contents(st, ino, i, s, index, data, size, now);
    let z = model::flush_pages_bulk(st, ino, index, data, 0, size, now).0;
    assert(page_held(z, t, index[n], data[n]));
    assert(index[n] <= u32::MAX);
    assert(data[n].len() == 4096);
    reveal(model::fill_page);
    let off = index[n] * 4096;
    contents::lemma_logical(off);
    let len = j.size as int;
    if off >= len {
        assert(bytes::splice(bytes::zeros(4096), 0, data[n].take(0)) =~= bytes::zeros(4096));
    } else {
        let valid = model::min(len - off, 4096);
        assert(data[n].subrange(0, valid) =~= data[n].take(valid));
    }
}

} // verus!
