//! What becomes of a file whose size is set: what lies below the new end stays, and what
//! lies past it is given back.
use vstd::prelude::*;
use super::contents;
use super::contents::{Role, Storage, LIMIT};
use super::extents;
use super::layout;
use super::layout::{EfsExtent, InodeView, INODE_DATA_AREA_SIZE};
use super::model;
use super::model::FsState;

verus! {

// ---- Freeing a run ------------------------------------------------------------------------

/// What freeing the blocks from `lo` to `hi` does.
spec fn cleared(a: FsState, z: FsState, lo: int, hi: int) -> bool {
    &&& contents::same_shape(a, z)
    &&& contents::untouched(a, z)
    &&& forall|c: int| !(lo <= c < hi) && #[trigger] contents::kept(a, c) ==> contents::kept(z, c)
}

proof fn lemma_apart_same(a: FsState, z: FsState)
    requires
        contents::bitmaps_apart(a),
        contents::same_shape(a, z),
    ensures
        contents::bitmaps_apart(z),
{
    assert forall|g: int, h: int|
        #![trigger contents::bitmap_of(z, g), contents::bitmap_of(z, h)]
        0 <= g < z.bgds.len() && 0 <= h < z.bgds.len() && g != h implies contents::bitmap_of(z, g)
        != contents::bitmap_of(z, h) by {
        assert(contents::bitmap_of(z, g) == contents::bitmap_of(a, g)) by {
            assert(z.bgds[g].block_bitmap_block == a.bgds[g].block_bitmap_block);
        }
        assert(contents::bitmap_of(z, h) == contents::bitmap_of(a, h)) by {
            assert(z.bgds[h].block_bitmap_block == a.bgds[h].block_bitmap_block);
        }
    }
}

#[verifier::spinoff_prover]
#[verifier::rlimit(40)]
proof fn lemma_free_run(st: FsState, first: int, i: int, n: int)
    requires
        model::mounted(st),
        contents::bitmaps_apart(st),
        0 <= first,
        0 <= i <= n,
        first + n <= u64::MAX,
        model::free_run(st, first, i, n).1 is Ok,
    ensures
        cleared(st, model::free_run(st, first, i, n).0, first + i, first + n),
        model::mounted(model::free_run(st, first, i, n).0),
    decreases n - i,
{
    if i < n {
        let b = (first + i) as u64;
        let st1 = model::free_block(st, b).0;
        contents::lemma_free(st, b);
        contents::lemma_same_roles(st, st1, 1, Storage { map: Seq::empty(), leaves: Seq::empty() });
        lemma_apart_same(st, st1);
        lemma_free_run(st1, first, i + 1, n);
        let z = model::free_run(st, first, i, n).0;
        contents::lemma_untouched(st, st1, z);
        assert forall|c: int|
            !(first + i <= c < first + n) && #[trigger] contents::kept(st, c) implies
            contents::kept(z, c) by {
            assert(contents::kept(st1, c));
        }
    } else {
        assert(contents::same_shape(st, st));
    }
}

// ---- Fewer extents ------------------------------------------------------------------------

/// Whether block `x` was mapped at `lb` and no longer is.
spec fn unmapped(m: Seq<EfsExtent>, n: Seq<EfsExtent>, lb: u32, x: int) -> bool {
    extents::map_lookup(m, lb) == Some(x as u64) && extents::map_lookup(n, lb) is None
}

/// Whether `n` maps nothing that `m` does not map to the same block.
spec fn within(m: Seq<EfsExtent>, n: Seq<EfsExtent>) -> bool {
    forall|lb: u32|
        (#[trigger] extents::map_lookup(n, lb)) is Some ==> extents::map_lookup(n, lb)
            == extents::map_lookup(m, lb)
}

/// With fewer blocks mapped everything stays apart, though those left out are freed.
#[verifier::spinoff_prover]
#[verifier::rlimit(40)]
proof fn lemma_fewer(
    a: FsState,
    z: FsState,
    ino: u64,
    s: Storage,
    t: Storage,
    lb: int,
    first: int,
    n: int,
)
    requires
        model::mounted(a),
        contents::separate(a, ino, s),
        cleared(a, z, first, first + n),
        t.leaves == s.leaves,
        within(s.map, t.map),
        0 <= lb,
        0 <= first,
        lb + n <= 0x1_0000_0000,
        first + n <= u64::MAX,
        forall|d: int|
            0 <= d < n ==> #[trigger] unmapped(s.map, t.map, (lb + d) as u32, first + d),
    ensures
        contents::separate(z, ino, t),
{
    contents::lemma_same_roles(a, z, ino, s);
    contents::lemma_same_roles(a, z, ino, t);
    assert forall|r: Role| (#[trigger] contents::at(z, ino, t, r)) is Some implies contents::at(
        a,
        ino,
        s,
        r,
    ) == contents::at(z, ino, t, r) by {
        assert(contents::at(a, ino, t, r) == contents::at(z, ino, t, r));
        match r {
            Role::Data(o) => {
                assert(extents::map_lookup(t.map, o) is Some);
            },
            _ => {},
        }
    }
    assert forall|r: Role| (#[trigger] contents::at(z, ino, t, r)) matches Some(x) implies
        contents::kept(z, contents::at(z, ino, t, r)->Some_0) by {
        if contents::at(z, ino, t, r) is Some {
            let x = contents::at(z, ino, t, r)->Some_0;
            assert(contents::at(a, ino, s, r) == Some(x));
            assert(contents::kept(a, x));
            if first <= x < first + n {
                let d = x - first;
                let o = (lb + d) as u32;
                assert(unmapped(s.map, t.map, (lb + d) as u32, first + d));
                assert(contents::at(a, ino, s, Role::Data(o)) == Some(x));
                assert(contents::at(z, ino, t, Role::Data(o)) is None);
                assert(r != Role::Data(o));
            }
        }
    }
    assert forall|r: Role, q: Role|
        #![trigger contents::at(z, ino, t, r), contents::at(z, ino, t, q)]
        r != q && contents::at(z, ino, t, r) is Some && contents::at(z, ino, t, q) is Some implies
        contents::at(z, ino, t, r) != contents::at(z, ino, t, q) by {
        assert(contents::at(a, ino, s, r) == contents::at(z, ino, t, r));
        assert(contents::at(a, ino, s, q) == contents::at(z, ino, t, q));
    }
}

/// Whether every extent ends at block `keep` at the latest.
spec fn all_below(m: Seq<EfsExtent>, keep: int) -> bool {
    forall|k: int| 0 <= k < m.len() ==> extents::ext_end(#[trigger] m[k]) <= keep
}

/// Whether block numbers of the extents are 32 bits wide.
pub open spec fn addressable(m: Seq<EfsExtent>) -> bool {
    forall|k: int| 0 <= k < m.len() ==> extents::ext_end(#[trigger] m[k]) <= 0x1_0000_0000
}

/// What cutting extent `k` of `m` off at block `keep` leaves.
spec fn cut(m: Seq<EfsExtent>, k: int, keep: int) -> Seq<EfsExtent> {
    if m[k].logical_block >= keep {
        m.remove(k)
    } else {
        m.update(k, EfsExtent { length: (keep - m[k].logical_block) as u16, ..m[k] })
    }
}

/// Where the part of extent `k` that is cut off starts.
spec fn cut_at(m: Seq<EfsExtent>, k: int, keep: int) -> int {
    if m[k].logical_block >= keep {
        m[k].logical_block as int
    } else {
        keep
    }
}

/// The extent of `m` that became extent `j` of what is left.
spec fn came_from(m: Seq<EfsExtent>, k: int, keep: int, j: int) -> int {
    if m[k].logical_block >= keep && j >= k {
        j + 1
    } else {
        j
    }
}

#[verifier::spinoff_prover]
#[verifier::rlimit(40)]
proof fn lemma_cut_valid(m: Seq<EfsExtent>, k: int, keep: int)
    requires
        extents::valid_map(m),
        addressable(m),
        0 <= k < m.len(),
        extents::ext_end(m[k]) > keep,
    ensures
        extents::valid_map(cut(m, k, keep)),
        addressable(cut(m, k, keep)),
{
    let n = cut(m, k, keep);
    assert forall|i: int| 0 <= i < n.len() implies 0 < (#[trigger] n[i]).length
        && extents::ext_end(n[i]) <= 0x1_0000_0000 by {
        let e = m[came_from(m, k, keep, i)];
        assert(e.length > 0);
    }
    assert forall|i: int, j: int| 0 <= i < j < n.len() implies extents::ext_end(#[trigger] n[i])
        <= (#[trigger] n[j]).logical_block by {
        assert(extents::ext_end(m[came_from(m, k, keep, i)]) <= m[came_from(
            m,
            k,
            keep,
            j,
        )].logical_block);
    }
}

/// Cutting an extent off unmaps what is cut off, and nothing else.
#[verifier::spinoff_prover]
#[verifier::rlimit(40)]
proof fn lemma_cut(m: Seq<EfsExtent>, k: int, keep: int, lb: u32)
    requires
        extents::valid_map(m),
        addressable(m),
        0 <= k < m.len(),
        extents::ext_end(m[k]) > keep,
    ensures
        extents::map_lookup(cut(m, k, keep), lb) == (if cut_at(m, k, keep) <= lb
            < extents::ext_end(m[k]) {
            None
        } else {
            extents::map_lookup(m, lb)
        }),
{
    let n = cut(m, k, keep);
    lemma_cut_valid(m, k, keep);
    extents::lemma_lookup_some(n, lb);
    extents::lemma_lookup_some(m, lb);
    if extents::map_lookup(n, lb) is Some {
        let j = extents::position(n, lb, 0) - 1;
        let q = came_from(m, k, keep, j);
        assert(n[j].logical_block == m[q].logical_block && n[j].phys() == m[q].phys());
        extents::lookup_inside(m, lb, q);
        extents::lookup_inside(n, lb, j);
        if cut_at(m, k, keep) <= lb < extents::ext_end(m[k]) {
            extents::lookup_inside(m, lb, k);
            if q < k {
                assert(extents::ext_end(m[q]) <= m[k].logical_block);
            } else if q > k {
                assert(extents::ext_end(m[k]) <= m[q].logical_block);
            }
        }
    } else if extents::map_lookup(m, lb) is Some {
        let q = extents::position(m, lb, 0) - 1;
        if q != k || lb < cut_at(m, k, keep) {
            let j = if m[k].logical_block >= keep && q > k {
                q - 1
            } else {
                q
            };
            assert(n[j].logical_block <= lb < extents::ext_end(n[j]));
            extents::lookup_inside(n, lb, j);
        }
    }
}

// ---- Trimming a map -----------------------------------------------------------------------

/// What trimming a map does.
spec fn trimmed(
    a: FsState,
    z: FsState,
    ino: u64,
    m: Seq<EfsExtent>,
    n: Seq<EfsExtent>,
    leaves: Seq<u64>,
    keep: int,
) -> bool {
    &&& model::mounted(z)
    &&& contents::same_shape(a, z)
    &&& contents::untouched(a, z)
    &&& contents::separate(z, ino, Storage { map: n, leaves })
    &&& extents::valid_map(n)
    &&& addressable(n)
    &&& all_below(n, keep)
    &&& forall|lb: u32|
        lb < keep ==> #[trigger] extents::map_lookup(n, lb) == extents::map_lookup(m, lb)
}

/// One extent that reaches past the end is cut off.
#[verifier::spinoff_prover]
#[verifier::rlimit(40)]
proof fn lemma_cut_off(
    st: FsState,
    ino: u64,
    m: Seq<EfsExtent>,
    leaves: Seq<u64>,
    k: int,
    keep: int,
)
    requires
        model::mounted(st),
        0 <= k < m.len(),
        0 <= keep,
        extents::valid_map(m),
        addressable(m),
        contents::separate(st, ino, Storage { map: m, leaves }),
        extents::ext_end(m[k]) > keep,
        ({
            let c = cut_at(m, k, keep);
            model::free_run(
                st,
                m[k].phys() + (c - m[k].logical_block),
                0,
                extents::ext_end(m[k]) - c,
            ).1 is Ok
        }),
    ensures
        ({
            let c = cut_at(m, k, keep);
            let z = model::free_run(
                st,
                m[k].phys() + (c - m[k].logical_block),
                0,
                extents::ext_end(m[k]) - c,
            ).0;
            &&& model::mounted(z)
            &&& contents::same_shape(st, z)
            &&& contents::untouched(st, z)
            &&& contents::separate(z, ino, Storage { map: cut(m, k, keep), leaves })
        }),
{
    let c = cut_at(m, k, keep);
    let first = m[k].phys() + (c - m[k].logical_block);
    let n = extents::ext_end(m[k]) - c;
    let z = model::free_run(st, first, 0, n).0;
    let s = Storage { map: m, leaves };
    let t = Storage { map: cut(m, k, keep), leaves };
    assert(m[k].phys() < 0x1_0000_0000_0000);
    contents::lemma_apart(st, ino, s);
    lemma_free_run(st, first, 0, n);
    assert(within(m, t.map)) by {
        assert forall|lb: u32| (#[trigger] extents::map_lookup(t.map, lb)) is Some implies
            extents::map_lookup(t.map, lb) == extents::map_lookup(m, lb) by {
            lemma_cut(m, k, keep, lb);
        }
    }
    assert forall|d: int| 0 <= d < n implies #[trigger] unmapped(
        m,
        t.map,
        (c + d) as u32,
        first + d,
    ) by {
        lemma_cut(m, k, keep, (c + d) as u32);
        extents::lookup_inside(m, (c + d) as u32, k);
    }
    lemma_fewer(st, z, ino, s, t, c, first, n);
}

#[verifier::spinoff_prover]
#[verifier::rlimit(40)]
proof fn lemma_trim(
    st: FsState,
    ino: u64,
    map: Seq<EfsExtent>,
    k: int,
    keep: int,
    kept: Seq<EfsExtent>,
    leaves: Seq<u64>,
)
    requires
        model::mounted(st),
        0 <= k <= map.len(),
        0 <= keep,
        extents::valid_map(kept + map.skip(k)),
        addressable(kept + map.skip(k)),
        contents::separate(st, ino, Storage { map: kept + map.skip(k), leaves }),
        all_below(kept, keep),
        model::trim_extents(st, map, k, keep, kept).1 is Ok,
    ensures
        trimmed(
            st,
            model::trim_extents(st, map, k, keep, kept).0,
            ino,
            kept + map.skip(k),
            model::trim_extents(st, map, k, keep, kept).1->Ok_0,
            leaves,
            keep,
        ),
    decreases map.len() - k,
{
    let m = kept + map.skip(k);
    if k >= map.len() {
        assert(m =~= kept);
        assert(contents::same_shape(st, st));
    } else {
        let e = map[k];
        let h = kept.len() as int;
        assert(m[h] == e);
        if extents::ext_end(e) > keep {
            lemma_cut_off(st, ino, m, leaves, h, keep);
            lemma_cut_valid(m, h, keep);
            let c = cut_at(m, h, keep);
            let st1 = model::free_run(
                st,
                e.phys() + (c - e.logical_block),
                0,
                extents::ext_end(e) - c,
            ).0;
            let next = if e.logical_block >= keep {
                kept
            } else {
                kept.push(EfsExtent { length: (keep - e.logical_block) as u16, ..e })
            };
            assert(next + map.skip(k + 1) =~= cut(m, h, keep));
            lemma_trim(st1, ino, map, k + 1, keep, next, leaves);
            let (z, r) = model::trim_extents(st1, map, k + 1, keep, next);
            assert(model::trim_extents(st, map, k, keep, kept) == (z, r));
            contents::lemma_untouched(st, st1, z);
            assert forall|lb: u32| lb < keep implies #[trigger] extents::map_lookup(r->Ok_0, lb)
                == extents::map_lookup(m, lb) by {
                lemma_cut(m, h, keep, lb);
                assert(extents::map_lookup(r->Ok_0, lb) == extents::map_lookup(
                    next + map.skip(k + 1),
                    lb,
                ));
            }
        } else {
            let next = kept.push(e);
            assert(next + map.skip(k + 1) =~= m);
            assert(e.length > 0) by {
                assert(m[h].length > 0);
            }
            lemma_trim(st, ino, map, k + 1, keep, next, leaves);
        }
    }
}

// ---- Setting the size ---------------------------------------------------------------------

/// What setting the size does to a file: it has that size, what it held below the new end
/// it still holds, and no block wholly past the new end stays mapped when it shrinks. When it
/// grows, what lies past the old end is what was there: zeros where nothing is mapped, and
/// zeros where inline data has moved out.
pub open spec fn resized(
    a: FsState,
    i: InodeView,
    s: Storage,
    z: FsState,
    j: InodeView,
    t: Storage,
    size: u64,
) -> bool {
    &&& j.mode == i.mode
    &&& j.size == size
    &&& forall|pos: int|
        0 <= pos < size && pos < i.size && pos < LIMIT ==> #[trigger] contents::holds_same(
            a,
            i,
            s,
            z,
            j,
            t,
            pos,
        )
    &&& size < i.size && !i.inline() ==> forall|lb: u32|
        lb * 4096 >= size ==> (#[trigger] extents::map_lookup(t.map, lb)) is None
    &&& size >= i.size || i.inline() ==> forall|pos: int|
        i.size <= pos < LIMIT ==> #[trigger] contents::holds_past(a, i, s, z, j, t, pos)
}

/// A new inode for the same storage.
#[verifier::spinoff_prover]
#[verifier::rlimit(40)]
proof fn lemma_same_storage(st: FsState, ino: u64, i: InodeView, s: Storage, j: InodeView)
    requires
        contents::in_order(st, ino, i, s),
        j.mode == i.mode,
        j.flags == i.flags,
        j.data_area == i.data_area,
        i.inline() || i.size <= j.size,
        model::write_inode(st, ino, j).1 is Ok,
    ensures
        contents::in_order(model::write_inode(st, ino, j).0, ino, j, s),
        resized(st, i, s, model::write_inode(st, ino, j).0, j, s, j.size),
{
    let z = model::write_inode(st, ino, j).0;
    contents::lemma_inode_len(st, ino, i);
    contents::lemma_reinode(st, ino, i, s, j);
    assert forall|pos: int|
        0 <= pos < j.size && pos < i.size && pos < LIMIT implies #[trigger] contents::holds_same(
        st,
        i,
        s,
        z,
        j,
        s,
        pos,
    ) by {
        if !i.inline() {
            let lb = model::logical_block(pos);
            assert(extents::map_lookup(s.map, lb) is Some || extents::map_lookup(s.map, lb)
                is None);
        }
    }
    assert forall|pos: int| i.size <= pos < LIMIT implies #[trigger] contents::holds_past(
        st,
        i,
        s,
        z,
        j,
        s,
        pos,
    ) by {
        if !i.inline() {
            let lb = model::logical_block(pos);
            assert(extents::map_lookup(s.map, lb) is Some || extents::map_lookup(s.map, lb)
                is None);
        }
    }
}

/// Storing the trimmed map and the new size.
#[verifier::spinoff_prover]
#[verifier::rlimit(40)]
proof fn lemma_shrink_tail(
    st: FsState,
    ino: u64,
    i: InodeView,
    s: Storage,
    st1: FsState,
    m: Seq<EfsExtent>,
    size: u64,
    now: u64,
) -> (r: (InodeView, Storage))
    requires
        contents::in_order(st, ino, i, s),
        !i.inline(),
        size < i.size,
        trimmed(st, st1, ino, s.map, m, s.leaves, (size + 4095) / 4096),
        model::store_map(st1, i, m).1 is Ok,
        ({
            let (st2, j) = model::store_map(st1, i, m);
            model::write_inode(
                st2,
                ino,
                layout::stamped(InodeView { size, mtime_sec: now, ..j->Ok_0 }),
            ).1 is Ok
        }),
    ensures
        ({
            let (st2, j) = model::store_map(st1, i, m);
            let z = model::write_inode(
                st2,
                ino,
                layout::stamped(InodeView { size, mtime_sec: now, ..j->Ok_0 }),
            ).0;
            &&& contents::in_order(z, ino, r.0, r.1)
            &&& !r.0.inline()
            &&& r.0.mtime_sec == now
            &&& resized(st, i, s, z, r.0, r.1, size)
        }),
{
    let keep = (size + 4095) / 4096;
    contents::lemma_store(st1, ino, i, m);
    let (st2, rj) = model::store_map(st1, i, m);
    let j = rj->Ok_0;
    let t = Storage { map: m, leaves: model::tree_blocks(j) };
    let k = layout::stamped(InodeView { size, mtime_sec: now, ..j });
    contents::lemma_area_decides(st2, j, k);
    contents::lemma_put_inode(st2, ino, t, k);
    let z = model::write_inode(st2, ino, k).0;
    assert forall|b: u64| #[trigger]
        model::tree_blocks(k).contains(b) && model::has_block(st2, b as int) implies
        contents::block(z, b as int) == contents::block(st2, b as int) by {
        assert(contents::at(st2, ino, t, Role::Leaf(b)) == Some(b as int));
        assert(contents::at(st2, ino, t, Role::Home) == model::inode_block(st2, ino));
    }
    contents::lemma_load_same(st2, z, k);
    assert forall|pos: int|
        0 <= pos < size && pos < i.size && pos < LIMIT implies #[trigger] contents::holds_same(
        st,
        i,
        s,
        z,
        k,
        t,
        pos,
    ) by {
        let lb = model::logical_block(pos);
        contents::lemma_logical(pos);
        assert(lb < keep);
        assert(extents::map_lookup(m, lb) == extents::map_lookup(s.map, lb));
        if extents::map_lookup(s.map, lb) is Some {
            let q = extents::map_lookup(s.map, lb)->Some_0 as int;
            contents::lemma_data_alone(st, ino, s, lb);
            contents::lemma_data_alone(st2, ino, t, lb);
            contents::lemma_same_bitmap(st, st1, q);
            if model::has_block(st, q) {
                assert(contents::block(st1, q) == contents::block(st, q));
                assert(contents::block(st2, q) == contents::block(st1, q));
                assert(contents::block(z, q) == contents::block(st2, q));
            }
        }
    }
    assert forall|lb: u32| lb * 4096 >= size implies (#[trigger] extents::map_lookup(
        t.map,
        lb,
    )) is None by {
        extents::lemma_lookup_some(m, lb);
        if extents::map_lookup(m, lb) is Some {
            let p = extents::position(m, lb, 0);
            assert(extents::ext_end(m[p - 1]) <= keep);
        }
    }
    (k, t)
}

/// Setting a file's size keeps what the file holds below the new end, and the file stays in
/// order. When it shrinks, whole blocks past the new end are no longer part of it.
pub proof fn truncate_keeps_the_front(
    st: FsState,
    ino: u64,
    i: InodeView,
    s: Storage,
    size: u64,
    now: u64,
) -> (r: (InodeView, Storage))
    requires
        contents::in_order(st, ino, i, s),
        i.inline() ==> i.size <= INODE_DATA_AREA_SIZE,
        addressable(s.map),
        model::truncate(st, ino, size, now).1 is Ok,
    ensures
        ({
            let z = model::truncate(st, ino, size, now).0;
            &&& contents::in_order(z, ino, r.0, r.1)
            &&& r.0.inline() ==> r.0.size <= INODE_DATA_AREA_SIZE
            &&& r.0.mtime_sec == now
            &&& resized(st, i, s, z, r.0, r.1, size)
        }),
{
    reveal(model::truncate);
    if size >= i.size && i.inline() && size > INODE_DATA_AREA_SIZE {
        let st1 = model::convert_inline(st, ino, i).0;
        let (i1, s1) = contents::lemma_convert(st, ino, i, s);
        let j = layout::stamped(InodeView { size, mtime_sec: now, ..i1 });
        lemma_same_storage(st1, ino, i1, s1, j);
        let z = model::write_inode(st1, ino, j).0;
        assert forall|pos: int|
            0 <= pos < size && pos < i.size && pos < LIMIT implies #[trigger] contents::holds_same(
            st,
            i,
            s,
            z,
            j,
            s1,
            pos,
        ) by {
            assert(contents::moved_byte(st1, s1.map, i, pos));
            assert(contents::holds_same(st1, i1, s1, z, j, s1, pos));
        }
        assert forall|pos: int| i.size <= pos < LIMIT implies #[trigger] contents::holds_past(
            st,
            i,
            s,
            z,
            j,
            s1,
            pos,
        ) by {
            assert(contents::moved_byte(st1, s1.map, i, pos));
            assert(contents::holds_past(st1, i1, s1, z, j, s1, pos));
        }
        (j, s1)
    } else if size >= i.size || i.inline() {
        let j = layout::stamped(InodeView { size, mtime_sec: now, ..i });
        lemma_same_storage(st, ino, i, s, j);
        (j, s)
    } else {
        let keep = (size + 4095) / 4096;
        let none = Seq::<EfsExtent>::empty();
        assert(none + s.map.skip(0) =~= s.map);
        lemma_trim(st, ino, s.map, 0, keep, none, s.leaves);
        let (st1, m) = model::trim_extents(st, s.map, 0, keep, none);
        lemma_shrink_tail(st, ino, i, s, st1, m->Ok_0, size, now)
    }
}

/// Raising a file's size does to the file what setting it does; a size that is not larger changes
/// nothing.
pub proof fn raised_size_keeps_contents(
    st: FsState,
    ino: u64,
    i: InodeView,
    s: Storage,
    size: u64,
    now: u64,
) -> (r: (InodeView, Storage))
    requires
        contents::in_order(st, ino, i, s),
        i.inline() ==> i.size <= INODE_DATA_AREA_SIZE,
        addressable(s.map),
        model::update_size(st, ino, size, now).1 is Ok,
    ensures
        size <= i.size ==> model::update_size(st, ino, size, now).0 == st,
        size > i.size ==> ({
            let z = model::update_size(st, ino, size, now).0;
            &&& contents::in_order(z, ino, r.0, r.1)
            &&& r.0.inline() ==> r.0.size <= INODE_DATA_AREA_SIZE
            &&& r.0.mtime_sec == now
            &&& resized(st, i, s, z, r.0, r.1, size)
        }),
{
    reveal(model::update_size);
    if size > i.size {
        let b = model::begin(st);
        contents::lemma_same_disk(st, b, ino);
        assert(model::truncate(b, ino, size, now) == model::raise_size(b, ino, i, size, now)) by {
            reveal(model::truncate);
        }
        let (j, t) = truncate_keeps_the_front(b, ino, i, s, size, now);
        let w = model::truncate(b, ino, size, now).0;
        let z = model::ended(w, true);
        contents::lemma_same_disk(w, z, ino);
        assert forall|pos: int|
            0 <= pos < size && pos < i.size && pos < LIMIT implies #[trigger] contents::holds_same(
            st,
            i,
            s,
            z,
            j,
            t,
            pos,
        ) by {
            assert(contents::holds_same(b, i, s, w, j, t, pos));
        }
        assert forall|pos: int| i.size <= pos < LIMIT implies #[trigger] contents::holds_past(
            st,
            i,
            s,
            z,
            j,
            t,
            pos,
        ) by {
            assert(contents::holds_past(b, i, s, w, j, t, pos));
        }
        (j, t)
    } else {
        (i, s)
    }
}

} // verus!
