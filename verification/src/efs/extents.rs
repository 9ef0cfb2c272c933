//! A file's block map: a list of extents sorted by logical block.
use vstd::prelude::*;
use super::layout::EfsExtent;

verus! {

/// Longest extent, in blocks.
pub const MAX_EXTENT_LEN: u16 = 0x7FFF;

/// A file's complete logical-to-physical block map, in logical order.
pub struct ExtentMap {
    pub extents: Vec<EfsExtent>,
}

impl View for ExtentMap {
    type V = Seq<EfsExtent>;

    open spec fn view(&self) -> Seq<EfsExtent> {
        self.extents@
    }
}

/// What backs a run of logical blocks.
#[allow(inconsistent_fields)]
#[derive(Clone, Copy, PartialEq, Eq, Structural)]
pub enum BlockRun {
    /// `blocks` contiguous blocks starting at physical block `phys`.
    Mapped { phys: u64, blocks: u32 },
    /// Unallocated blocks, `blocks` of them before the next extent begins;
    /// `None` when no extent follows.
    Hole { blocks: Option<u32> },
}

/// One past the last logical block of an extent.
pub open spec fn ext_end(e: EfsExtent) -> int {
    e.logical_block + e.length
}

/// One past the last physical block of an extent.
pub open spec fn phys_end(e: EfsExtent) -> int {
    e.phys() + e.length
}

/// A valid block map: extents are non-empty, in logical order, and overlap
/// nowhere.
pub open spec fn valid_map(m: Seq<EfsExtent>) -> bool {
    &&& forall|i: int| 0 <= i < m.len() ==> 0 < (#[trigger] m[i]).length
    &&& forall|i: int, j: int|
        0 <= i < j < m.len() ==> ext_end(#[trigger] m[i]) <= (#[trigger] m[j]).logical_block
}

/// The first index from `i` on whose extent starts after `lb`.
pub open spec fn position(m: Seq<EfsExtent>, lb: u32, i: int) -> int
    decreases m.len() - i,
{
    if i >= m.len() || m[i].logical_block > lb {
        i
    } else {
        position(m, lb, i + 1)
    }
}

/// The physical block behind `lb`, if it is mapped.
pub open spec fn map_lookup(m: Seq<EfsExtent>, lb: u32) -> Option<u64> {
    let p = position(m, lb, 0);
    if p > 0 && lb < ext_end(m[p - 1]) {
        Some((m[p - 1].phys() + (lb - m[p - 1].logical_block)) as u64)
    } else {
        None
    }
}

/// The run that starts at `lb`.
pub open spec fn map_run(m: Seq<EfsExtent>, lb: u32) -> BlockRun {
    let p = position(m, lb, 0);
    if p > 0 && lb < ext_end(m[p - 1]) {
        BlockRun::Mapped {
            phys: (m[p - 1].phys() + (lb - m[p - 1].logical_block)) as u64,
            blocks: (ext_end(m[p - 1]) - lb) as u32,
        }
    } else {
        BlockRun::Hole {
            blocks: if p < m.len() {
                Some((m[p].logical_block - lb) as u32)
            } else {
                None
            },
        }
    }
}

/// Where the extent that precedes `lb` ends on disk.
pub open spec fn map_goal(m: Seq<EfsExtent>, lb: u32) -> Option<u64> {
    let p = position(m, lb, 0);
    if p > 0 {
        Some(phys_end(m[p - 1]) as u64)
    } else {
        None
    }
}

/// Blocks mapped in total.
pub open spec fn map_blocks(m: Seq<EfsExtent>) -> int
    decreases m.len(),
{
    if m.len() == 0 {
        0
    } else {
        map_blocks(m.drop_last()) + m.last().length
    }
}

/// Whether `b` continues `a` in both spaces and the two fit in one extent.
pub open spec fn joins(a: EfsExtent, b: EfsExtent) -> bool {
    &&& ext_end(a) == b.logical_block
    &&& phys_end(a) == b.phys()
    &&& a.length + b.length <= MAX_EXTENT_LEN
}

/// `m` with extent `i` fused with its successor when the two are adjacent.
pub open spec fn map_merge(m: Seq<EfsExtent>, i: int) -> Seq<EfsExtent> {
    if i + 1 < m.len() && joins(m[i], m[i + 1]) {
        m.update(
            i,
            EfsExtent { length: (m[i].length + m[i + 1].length) as u16, ..m[i] },
        ).remove(i + 1)
    } else {
        m
    }
}

/// `m` with `lb` mapped to physical block `phys`: the pair extends an adjacent
/// extent when it is contiguous with it in both spaces, and becomes an extent
/// of its own otherwise.
pub open spec fn map_insert(m: Seq<EfsExtent>, lb: u32, phys: u64) -> Seq<EfsExtent> {
    let p = position(m, lb, 0);
    if p > 0 && ext_end(m[p - 1]) == lb && phys_end(m[p - 1]) == phys && m[p - 1].length
        < MAX_EXTENT_LEN {
        map_merge(
            m.update(p - 1, EfsExtent { length: (m[p - 1].length + 1) as u16, ..m[p - 1] }),
            p - 1,
        )
    } else if p < m.len() && lb + 1 == m[p].logical_block && phys + 1 == m[p].phys() && m[p].length
        < MAX_EXTENT_LEN {
        let grown = m.update(p, EfsExtent::make(lb, (m[p].length + 1) as u16, phys));
        if p > 0 {
            map_merge(grown, p - 1)
        } else {
            grown
        }
    } else {
        m.insert(p, EfsExtent::make(lb, 1, phys))
    }
}

proof fn lemma_position(m: Seq<EfsExtent>, lb: u32, i: int)
    requires
        0 <= i <= m.len(),
    ensures
        i <= position(m, lb, i) <= m.len(),
        position(m, lb, i) < m.len() ==> m[position(m, lb, i)].logical_block > lb,
        forall|j: int| i <= j < position(m, lb, i) ==> (#[trigger] m[j]).logical_block <= lb,
    decreases m.len() - i,
{
    if i < m.len() && m[i].logical_block <= lb {
        lemma_position(m, lb, i + 1);
    }
}

/// The index of the extent that holds `lb` in a valid map, by its defining
/// property.
proof fn lemma_lookup_at(m: Seq<EfsExtent>, lb: u32, k: int)
    requires
        valid_map(m),
        0 <= k < m.len(),
        m[k].logical_block <= lb < ext_end(m[k]),
    ensures
        position(m, lb, 0) == k + 1,
        map_lookup(m, lb) == Some((m[k].phys() + (lb - m[k].logical_block)) as u64),
{
    lemma_position(m, lb, 0);
    let p = position(m, lb, 0);
    if p <= k {
        assert(m[p].logical_block > lb);
        assert(p < k ==> ext_end(m[p]) <= m[k].logical_block);
    }
    if p > k + 1 {
        assert(m[k + 1].logical_block <= lb);
        assert(ext_end(m[k]) <= m[k + 1].logical_block);
    }
}

proof fn lemma_lookup_none(m: Seq<EfsExtent>, lb: u32)
    requires
        valid_map(m),
        forall|k: int| 0 <= k < m.len() ==> !((#[trigger] m[k]).logical_block <= lb < ext_end(m[k])),
    ensures
        map_lookup(m, lb) is None,
{
    lemma_position(m, lb, 0);
    let p = position(m, lb, 0);
    if p > 0 {
        assert(m[p - 1].logical_block <= lb);
    }
}

pub(crate) proof fn lemma_lookup_some(m: Seq<EfsExtent>, lb: u32)
    ensures
        map_lookup(m, lb) is Some ==> {
            let p = position(m, lb, 0);
            0 < p <= m.len() && m[p - 1].logical_block <= lb < ext_end(m[p - 1])
        },
{
    lemma_position(m, lb, 0);
}

/// A block inside an extent is mapped by it.
pub proof fn lookup_inside(m: Seq<EfsExtent>, lb: u32, k: int)
    requires
        valid_map(m),
        0 <= k < m.len(),
        m[k].logical_block <= lb < ext_end(m[k]),
    ensures
        map_lookup(m, lb) == Some((m[k].phys() + (lb - m[k].logical_block)) as u64),
        m[k].phys() + (lb - m[k].logical_block) < 0x1_0000_0001_0000,
{
    lemma_lookup_at(m, lb, k);
}

/// A block between two neighbouring extents is not mapped, nor is one before the first or
/// past the last.
pub proof fn lookup_between(m: Seq<EfsExtent>, lb: u32, k: int)
    requires
        valid_map(m),
        0 <= k <= m.len(),
        k > 0 ==> ext_end(m[k - 1]) <= lb,
        k < m.len() ==> lb < m[k].logical_block,
    ensures
        map_lookup(m, lb) is None,
{
    assert forall|j: int| 0 <= j < m.len() implies !((#[trigger] m[j]).logical_block <= lb
        < ext_end(m[j])) by {
        if j < k - 1 {
            assert(ext_end(m[j]) <= m[k - 1].logical_block);
        } else if j > k {
            assert(ext_end(m[k]) <= m[j].logical_block);
        }
    }
    lemma_lookup_none(m, lb);
}

/// A run says of several blocks what lookups say of each: a mapped run is contiguous, and
/// in a hole nothing is mapped.
pub proof fn run_agrees_with_lookup(m: Seq<EfsExtent>, lb: u32, j: int)
    requires
        valid_map(m),
        0 <= j,
        lb + j <= u32::MAX,
    ensures
        match map_run(m, lb) {
            BlockRun::Mapped { phys, blocks } => blocks > 0 && (j < blocks ==> map_lookup(
                m,
                (lb + j) as u32,
            ) == Some((phys + j) as u64) && phys + j < 0x1_0000_0001_0000),
            BlockRun::Hole { blocks } => match blocks {
                Some(n) => n > 0 && (j < n ==> map_lookup(m, (lb + j) as u32) is None),
                None => map_lookup(m, (lb + j) as u32) is None,
            },
        },
{
    lemma_position(m, lb, 0);
    let p = position(m, lb, 0);
    let b = (lb + j) as u32;
    if p > 0 && lb < ext_end(m[p - 1]) {
        assert(m[p - 1].logical_block <= lb);
        if b < ext_end(m[p - 1]) {
            lemma_lookup_at(m, b, p - 1);
        }
    } else {
        if p == m.len() || b < m[p].logical_block {
            assert forall|k: int| 0 <= k < m.len() implies !((#[trigger] m[k]).logical_block <= b
                < ext_end(m[k])) by {
                if k < p - 1 {
                    assert(ext_end(m[k]) <= m[p - 1].logical_block);
                    assert(m[p - 1].logical_block <= lb);
                } else if k > p {
                    assert(ext_end(m[p]) <= m[k].logical_block);
                }
            }
            lemma_lookup_none(m, b);
        }
    }
}

/// Fusing two neighbours changes what the list looks like, not what it maps.
proof fn lemma_merge(m: Seq<EfsExtent>, i: int, lb: u32)
    requires
        valid_map(m),
        0 <= i < m.len(),
    ensures
        valid_map(map_merge(m, i)),
        map_lookup(map_merge(m, i), lb) == map_lookup(m, lb),
{
    let r = map_merge(m, i);
    if i + 1 < m.len() && joins(m[i], m[i + 1]) {
        assert forall|k: int| 0 <= k < r.len() implies #[trigger] r[k] == (if k < i {
            m[k]
        } else if k == i {
            EfsExtent { length: (m[i].length + m[i + 1].length) as u16, ..m[i] }
        } else {
            m[k + 1]
        }) by {}
        assert(ext_end(r[i]) == ext_end(m[i + 1]));
        assert(valid_map(r));
        lemma_lookup_some(m, lb);
        if map_lookup(m, lb) is Some {
            let k = position(m, lb, 0) - 1;
            lemma_lookup_at(m, lb, k);
            if k < i {
                lemma_lookup_at(r, lb, k);
            } else if k <= i + 1 {
                lemma_lookup_at(r, lb, i);
            } else {
                lemma_lookup_at(r, lb, k - 1);
            }
        } else {
            assert forall|k: int| 0 <= k < r.len() implies !((#[trigger] r[k]).logical_block <= lb
                < ext_end(r[k])) by {
                if r[k].logical_block <= lb < ext_end(r[k]) {
                    if k < i {
                        lemma_lookup_at(m, lb, k);
                    } else if k == i {
                        if lb < ext_end(m[i]) {
                            lemma_lookup_at(m, lb, i);
                        } else {
                            lemma_lookup_at(m, lb, i + 1);
                        }
                    } else {
                        lemma_lookup_at(m, lb, k + 1);
                    }
                }
            }
            lemma_lookup_none(r, lb);
        }
    }
}

/// Mapping an unmapped block maps that block and leaves every other mapping as
/// it was.
#[verifier::spinoff_prover]
#[verifier::rlimit(60)]
pub proof fn insert_then_lookup(m: Seq<EfsExtent>, lb: u32, phys: u64, other: u32)
    requires
        valid_map(m),
        map_lookup(m, lb) is None,
        phys < 0x1_0000_0000_0000,
    ensures
        valid_map(map_insert(m, lb, phys)),
        map_lookup(map_insert(m, lb, phys), lb) == Some(phys),
        other != lb ==> map_lookup(map_insert(m, lb, phys), other) == map_lookup(m, other),
{
    lemma_position(m, lb, 0);
    let p = position(m, lb, 0);
    if p > 0 {
        assert(m[p - 1].logical_block <= lb);
    }
    assert(EfsExtent::make(lb, 1, phys).phys() == phys);
    if p > 0 && ext_end(m[p - 1]) == lb && phys_end(m[p - 1]) == phys && m[p - 1].length
        < MAX_EXTENT_LEN {
        let g = m.update(p - 1, EfsExtent { length: (m[p - 1].length + 1) as u16, ..m[p - 1] });
        assert(valid_map(g)) by {
            assert forall|i: int, j: int| 0 <= i < j < g.len() implies ext_end(#[trigger] g[i]) <= (
            #[trigger] g[j]).logical_block by {
                assert(ext_end(m[i]) <= m[j].logical_block);
                if i == p - 1 {
                    assert(m[p].logical_block > lb);
                    if j > p {
                        assert(ext_end(m[p]) <= m[j].logical_block);
                    }
                }
            }
        }
        lemma_grown(m, g, p - 1, lb, phys, other);
        lemma_merge(g, p - 1, lb);
        lemma_merge(g, p - 1, other);
    } else if p < m.len() && lb + 1 == m[p].logical_block && phys + 1 == m[p].phys() && m[p].length
        < MAX_EXTENT_LEN {
        let g = m.update(p, EfsExtent::make(lb, (m[p].length + 1) as u16, phys));
        assert(EfsExtent::make(lb, (m[p].length + 1) as u16, phys).phys() == phys);
        assert(valid_map(g)) by {
            assert forall|i: int, j: int| 0 <= i < j < g.len() implies ext_end(#[trigger] g[i]) <= (
            #[trigger] g[j]).logical_block by {
                assert(ext_end(m[i]) <= m[j].logical_block);
                if j == p && i < p {
                    if i < p - 1 {
                        assert(ext_end(m[i]) <= m[p - 1].logical_block);
                    }
                }
            }
        }
        lemma_grown(m, g, p, lb, phys, other);
        if p > 0 {
            lemma_merge(g, p - 1, lb);
            lemma_merge(g, p - 1, other);
        }
    } else {
        let n = EfsExtent::make(lb, 1, phys);
        let g = m.insert(p, n);
        assert forall|k: int| 0 <= k < g.len() implies #[trigger] g[k] == (if k < p {
            m[k]
        } else if k == p {
            n
        } else {
            m[k - 1]
        }) by {}
        assert(valid_map(g)) by {
            assert forall|i: int, j: int| 0 <= i < j < g.len() implies ext_end(#[trigger] g[i]) <= (
            #[trigger] g[j]).logical_block by {
                if i < p && j == p && i < p - 1 {
                    assert(ext_end(m[i]) <= m[p - 1].logical_block);
                }
                if i == p && j > p + 1 {
                    assert(ext_end(m[p]) <= m[j - 1].logical_block);
                }
            }
        }
        lemma_lookup_at(g, lb, p);
        if other != lb {
            lemma_lookup_some(m, other);
            if map_lookup(m, other) is Some {
                let k = position(m, other, 0) - 1;
                lemma_lookup_at(m, other, k);
                lemma_lookup_at(g, other, if k < p { k } else { k + 1 });
            } else {
                assert forall|k: int| 0 <= k < g.len() implies !((#[trigger] g[k]).logical_block
                    <= other < ext_end(g[k])) by {
                    if g[k].logical_block <= other < ext_end(g[k]) {
                        if k < p {
                            lemma_lookup_at(m, other, k);
                        } else if k > p {
                            lemma_lookup_at(m, other, k - 1);
                        }
                    }
                }
                lemma_lookup_none(g, other);
            }
        }
    }
}

/// Growing extent `q` of `m` by the one block `lb` into `g`.
proof fn lemma_grown(m: Seq<EfsExtent>, g: Seq<EfsExtent>, q: int, lb: u32, phys: u64, other: u32)
    requires
        valid_map(m),
        valid_map(g),
        map_lookup(m, lb) is None,
        0 <= q < m.len(),
        g == m.update(q, g[q]),
        ({
            ||| g[q].logical_block == m[q].logical_block && g[q].phys() == m[q].phys() && ext_end(
                m[q],
            ) == lb && ext_end(g[q]) == lb + 1 && phys_end(m[q]) == phys
            ||| g[q].logical_block == lb && ext_end(g[q]) == ext_end(m[q]) && m[q].logical_block
                == lb + 1 && g[q].phys() == phys && m[q].phys() == phys + 1
        }),
    ensures
        map_lookup(g, lb) == Some(phys),
        other != lb ==> map_lookup(g, other) == map_lookup(m, other),
{
    lemma_lookup_at(g, lb, q);
    if other != lb {
        lemma_lookup_some(m, other);
        if map_lookup(m, other) is Some {
            let k = position(m, other, 0) - 1;
            lemma_lookup_at(m, other, k);
            lemma_lookup_at(g, other, k);
        } else {
            assert forall|k: int| 0 <= k < g.len() implies !((#[trigger] g[k]).logical_block
                <= other < ext_end(g[k])) by {
                if g[k].logical_block <= other < ext_end(g[k]) {
                    lemma_lookup_at(m, other, k);
                }
            }
            lemma_lookup_none(g, other);
        }
    }
}

proof fn lemma_blocks_join(a: Seq<EfsExtent>, b: Seq<EfsExtent>)
    ensures
        map_blocks(a + b) == map_blocks(a) + map_blocks(b),
    decreases b.len(),
{
    if b.len() == 0 {
        assert(a + b =~= a);
    } else {
        assert((a + b).drop_last() =~= a + b.drop_last());
        lemma_blocks_join(a, b.drop_last());
    }
}

/// The blocks of a map, with the extent at `i` counted apart.
proof fn lemma_blocks_at(m: Seq<EfsExtent>, i: int)
    requires
        0 <= i < m.len(),
    ensures
        map_blocks(m) == map_blocks(m.take(i)) + m[i].length + map_blocks(m.skip(i + 1)),
{
    assert(m =~= m.take(i) + seq![m[i]] + m.skip(i + 1));
    lemma_blocks_join(m.take(i) + seq![m[i]], m.skip(i + 1));
    lemma_blocks_join(m.take(i), seq![m[i]]);
    assert(seq![m[i]].drop_last() =~= Seq::<EfsExtent>::empty());
    assert(map_blocks(seq![m[i]]) == m[i].length) by {
        reveal_with_fuel(map_blocks, 2);
    }
}

proof fn lemma_blocks_update(m: Seq<EfsExtent>, i: int, e: EfsExtent)
    requires
        0 <= i < m.len(),
    ensures
        map_blocks(m.update(i, e)) == map_blocks(m) - m[i].length + e.length,
{
    let g = m.update(i, e);
    lemma_blocks_at(m, i);
    lemma_blocks_at(g, i);
    assert(g.take(i) =~= m.take(i));
    assert(g.skip(i + 1) =~= m.skip(i + 1));
}

/// Whether every extent of a map is short enough for its length field.
pub open spec fn short(m: Seq<EfsExtent>) -> bool {
    forall|i: int| 0 <= i < m.len() ==> (#[trigger] m[i]).length <= MAX_EXTENT_LEN
}

proof fn lemma_merge_counts(m: Seq<EfsExtent>, i: int)
    requires
        0 <= i,
        short(m),
    ensures
        map_blocks(map_merge(m, i)) == map_blocks(m),
        short(map_merge(m, i)),
        map_merge(m, i).len() <= m.len(),
{
    if i + 1 < m.len() && joins(m[i], m[i + 1]) {
        let g = m.update(
            i,
            EfsExtent { length: (m[i].length + m[i + 1].length) as u16, ..m[i] },
        );
        let r = g.remove(i + 1);
        lemma_blocks_update(m, i, g[i]);
        lemma_blocks_at(g, i + 1);
        lemma_blocks_join(g.take(i + 1), g.skip(i + 2));
        assert(r =~= g.take(i + 1) + g.skip(i + 2));
        assert forall|k: int| 0 <= k < r.len() implies (#[trigger] r[k]).length
            <= MAX_EXTENT_LEN by {
            assert(r[k] == g[if k <= i { k } else { k + 1 }]);
        }
    }
}

/// Whether extent `e` can take the pair in: the pair follows it or precedes it
/// in both spaces, and it has room for one block more.
pub open spec fn adjoins(e: EfsExtent, lb: u32, phys: u64) -> bool {
    &&& e.length < MAX_EXTENT_LEN
    &&& (ext_end(e) == lb && phys_end(e) == phys) || (lb + 1 == e.logical_block && phys + 1
        == e.phys())
}

/// Mapping a block adds one block to the map and keeps every extent within the
/// longest length; it adds an extent exactly if no extent could take the block
/// in.
#[verifier::spinoff_prover]
#[verifier::rlimit(40)]
pub proof fn insert_adds_one_block(m: Seq<EfsExtent>, lb: u32, phys: u64)
    requires
        valid_map(m),
        short(m),
        map_lookup(m, lb) is None,
        phys < 0x1_0000_0000_0000,
    ensures
        map_blocks(map_insert(m, lb, phys)) == map_blocks(m) + 1,
        short(map_insert(m, lb, phys)),
        (exists|i: int| 0 <= i < m.len() && adjoins(#[trigger] m[i], lb, phys)) ==> map_insert(
            m,
            lb,
            phys,
        ).len() <= m.len(),
        !(exists|i: int| 0 <= i < m.len() && adjoins(#[trigger] m[i], lb, phys)) ==> map_insert(
            m,
            lb,
            phys,
        ).len() == m.len() + 1,
{
    lemma_position(m, lb, 0);
    let p = position(m, lb, 0);
    if p > 0 && adjoins(m[p - 1], lb, phys) && ext_end(m[p - 1]) == lb {
        let g = m.update(p - 1, EfsExtent { length: (m[p - 1].length + 1) as u16, ..m[p - 1] });
        lemma_blocks_update(m, p - 1, g[p - 1]);
        lemma_merge_counts(g, p - 1);
    } else if p < m.len() && adjoins(m[p], lb, phys) {
        assert(lb + 1 == m[p].logical_block);
        let g = m.update(p, EfsExtent::make(lb, (m[p].length + 1) as u16, phys));
        lemma_blocks_update(m, p, g[p]);
        if p > 0 {
            lemma_merge_counts(g, p - 1);
        }
    } else {
        let e = EfsExtent::make(lb, 1, phys);
        let g = m.insert(p, e);
        assert(g[p] == e);
        lemma_blocks_at(g, p);
        assert(g.take(p) =~= m.take(p));
        assert(g.skip(p + 1) =~= m.skip(p));
        lemma_blocks_join(m.take(p), m.skip(p));
        assert(m =~= m.take(p) + m.skip(p));
        assert forall|k: int| 0 <= k < g.len() implies (#[trigger] g[k]).length
            <= MAX_EXTENT_LEN by {
            if k < p {
                assert(g[k] == m[k]);
            } else if k > p {
                assert(g[k] == m[k - 1]);
            }
        }
        assert forall|i: int| 0 <= i < m.len() implies !adjoins(#[trigger] m[i], lb, phys) by {
            if i < p - 1 {
                assert(ext_end(m[i]) <= m[p - 1].logical_block);
            } else if i > p {
                assert(ext_end(m[p]) <= m[i].logical_block);
            }
        }
    }
}

impl ExtentMap {
    /// The map that `extents`, already in logical order, describes.
    pub fn from_sorted(extents: Vec<EfsExtent>) -> (r: ExtentMap)
        ensures
            r@ == extents@,
    {
        ExtentMap { extents }
    }

    /// The extents, in order.
    pub fn as_slice(&self) -> (r: &[EfsExtent])
        ensures
            r@ == self@,
    {
        self.extents.as_slice()
    }

    /// How many extents there are.
    pub fn len(&self) -> (n: usize)
        ensures
            n == self@.len(),
    {
        self.extents.len()
    }

    /// Total data blocks mapped.
    pub fn block_count(&self) -> (n: u64)
        requires
            self@.len() <= u32::MAX,
        ensures
            n == map_blocks(self@),
    {
        let mut n: u64 = 0;
        let mut i: usize = 0;
        assert(self@.take(0) =~= Seq::<EfsExtent>::empty());
        while i < self.extents.len()
            invariant
                i <= self@.len() <= u32::MAX,
                n == map_blocks(self@.take(i as int)),
                n <= i * 0xFFFF,
            decreases self@.len() - i,
        {
            proof {
                assert(self@.take(i + 1).drop_last() =~= self@.take(i as int));
            }
            n = n + self.extents[i].length as u64;
            i = i + 1;
        }
        assert(self@.take(self@.len() as int) =~= self@);
        n
    }

    fn find(&self, lb: u32) -> (p: usize)
        ensures
            p == position(self@, lb, 0),
            p <= self@.len(),
            p > 0 ==> self@[p - 1].logical_block <= lb,
            p < self@.len() ==> self@[p as int].logical_block > lb,
    {
        let mut p: usize = 0;
        while p < self.extents.len() && self.extents[p].logical_block <= lb
            invariant
                p <= self@.len(),
                position(self@, lb, 0) == position(self@, lb, p as int),
                p > 0 ==> self@[p - 1].logical_block <= lb,
            decreases self@.len() - p,
        {
            p = p + 1;
        }
        p
    }

    /// Physical block backing `lb`, if it is mapped.
    pub fn lookup(&self, lb: u32) -> (r: Option<u64>)
        ensures
            r == map_lookup(self@, lb),
    {
        let p: usize = self.find(lb);
        if p > 0 {
            let e = self.extents[p - 1];
            if (lb as u64) < e.logical_block as u64 + e.length as u64 {
                return Some(e.physical_start() + (lb - e.logical_block) as u64);
            }
        }
        None
    }

    /// What backs the run of blocks starting at `lb`. A file may have holes,
    /// which read as zeros.
    pub fn run_at(&self, lb: u32) -> (r: BlockRun)
        ensures
            r == map_run(self@, lb),
            r matches BlockRun::Mapped { phys, blocks } ==> blocks > 0 && phys < 0x2_0000_0000_0000,
            r matches BlockRun::Hole { blocks: Some(n) } ==> n > 0,
    {
        let p: usize = self.find(lb);
        if p > 0 {
            let e = self.extents[p - 1];
            let end: u64 = e.logical_block as u64 + e.length as u64;
            if (lb as u64) < end {
                return BlockRun::Mapped {
                    phys: e.physical_start() + (lb - e.logical_block) as u64,
                    blocks: (end - lb as u64) as u32,
                };
            }
        }
        if p < self.extents.len() {
            BlockRun::Hole { blocks: Some(self.extents[p].logical_block - lb) }
        } else {
            BlockRun::Hole { blocks: None }
        }
    }

    /// Where on disk the extent that precedes `lb` ends, which is where a block
    /// for `lb` would best be allocated.
    pub fn goal_for(&self, lb: u32) -> (r: Option<u64>)
        ensures
            r == map_goal(self@, lb),
    {
        let p: usize = self.find(lb);
        if p > 0 {
            let e = self.extents[p - 1];
            Some(e.physical_start() + e.length as u64)
        } else {
            None
        }
    }

    /// Records `lb -> phys`, extending an adjacent extent when the pair is
    /// contiguous in both spaces and inserting a new one otherwise.
    pub fn insert(&mut self, lb: u32, phys: u64)
        ensures
            final(self)@ == map_insert(old(self)@, lb, phys),
    {
        let p: usize = self.find(lb);
        if p > 0 {
            let e = self.extents[p - 1];
            if e.logical_block as u64 + e.length as u64 == lb as u64 && e.physical_start()
                + e.length as u64 == phys && e.length < MAX_EXTENT_LEN {
                self.extents[p - 1] = EfsExtent { length: e.length + 1, ..e };
                self.merge_forward(p - 1);
                return;
            }
        }
        if p < self.extents.len() {
            let e = self.extents[p];
            if lb + 1 == e.logical_block && e.physical_start() > 0 && phys == e.physical_start() - 1
                && e.length < MAX_EXTENT_LEN {
                self.extents[p] = EfsExtent::build(lb, e.length + 1, phys);
                if p > 0 {
                    self.merge_forward(p - 1);
                }
                return;
            }
        }
        self.extents.insert(p, EfsExtent::build(lb, 1, phys));
    }

    /// Fuses extent `i` with its successor when the two have become adjacent.
    fn merge_forward(&mut self, i: usize)
        requires
            i < old(self)@.len(),
        ensures
            final(self)@ == map_merge(old(self)@, i as int),
    {
        if self.extents.len() - i <= 1 {
            return;
        }
        let cur = self.extents[i];
        let next = self.extents[i + 1];
        if cur.logical_block as u64 + cur.length as u64 == next.logical_block as u64
            && cur.physical_start() + cur.length as u64 == next.physical_start() && cur.length as u32
            + next.length as u32 <= MAX_EXTENT_LEN as u32 {
            self.extents[i] = EfsExtent { length: cur.length + next.length, ..cur };
            self.extents.remove(i + 1);
        }
    }
}

} // verus!
