//! What a prefetch plan promises: it reads the blocks that the window maps, each once, and
//! leaves none out as far as it reaches.
use vstd::prelude::*;
use super::extents;
use super::extents::BlockRun;
use super::layout::EfsExtent;
use super::model;
use super::model::PlannedRun;

verus! {

/// Whether a run reads the block that belongs `d` pages behind its start.
pub open spec fn reads_block(
    m: Seq<EfsExtent>,
    start: int,
    first: u32,
    r: PlannedRun,
    d: int,
) -> bool {
    extents::map_lookup(m, (first + r.page_offset + d) as u32) matches Some(p) && r.lba + 8 * d
        == start + 8 * p
}

/// Whether a run reads only blocks that are mapped, each for its own page, and its sectors are
/// those of its blocks.
pub open spec fn reads_mapped(m: Seq<EfsExtent>, start: int, first: u32, r: PlannedRun) -> bool {
    &&& r.sectors == 8 * r.blocks
    &&& 0 < r.blocks <= model::MAX_RUN_BLOCKS
    &&& forall|d: int| 0 <= d < r.blocks ==> #[trigger] reads_block(m, start, first, r, d)
}

/// Whether a run covers the page `d` pages behind the start of the window.
pub open spec fn covers(r: PlannedRun, d: int) -> bool {
    r.page_offset <= d < r.page_offset + r.blocks
}

/// Whether runs leave out no block that is mapped below `at`.
pub open spec fn complete(
    m: Seq<EfsExtent>,
    first: u32,
    at: int,
    runs: Seq<PlannedRun>,
) -> bool {
    forall|lb: u32|
        first <= lb < at && (#[trigger] extents::map_lookup(m, lb)) is Some ==> exists|i: int|
            0 <= i < runs.len() && covers(#[trigger] runs[i], lb - first)
}

/// Whether each run starts where the one before it ends, or later.
pub open spec fn in_line(runs: Seq<PlannedRun>, reach: int) -> bool {
    &&& forall|i: int, j: int|
        0 <= i < j < runs.len() ==> (#[trigger] runs[i]).page_offset + runs[i].blocks <= (
        #[trigger] runs[j]).page_offset
    &&& forall|i: int|
        0 <= i < runs.len() ==> (#[trigger] runs[i]).page_offset + runs[i].blocks <= reach
}

/// One more run.
#[verifier::spinoff_prover]
proof fn lemma_run_added(
    m: Seq<EfsExtent>,
    start: int,
    first: u32,
    at: u32,
    n: int,
    phys: u64,
    blocks: u32,
    acc: Seq<PlannedRun>,
    r: PlannedRun,
)
    requires
        extents::valid_map(m),
        0 <= start <= 0x1000_0000_0000_0000,
        first <= at,
        extents::map_run(m, at) == (BlockRun::Mapped { phys, blocks }),
        0 < n <= blocks,
        n <= model::MAX_RUN_BLOCKS,
        at + n <= u32::MAX,
        r == (PlannedRun {
            lba: (start + phys * 8) as u64,
            sectors: (n * 8) as u32,
            page_offset: (at - first) as u64,
            blocks: n as u32,
        }),
        forall|i: int| 0 <= i < acc.len() ==> reads_mapped(m, start, first, #[trigger] acc[i]),
        complete(m, first, at as int, acc),
        in_line(acc, at - first),
    ensures
        forall|i: int|
            0 <= i < acc.push(r).len() ==> reads_mapped(m, start, first, #[trigger] acc.push(r)[i]),
        complete(m, first, at + n, acc.push(r)),
        in_line(acc.push(r), at + n - first),
{
    let all = acc.push(r);
    assert(reads_mapped(m, start, first, r)) by {
        assert forall|d: int| 0 <= d < r.blocks implies #[trigger] reads_block(
            m,
            start,
            first,
            r,
            d,
        ) by {
            extents::run_agrees_with_lookup(m, at, 0);
            extents::run_agrees_with_lookup(m, at, d);
            assert(first + r.page_offset + d == at + d);
        }
    }
    assert forall|i: int| 0 <= i < all.len() implies reads_mapped(
        m,
        start,
        first,
        #[trigger] all[i],
    ) by {
        if i < acc.len() {
            assert(all[i] == acc[i]);
        }
    }
    assert forall|lb: u32|
        first <= lb < at + n && (#[trigger] extents::map_lookup(m, lb)) is Some implies exists|
        i: int,
    |
        0 <= i < all.len() && covers(#[trigger] all[i], lb - first) by {
        if lb < at {
            let i = choose|i: int| 0 <= i < acc.len() && covers(#[trigger] acc[i], lb - first);
            assert(all[i] == acc[i]);
        } else {
            assert(all[acc.len() as int] == r);
            assert(covers(r, lb - first));
        }
    }
    assert forall|i: int, j: int| 0 <= i < j < all.len() implies (#[trigger] all[i]).page_offset
        + all[i].blocks <= (#[trigger] all[j]).page_offset by {
        assert(all[i] == acc[i]);
        if j < acc.len() {
            assert(all[j] == acc[j]);
        }
    }
    assert forall|i: int| 0 <= i < all.len() implies (#[trigger] all[i]).page_offset
        + all[i].blocks <= at + n - first by {
        if i < acc.len() {
            assert(all[i] == acc[i]);
        }
    }
}

#[verifier::spinoff_prover]
#[verifier::rlimit(40)]
proof fn lemma_plan(
    m: Seq<EfsExtent>,
    start: int,
    first: u32,
    at: u32,
    end: u32,
    acc: Seq<PlannedRun>,
)
    requires
        extents::valid_map(m),
        0 <= start <= 0x1000_0000_0000_0000,
        first <= at,
        at <= end || at == first,
        forall|i: int| 0 <= i < acc.len() ==> reads_mapped(m, start, first, #[trigger] acc[i]),
        complete(m, first, at as int, acc),
        in_line(acc, at - first),
    ensures
        ({
            let (runs, reach) = model::plan_prefetch(m, start, first, at, end, acc);
            &&& forall|i: int|
                0 <= i < runs.len() ==> reads_mapped(m, start, first, #[trigger] runs[i])
            &&& complete(m, first, reach as int, runs)
            &&& in_line(runs, reach - first)
            &&& reach <= end || reach == first
        }),
    decreases end - at,
{
    if at < end {
        let want = end - at;
        match extents::map_run(m, at) {
            BlockRun::Mapped { phys, blocks } => {
                let n = model::min(
                    model::min(want, blocks as int),
                    model::MAX_RUN_BLOCKS as int,
                );
                if !(acc.len() == model::MAX_PREFETCH_RUNS || n <= 0) {
                    let r = PlannedRun {
                        lba: (start + phys * 8) as u64,
                        sectors: (n * 8) as u32,
                        page_offset: (at - first) as u64,
                        blocks: n as u32,
                    };
                    lemma_run_added(m, start, first, at, n, phys, blocks, acc, r);
                    lemma_plan(m, start, first, (at + n) as u32, end, acc.push(r));
                }
            },
            BlockRun::Hole { blocks } => {
                let n = match blocks {
                    Some(b) => model::min(b as int, want),
                    None => want,
                };
                if n > 0 {
                    assert(complete(m, first, at + n, acc)) by {
                        assert forall|lb: u32|
                            first <= lb < at + n && (#[trigger] extents::map_lookup(m, lb)) is Some
                                implies exists|i: int|
                            0 <= i < acc.len() && covers(#[trigger] acc[i], lb - first) by {
                            if lb >= at {
                                extents::run_agrees_with_lookup(m, at, lb - at);
                                assert((at + (lb - at)) as u32 == lb);
                            }
                        }
                    }
                    lemma_plan(m, start, first, (at + n) as u32, end, acc);
                }
            },
        }
    }
}

/// A plan reads the blocks that the window maps, one after the other and each for its own
/// page, and leaves out none before the point it reaches.
pub proof fn plan_reads_what_is_mapped(m: Seq<EfsExtent>, start: int, first: u32, end: u32)
    requires
        extents::valid_map(m),
        0 <= start <= 0x1000_0000_0000_0000,
    ensures
        ({
            let (runs, reach) = model::plan_prefetch(m, start, first, first, end, Seq::empty());
            &&& forall|i: int|
                0 <= i < runs.len() ==> reads_mapped(m, start, first, #[trigger] runs[i])
            &&& complete(m, first, reach as int, runs)
            &&& in_line(runs, reach - first)
        }),
{
    lemma_plan(m, start, first, first, end, Seq::empty());
}

} // verus!
