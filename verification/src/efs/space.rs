//! What the allocator promises: the blocks it gives out were free, and those given back are.
use vstd::prelude::*;
use crate::block_device;
use crate::error::Error;
use super::bitmap;
use super::contents;
use super::dirmodel;
use super::layout::{EfsExtent, InodeView};
use super::model;
use super::model::FsState;

verus! {

/// What holds after blocks have been taken: they are different ones, they were free and are not
/// any more, nothing else became free or taken, and only bitmaps were written.
pub open spec fn taken_from(a: FsState, z: FsState, bs: Seq<u64>) -> bool {
    &&& contents::same_shape(a, z)
    &&& z.sb.free_blocks == model::sub64(a.sb.free_blocks, bs.len() as int)
    &&& bs.no_duplicates()
    &&& forall|i: int|
        0 <= i < bs.len() ==> !contents::kept(a, (#[trigger] bs[i]) as int) && contents::kept(
            z,
            bs[i] as int,
        )
    &&& forall|c: int| #[trigger] contents::kept(z, c) && !contents::kept(a, c) ==> exists|i: int|
        0 <= i < bs.len() && #[trigger] bs[i] == c
    &&& forall|c: int| contents::kept(a, c) ==> #[trigger] contents::kept(z, c)
    &&& forall|x: int|
        model::has_block(a, x) && !contents::is_bitmap(a, x) ==> #[trigger] contents::block(z, x)
            == contents::block(a, x)
}

/// What the bits of a bitmap mean after a run of them has been taken.
#[verifier::spinoff_prover]
#[verifier::rlimit(40)]
proof fn lemma_bits(st: FsState, z: FsState, g: int, bit: int, len: int, c: int)
    requires
        model::mounted(st),
        contents::bitmaps_apart(st),
        0 <= g < st.bgds.len(),
        model::has_block(st, contents::bitmap_of(st, g)),
        0 <= bit,
        0 < len,
        bit + len <= model::usable_bits(st.sb.blocks_per_group),
        contents::same_shape(st, z),
        z.pages == st.pages.update(
            st.base + contents::bitmap_of(st, g),
            bitmap::with_run(contents::block(st, contents::bitmap_of(st, g)), bit, len),
        ),
    ensures
        contents::kept(z, c) == (contents::kept(st, c) || g * st.sb.blocks_per_group + bit <= c < g
            * st.sb.blocks_per_group + bit + len),
        bit <= c - g * st.sb.blocks_per_group < bit + len && !bitmap::taken(
            contents::block(st, contents::bitmap_of(st, g)),
            c - g * st.sb.blocks_per_group,
        ) ==> !contents::kept(st, c),
{
    let bpg = st.sb.blocks_per_group as int;
    let map = contents::block(st, contents::bitmap_of(st, g));
    assert(map.len() == 4096);
    assert(0 <= g * bpg) by (nonlinear_arith)
        requires
            0 <= g,
            0 <= bpg,
    ;
    if c >= 0 {
        let h = c / bpg;
        let k = c % bpg;
        contents::lemma_split(c, bpg);
        if g * bpg + bit <= c < g * bpg + bit + len {
            contents::lemma_join(g, c - g * bpg, bpg);
        }
        if h < st.bgds.len() {
            assert(contents::bitmap_of(z, h) == contents::bitmap_of(st, h));
            if h == g {
                if k < model::usable_bits(st.sb.blocks_per_group) {
                    bitmap::run_updates(map, bit, len, k);
                }
            } else {
                assert(contents::bitmap_of(st, h) != contents::bitmap_of(st, g));
            }
        }
    }
}

#[verifier::spinoff_prover]
#[verifier::rlimit(40)]
proof fn lemma_claim_run(st: FsState, g: int, bit: int, len: int)
    requires
        model::mounted(st),
        contents::bitmaps_apart(st),
        0 <= g < st.bgds.len(),
        model::has_block(st, contents::bitmap_of(st, g)),
        0 <= bit,
        0 < len,
        bit + len <= model::usable_bits(st.sb.blocks_per_group),
        forall|j: int|
            bit <= j < bit + len ==> !#[trigger] bitmap::taken(
                contents::block(st, contents::bitmap_of(st, g)),
                j,
            ),
    ensures
        ({
            let map = contents::block(st, contents::bitmap_of(st, g));
            let (z, r) = model::claim_run(st, g, map, bit, len);
            &&& r matches Ok(bs)
            &&& bs.len() == len
            &&& taken_from(st, z, bs)
        }),
{
    reveal(model::claim_run);
    let map = contents::block(st, contents::bitmap_of(st, g));
    let bpg = st.sb.blocks_per_group as int;
    let (z, r) = model::claim_run(st, g, map, bit, len);
    let bs = r->Ok_0;
    let first = g * bpg + bit;
    let w = bitmap::with_run(map, bit, len);
    bitmap::run_updates(map, bit, len, bit);
    assert(0 <= g * bpg) by (nonlinear_arith)
        requires
            0 <= g,
            0 <= bpg,
    ;
    assert(g * bpg <= 0xFFFF_FFFF * 0xFFFF_FFFF) by (nonlinear_arith)
        requires
            0 <= g <= 0xFFFF_FFFF,
            0 <= bpg <= 0xFFFF_FFFF,
    ;
    assert(z.pages =~= st.pages.update(st.base + contents::bitmap_of(st, g), w));
    assert(block_device::full_pages(z.pages)) by {
        assert forall|k: int| 0 <= k < z.pages.len() implies (#[trigger] z.pages[k]).len()
            == block_device::PAGE_SIZE by {
            assert(st.pages[k].len() == block_device::PAGE_SIZE);
        }
    }
    assert(contents::same_shape(st, z));
    assert(bs == model::block_seq(first, len));
    assert forall|i: int| 0 <= i < bs.len() implies !contents::kept(st, (#[trigger] bs[i]) as int)
        && contents::kept(z, bs[i] as int) by {
        assert(bs[i] == first + i);
        lemma_bits(st, z, g, bit, len, first + i);
        assert(!bitmap::taken(map, bit + i));
    }
    assert forall|c: int| #[trigger]
        contents::kept(z, c) && !contents::kept(st, c) implies exists|i: int|
        0 <= i < bs.len() && #[trigger] bs[i] == c by {
        lemma_bits(st, z, g, bit, len, c);
        assert(bs[c - first] == c);
    }
    assert forall|c: int| contents::kept(st, c) implies #[trigger] contents::kept(z, c) by {
        lemma_bits(st, z, g, bit, len, c);
    }
    assert forall|x: int| model::has_block(st, x) && !contents::is_bitmap(st, x) implies
        #[trigger] contents::block(z, x) == contents::block(st, x) by {
        if x == contents::bitmap_of(st, g) {
            assert(contents::is_bitmap(st, x));
        }
    }
}

#[verifier::spinoff_prover]
#[verifier::rlimit(40)]
proof fn lemma_fit(st: FsState, first: int, i: int, want: int)
    requires
        model::mounted(st),
        contents::bitmaps_apart(st),
        0 <= first,
        0 <= i,
        0 < want,
        model::first_fit(st, first, i, want).1 is Ok,
    ensures
        ({
            let (z, r) = model::first_fit(st, first, i, want);
            &&& 0 < r->Ok_0.len() <= want
            &&& taken_from(st, z, r->Ok_0)
        }),
    decreases st.bgds.len() - i,
{
    let g = (first + i) % st.bgds.len() as int;
    assert(i < st.bgds.len());
    contents::lemma_split(first + i, st.bgds.len() as int);
    if st.bgds[g].free_blocks_count == 0 {
        lemma_fit(st, first, i + 1, want);
    } else {
        let bb = contents::bitmap_of(st, g);
        let map = contents::block(st, bb);
        let bits = model::usable_bits(st.sb.blocks_per_group);
        let here = model::want_here(st, g, want);
        assert(model::has_block(st, bb));
        bitmap::best_run_is_free(map, bits, here, 0, None);
        match bitmap::best_run(map, bits, here, 0, None) {
            Some((bit, len)) => {
                lemma_claim_run(st, g, bit, len);
            },
            None => {
                lemma_fit(st, first, i + 1, want);
            },
        }
    }
}

/// Blocks that are allocated were free and are taken afterwards, no more of them than were
/// asked for; nothing else becomes free or taken, and no block but a bitmap is written.
#[verifier::spinoff_prover]
#[verifier::rlimit(40)]
pub proof fn allocated_were_free(st: FsState, want: int, goal: Option<u64>)
    requires
        model::mounted(st),
        contents::bitmaps_apart(st),
        0 < want,
        model::alloc_blocks(st, want, goal).1 is Ok,
    ensures
        ({
            let (z, r) = model::alloc_blocks(st, want, goal);
            &&& 0 < r->Ok_0.len() <= want
            &&& taken_from(st, z, r->Ok_0)
        }),
{
    reveal(model::alloc_blocks);
    let bits = model::usable_bits(st.sb.blocks_per_group);
    match model::goal_group(st, goal) {
        None => {
            lemma_fit(st, 0, 0, want);
        },
        Some(g) => {
            let b = goal->Some_0 as int;
            contents::lemma_split(b, st.sb.blocks_per_group as int);
            let bit = b % st.sb.blocks_per_group as int;
            if st.bgds[g].free_blocks_count > 0 && bit < bits {
                let map = contents::block(st, contents::bitmap_of(st, g));
                let here = model::want_here(st, g, want);
                let len = bitmap::run_length(map, bits, here, bit);
                bitmap::run_length_is_free(map, bits, here, bit);
                assert(model::has_block(st, contents::bitmap_of(st, g)));
                if len > 0 {
                    lemma_claim_run(st, g, bit, len);
                } else {
                    lemma_fit(st, g, 0, want);
                }
            } else {
                lemma_fit(st, g, 0, want);
            }
        },
    }
}

/// A block that is freed is free afterwards, and its copies in the journal are revoked; nothing
/// else becomes free or taken, and no block but a bitmap is written.
#[verifier::spinoff_prover]
#[verifier::rlimit(40)]
pub proof fn freed_is_free(st: FsState, b: u64)
    requires
        model::mounted(st),
        contents::bitmaps_apart(st),
        (b as int) % (st.sb.blocks_per_group as int) < model::usable_bits(st.sb.blocks_per_group),
        model::free_block(st, b).1 is Ok,
    ensures
        ({
            let z = model::free_block(st, b).0;
            &&& contents::same_shape(st, z)
            &&& z.sb.free_blocks == model::inc64(st.sb.free_blocks)
            &&& !contents::kept(z, b as int)
            &&& z.revokes == st.revokes.insert((st.base + b) as u64)
            &&& forall|c: int|
                c != b ==> #[trigger] contents::kept(z, c) == contents::kept(st, c)
            &&& forall|x: int|
                model::has_block(st, x) && !contents::is_bitmap(st, x)
                    ==> #[trigger] contents::block(z, x) == contents::block(st, x)
        }),
{
    reveal(model::free_block);
    let bpg = st.sb.blocks_per_group as int;
    let g = b as int / bpg;
    let bit = b as int % bpg;
    contents::lemma_split(b as int, bpg);
    let z = model::free_block(st, b).0;
    let bb = contents::bitmap_of(st, g);
    let map = contents::block(st, bb);
    assert(map.len() == 4096);
    let w = bitmap::without_bit(map, bit);
    bitmap::bit_updates(map, bit, bit);
    assert(z.pages =~= st.pages.update(st.base + bb, w));
    assert(block_device::full_pages(z.pages)) by {
        assert forall|k: int| 0 <= k < z.pages.len() implies (#[trigger] z.pages[k]).len()
            == block_device::PAGE_SIZE by {
            assert(st.pages[k].len() == block_device::PAGE_SIZE);
        }
    }
    assert(contents::same_shape(st, z));
    assert(contents::bitmap_of(z, g) == bb);
    assert forall|c: int| c != b implies #[trigger] contents::kept(z, c) == contents::kept(st, c) by {
        if c >= 0 {
            let h = c / bpg;
            let k = c % bpg;
            contents::lemma_split(c, bpg);
            if h < st.bgds.len() {
                assert(contents::bitmap_of(z, h) == contents::bitmap_of(st, h));
                if h == g {
                    assert(k != bit);
                    if k < model::usable_bits(st.sb.blocks_per_group) {
                        bitmap::bit_updates(map, bit, k);
                    }
                } else {
                    assert(contents::bitmap_of(st, h) != contents::bitmap_of(st, g));
                }
            }
        }
    }
    assert forall|x: int| model::has_block(st, x) && !contents::is_bitmap(st, x) implies
        #[trigger] contents::block(z, x) == contents::block(st, x) by {
        if x == contents::bitmap_of(st, g) {
            assert(contents::is_bitmap(st, x));
        }
    }
}

// ---- Inodes -----------------------------------------------------------------------------------

/// Whether inode `ino` is marked as in use in the block that was its bitmap in `st`.
pub open spec fn inode_marked(st: FsState, z: FsState, ino: u64) -> bool {
    let g = (ino - 1) / st.sb.inodes_per_group as int;
    bitmap::taken(
        contents::block(z, st.bgds[g].inode_bitmap_block as int),
        (ino - 1) % st.sb.inodes_per_group as int,
    )
}

#[verifier::spinoff_prover]
#[verifier::rlimit(40)]
proof fn lemma_inode_from(st: FsState, g: int)
    requires
        model::mounted(st),
        0 <= g,
        st.sb.inodes_per_group * st.bgds.len() < u64::MAX,
        model::alloc_inode_from(st, g).1 is Ok,
    ensures
        ({
            let (z, r) = model::alloc_inode_from(st, g);
            let ino = r->Ok_0;
            &&& 0 < ino
            &&& (ino - 1) / st.sb.inodes_per_group as int >= g
            &&& (ino - 1) / (st.sb.inodes_per_group as int) < st.bgds.len()
            &&& !inode_marked(st, st, ino)
            &&& inode_marked(st, z, ino)
            &&& z.sb.free_inodes == model::sub64(st.sb.free_inodes, 1)
            &&& z.sb.free_blocks == st.sb.free_blocks
        }),
    decreases st.bgds.len() - g,
{
    let ipg = st.sb.inodes_per_group as int;
    let d = st.bgds[g];
    if d.free_inodes_count == 0 {
        lemma_inode_from(st, g + 1);
    } else {
        let map = contents::block(st, d.inode_bitmap_block as int);
        let bits = model::usable_bits(st.sb.inodes_per_group);
        bitmap::first_free_is_free(map, 0, bits);
        match bitmap::first_free(map, 0, bits) {
            None => lemma_inode_from(st, g + 1),
            Some(bit) => {
                assert(map.len() == 4096);
                bitmap::bit_updates(map, bit, bit);
                let z = model::alloc_inode_from(st, g).0;
                let n = g * ipg + bit;
                assert(g * ipg + ipg <= st.bgds.len() * ipg) by (nonlinear_arith)
                    requires
                        g + 1 <= st.bgds.len(),
                        ipg > 0,
                ;
                assert(0 <= g * ipg) by (nonlinear_arith)
                    requires
                        g >= 0,
                        ipg > 0,
                ;
                assert(st.bgds.len() * ipg == ipg * st.bgds.len()) by (nonlinear_arith);
                contents::lemma_join(g, bit, ipg);
                let ino = model::alloc_inode_from(st, g).1->Ok_0;
                assert(ino - 1 == n);
                assert(contents::block(z, d.inode_bitmap_block as int) == bitmap::with_bit(map, bit));
            },
        }
    }
}

/// An inode that is taken was free and is in use afterwards, and one less is free.
pub proof fn taken_inode_was_free(st: FsState)
    requires
        model::mounted(st),
        st.sb.inodes_per_group * st.bgds.len() < u64::MAX,
        model::alloc_inode(st).1 is Ok,
    ensures
        ({
            let (z, r) = model::alloc_inode(st);
            &&& r->Ok_0 > 0
            &&& !inode_marked(st, st, r->Ok_0)
            &&& inode_marked(st, z, r->Ok_0)
            &&& z.sb.free_inodes == model::sub64(st.sb.free_inodes, 1)
            &&& z.sb.free_blocks == st.sb.free_blocks
        }),
{
    reveal(model::alloc_inode);
    lemma_inode_from(st, 0);
}

/// An inode that is given back is free afterwards, and one more is free.
pub proof fn freed_inode_is_free(st: FsState, ino: u64)
    requires
        model::mounted(st),
        model::free_inode(st, ino).1 is Ok,
    ensures
        ({
            let z = model::free_inode(st, ino).0;
            &&& !inode_marked(st, z, ino)
            &&& z.sb.free_inodes == model::inc64(st.sb.free_inodes)
            &&& z.sb.free_blocks == st.sb.free_blocks
        }),
{
    reveal(model::free_inode);
    contents::lemma_split(ino - 1, st.sb.inodes_per_group as int);
    let g = (ino - 1) / st.sb.inodes_per_group as int;
    let bit = (ino - 1) % st.sb.inodes_per_group as int;
    let map = contents::block(st, st.bgds[g].inode_bitmap_block as int);
    assert(map.len() == 4096);
    bitmap::bit_updates(map, bit, bit);
}

// ---- Files --------------------------------------------------------------------------------------

/// Whether a block has a bit of its own in the bitmap of its group.
pub open spec fn has_bit(st: FsState, b: int) -> bool {
    b % (st.sb.blocks_per_group as int) < model::usable_bits(st.sb.blocks_per_group)
}

/// What holds after blocks have been freed, with the same layout: nothing else was freed, and
/// nothing was taken.
spec fn only_freed(a: FsState, z: FsState, gone: spec_fn(int) -> bool) -> bool {
    &&& model::mounted(z)
    &&& contents::same_shape(a, z)
    &&& contents::bitmaps_apart(z)
    &&& same_inode_bitmaps(a, z)
    &&& forall|c: int| #[trigger] contents::kept(z, c) <==> contents::kept(a, c) && !gone(c)
}

/// Whether the bitmaps of inodes are where they were.
spec fn same_inode_bitmaps(a: FsState, z: FsState) -> bool {
    z.bgds.len() == a.bgds.len() && forall|g: int|
        0 <= g < a.bgds.len() ==> (#[trigger] z.bgds[g]).inode_bitmap_block
            == a.bgds[g].inode_bitmap_block
}

proof fn lemma_still_apart(a: FsState, z: FsState)
    requires
        contents::bitmaps_apart(a),
        contents::same_shape(a, z),
    ensures
        contents::bitmaps_apart(z),
{
    assert forall|g: int| 0 <= g < a.bgds.len() implies #[trigger] contents::bitmap_of(z, g)
        == contents::bitmap_of(a, g) by {
        assert(z.bgds[g].block_bitmap_block == a.bgds[g].block_bitmap_block);
    }
}

proof fn lemma_one_freed(st: FsState, b: u64)
    requires
        model::mounted(st),
        contents::bitmaps_apart(st),
        has_bit(st, b as int),
        model::free_block(st, b).1 is Ok,
    ensures
        only_freed(st, model::free_block(st, b).0, |c: int| c == b),
{
    freed_is_free(st, b);
    let z = model::free_block(st, b).0;
    assert(same_inode_bitmaps(st, z)) by {
        reveal(model::free_block);
    }
    lemma_still_apart(st, z);
    contents::lemma_same_roles(
        st,
        z,
        1,
        contents::Storage { map: Seq::empty(), leaves: Seq::empty() },
    );
}

proof fn lemma_run_freed(st: FsState, first: int, i: int, n: int)
    requires
        model::mounted(st),
        contents::bitmaps_apart(st),
        0 <= first,
        0 <= i,
        first + n <= u64::MAX,
        forall|x: int| first + i <= x < first + n ==> #[trigger] has_bit(st, x),
        model::free_run(st, first, i, n).1 is Ok,
    ensures
        only_freed(
            st,
            model::free_run(st, first, i, n).0,
            |c: int| first + i <= c < first + n,
        ),
    decreases n - i,
{
    if i < n {
        let b = (first + i) as u64;
        assert(has_bit(st, first + i));
        lemma_one_freed(st, b);
        let st1 = model::free_block(st, b).0;
        assert forall|x: int| first + i + 1 <= x < first + n implies #[trigger] has_bit(st1, x) by {
            assert(has_bit(st, x));
        }
        lemma_run_freed(st1, first, i + 1, n);
        let z = model::free_run(st, first, i, n).0;
        super::names::lemma_shapes(st, st1, z);
        assert forall|c: int| #[trigger] contents::kept(z, c) <==> contents::kept(st, c) && !(first
            + i <= c < first + n) by {
            assert(contents::kept(z, c) <==> contents::kept(st1, c) && !(first + i + 1 <= c < first
                + n));
            assert(contents::kept(st1, c) <==> contents::kept(st, c) && c != b);
        }
    }
}

/// Whether block `c` belongs to one of the extents from `k` on.
pub open spec fn in_extents(map: Seq<EfsExtent>, k: int, c: int) -> bool {
    exists|m: int| k <= m < map.len() && (#[trigger] map[m]).phys() <= c < map[m].phys() + map[m].length
}

proof fn lemma_extents_freed(st: FsState, map: Seq<EfsExtent>, k: int)
    requires
        model::mounted(st),
        contents::bitmaps_apart(st),
        0 <= k,
        forall|x: int| in_extents(map, k, x) ==> #[trigger] has_bit(st, x),
        model::free_extents(st, map, k).1 is Ok,
    ensures
        only_freed(st, model::free_extents(st, map, k).0, |c: int| in_extents(map, k, c)),
    decreases map.len() - k,
{
    if k < map.len() {
        let first = map[k].phys() as int;
        let n = map[k].length as int;
        assert forall|x: int| first <= x < first + n implies #[trigger] has_bit(st, x) by {
            assert(in_extents(map, k, x));
        }
        lemma_run_freed(st, first, 0, n);
        let st1 = model::free_run(st, first, 0, n).0;
        assert forall|x: int| in_extents(map, k + 1, x) implies #[trigger] has_bit(st1, x) by {
            let m = choose|m: int|
                k + 1 <= m < map.len() && (#[trigger] map[m]).phys() <= x < map[m].phys()
                    + map[m].length;
            assert(k <= m);
            assert(in_extents(map, k, x));
            assert(has_bit(st, x));
        }
        lemma_extents_freed(st1, map, k + 1);
        let z = model::free_extents(st, map, k).0;
        super::names::lemma_shapes(st, st1, z);
        assert forall|c: int| #[trigger] contents::kept(z, c) <==> contents::kept(st, c)
            && !in_extents(map, k, c) by {
            assert(contents::kept(z, c) <==> contents::kept(st1, c) && !in_extents(map, k + 1, c));
            assert(contents::kept(st1, c) <==> contents::kept(st, c) && !(first <= c < first + n));
            if in_extents(map, k, c) {
                let m = choose|m: int|
                    k <= m < map.len() && (#[trigger] map[m]).phys() <= c < map[m].phys()
                        + map[m].length;
                if m > k {
                    assert(in_extents(map, k + 1, c));
                }
            }
            if in_extents(map, k + 1, c) {
                let m = choose|m: int|
                    k + 1 <= m < map.len() && (#[trigger] map[m]).phys() <= c < map[m].phys()
                        + map[m].length;
                assert(in_extents(map, k, c));
            }
            if first <= c < first + n {
                assert(in_extents(map, k, c));
            }
        }
    }
}

/// Whether block `c` is one of a list from `i` on.
pub open spec fn in_list(list: Seq<u64>, i: int, c: int) -> bool {
    exists|k: int| i <= k < list.len() && #[trigger] list[k] == c
}

proof fn lemma_list_freed(st: FsState, list: Seq<u64>, i: int)
    requires
        model::mounted(st),
        contents::bitmaps_apart(st),
        0 <= i <= list.len(),
        forall|k: int| i <= k < list.len() ==> has_bit(st, (#[trigger] list[k]) as int),
        model::free_list(st, list, i).1 is Ok,
    ensures
        only_freed(
            st,
            model::free_list(st, list, i).0,
            |c: int| in_list(list, i, c),
        ),
    decreases list.len() - i,
{
    if i < list.len() {
        lemma_one_freed(st, list[i]);
        let st1 = model::free_block(st, list[i]).0;
        assert forall|k: int| i + 1 <= k < list.len() implies has_bit(
            st1,
            (#[trigger] list[k]) as int,
        ) by {
            assert(has_bit(st, list[k] as int));
        }
        lemma_list_freed(st1, list, i + 1);
        let z = model::free_list(st, list, i).0;
        super::names::lemma_shapes(st, st1, z);
        assert forall|c: int| #[trigger] contents::kept(z, c) <==> contents::kept(st, c)
            && !in_list(list, i, c) by {
            assert(contents::kept(z, c) <==> contents::kept(st1, c) && !in_list(list, i + 1, c));
            assert(contents::kept(st1, c) <==> contents::kept(st, c) && c != list[i]);
            if in_list(list, i, c) && c != list[i] {
                let k = choose|k: int| i <= k < list.len() && #[trigger] list[k] == c;
                assert(in_list(list, i + 1, c));
            }
        }
    }
}

/// A file whose storage is freed gives back its inode and all its blocks, those of its data and
/// those that say where its data is, and no other block is freed.
#[verifier::spinoff_prover]
#[verifier::rlimit(40)]
pub proof fn freed_file_gives_everything_back(st: FsState, ino: u64, i: InodeView)
    requires
        model::mounted(st),
        contents::bitmaps_apart(st),
        !i.inline(),
        model::load_map(st, i) is Ok,
        forall|x: int| in_extents(model::load_map(st, i)->Ok_0, 0, x) ==> #[trigger] has_bit(st, x),
        forall|k: int|
            0 <= k < model::tree_blocks(i).len() ==> has_bit(
                st,
                (#[trigger] model::tree_blocks(i)[k]) as int,
            ),
        forall|g: int, h: int|
            #![trigger st.bgds[g], st.bgds[h]]
            0 <= g < st.bgds.len() && 0 <= h < st.bgds.len() ==> st.bgds[g].inode_bitmap_block
                != st.bgds[h].block_bitmap_block,
        dirmodel::free_file_storage(st, ino, i).1 is Ok,
    ensures
        ({
            let z = dirmodel::free_file_storage(st, ino, i).0;
            let map = model::load_map(st, i)->Ok_0;
            let tree = model::tree_blocks(i);
            &&& !inode_marked(z, z, ino)
            &&& forall|c: int| #[trigger]
                contents::kept(z, c) <==> contents::kept(st, c) && !in_extents(map, 0, c) && !in_list(
                    tree,
                    0,
                    c,
                )
        }),
{
    reveal(dirmodel::free_file_storage);
    reveal(model::free_extent_storage);
    let map = model::load_map(st, i)->Ok_0;
    let tree = model::tree_blocks(i);
    lemma_extents_freed(st, map, 0);
    let st1 = model::free_extents(st, map, 0).0;
    assert forall|k: int| 0 <= k < tree.len() implies has_bit(st1, (#[trigger] tree[k]) as int) by {
        assert(has_bit(st, tree[k] as int));
    }
    lemma_list_freed(st1, tree, 0);
    let m = model::free_list(st1, tree, 0).0;
    let z = dirmodel::free_file_storage(st, ino, i).0;
    assert(model::free_inode(m, ino).0 == z && model::free_inode(m, ino).1 is Ok);
    freed_inode_is_free(m, ino);
    assert(ino > 0) by {
        reveal(model::free_inode);
    }
    contents::lemma_split(ino - 1, m.sb.inodes_per_group as int);
    let g = (ino - 1) / m.sb.inodes_per_group as int;
    let x = m.bgds[g].inode_bitmap_block as int;
    assert(same_inode_bitmaps(st, m));
    assert(g < m.bgds.len() && z.bgds[g].inode_bitmap_block == x && contents::same_shape(m, z)
        && model::mounted(z) && (forall|b: int|
        model::has_block(m, b) && b != x ==> #[trigger] contents::block(z, b) == contents::block(
            m,
            b,
        ))) by {
        reveal(model::free_inode);
        assert(m.pages[m.base + x].len() == 4096);
        assert forall|k: int| 0 <= k < z.pages.len() implies (#[trigger] z.pages[k]).len()
            == block_device::PAGE_SIZE by {
            assert(m.pages[k].len() == block_device::PAGE_SIZE);
        }
    }
    assert forall|h: int|
        0 <= h < m.bgds.len() && model::has_block(m, contents::bitmap_of(m, h)) implies
        contents::block(z, #[trigger] contents::bitmap_of(m, h)) == contents::block(
        m,
        contents::bitmap_of(m, h),
    ) by {
        assert(st.bgds[g].inode_bitmap_block == x);
        assert(m.bgds[h].block_bitmap_block == st.bgds[h].block_bitmap_block);
    }
    contents::lemma_kept_same(m, z);
    assert forall|h: int|
        0 <= h < z.bgds.len() && model::has_block(z, contents::bitmap_of(z, h)) implies
        contents::block(m, #[trigger] contents::bitmap_of(z, h)) == contents::block(
        z,
        contents::bitmap_of(z, h),
    ) by {
        assert(z.bgds[h].block_bitmap_block == m.bgds[h].block_bitmap_block);
        assert(contents::bitmap_of(m, h) == contents::bitmap_of(z, h));
    }
    contents::lemma_kept_same(z, m);
    assert forall|c: int| #[trigger] contents::kept(z, c) <==> contents::kept(st, c)
        && !in_extents(map, 0, c) && !in_list(tree, 0, c) by {
        assert(contents::kept(m, c) <==> contents::kept(st1, c) && !in_list(tree, 0, c));
        assert(contents::kept(st1, c) <==> contents::kept(st, c) && !in_extents(map, 0, c));
    }
}

} // verus!
