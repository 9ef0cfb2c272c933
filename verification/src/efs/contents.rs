//! What a file holds, and that reading gives back what was written.
//!
//! These laws speak of volumes in order: the blocks that a file uses are its own, and
//! the bitmaps say so.
use vstd::prelude::*;
use crate::block_device;
use crate::bytes;
use crate::error::Error;
use super::bitmap;
use super::extents;
use super::layout;
use super::layout::{EfsExtent, InodeView, BLOCK_SIZE, EXTENT_MAGIC, INODE_DATA_AREA_SIZE, INODE_FLAG_INLINE_DATA, MAX_INLINE_EXTENTS};
use super::model;
use super::model::FsState;
use super::ops;

verus! {

// ---- Volumes in order -------------------------------------------------------------------

/// The contents of block `b`.
pub open spec fn block(st: FsState, b: int) -> Seq<u8> {
    st.pages[st.base + b]
}

/// The block that holds the bitmap of group `g`.
pub open spec fn bitmap_of(st: FsState, g: int) -> int {
    st.bgds[g].block_bitmap_block as int
}

/// Whether the allocator leaves block `b` alone.
pub open spec fn kept(st: FsState, b: int) -> bool {
    let g = b / st.sb.blocks_per_group as int;
    let bit = b % st.sb.blocks_per_group as int;
    0 <= b && g < st.bgds.len() && bit < model::usable_bits(st.sb.blocks_per_group)
        && model::has_block(st, bitmap_of(st, g)) ==> bitmap::taken(
        block(st, bitmap_of(st, g)),
        bit,
    )
}

/// How a file is stored: its extents and the blocks of its extent tree.
#[verifier::ext_equal]
pub struct Storage {
    pub map: Seq<EfsExtent>,
    pub leaves: Seq<u64>,
}

/// What a block is used for.
pub enum Role {
    /// It holds the file's inode.
    Home,
    /// It holds the bitmap of a group.
    Bitmap(int),
    /// It belongs to the file's extent tree.
    Leaf(u64),
    /// It holds a block of the file.
    Data(u32),
}

/// The block that plays a role for file `ino`, stored as `s` says.
pub open spec fn at(st: FsState, ino: u64, s: Storage, r: Role) -> Option<int> {
    match r {
        Role::Home => model::inode_block(st, ino),
        Role::Bitmap(g) => if 0 <= g < st.bgds.len() {
            Some(bitmap_of(st, g))
        } else {
            None
        },
        Role::Leaf(b) => if s.leaves.contains(b) {
            Some(b as int)
        } else {
            None
        },
        Role::Data(lb) => match extents::map_lookup(s.map, lb) {
            Some(p) => Some(p as int),
            None => None,
        },
    }
}

/// Whether every block has one role at most, and the allocator leaves all of them alone.
pub open spec fn separate(st: FsState, ino: u64, s: Storage) -> bool {
    &&& s.leaves.no_duplicates()
    &&& forall|r: Role, q: Role|
        #![trigger at(st, ino, s, r), at(st, ino, s, q)]
        r != q && at(st, ino, s, r) is Some && at(st, ino, s, q) is Some ==> at(st, ino, s, r)
            != at(st, ino, s, q)
    &&& forall|r: Role| (#[trigger] at(st, ino, s, r)) matches Some(b) ==> kept(st, b)
}

/// How inode `i` stores its file: inline data needs no blocks.
pub open spec fn storage(st: FsState, i: InodeView) -> Option<Storage> {
    if i.inline() {
        Some(Storage { map: Seq::empty(), leaves: Seq::empty() })
    } else {
        match model::load_map(st, i) {
            Ok(m) => Some(Storage { map: m, leaves: model::tree_blocks(i) }),
            Err(_) => None,
        }
    }
}

/// Whether file `ino`, with inode `i` and stored as `s` says, is in order.
pub open spec fn in_order(st: FsState, ino: u64, i: InodeView, s: Storage) -> bool {
    &&& model::mounted(st)
    &&& st.pages.len() <= 0x1_0000_0000_0000
    &&& model::read_inode(st, ino) == Ok::<InodeView, Error>(i)
    &&& storage(st, i) == Some(s)
    &&& extents::valid_map(s.map)
    &&& separate(st, ino, s)
}

/// Whether two states have the same layout: groups of the same size, with bitmaps and
/// inode tables in the same places.
pub open spec fn same_shape(a: FsState, b: FsState) -> bool {
    &&& b.base == a.base
    &&& b.pages.len() == a.pages.len()
    &&& block_device::full_pages(b.pages)
    &&& b.bgds.len() == a.bgds.len()
    &&& b.sb.blocks_per_group == a.sb.blocks_per_group
    &&& b.sb.inodes_per_group == a.sb.inodes_per_group
    &&& b.sb.volume_name == a.sb.volume_name
    &&& b.sb.reserved == a.sb.reserved
    &&& forall|g: int|
        0 <= g < a.bgds.len() ==> (#[trigger] b.bgds[g]).block_bitmap_block
            == a.bgds[g].block_bitmap_block && b.bgds[g].inode_table_block
            == a.bgds[g].inode_table_block
}

/// Whether block `b` is a bitmap.
pub open spec fn is_bitmap(st: FsState, b: int) -> bool {
    exists|g: int| 0 <= g < st.bgds.len() && #[trigger] bitmap_of(st, g) == b
}

// ---- Taking and freeing blocks --------------------------------------------------------------

pub(crate) proof fn lemma_split(n: int, d: int)
    requires
        n >= 0,
        d > 0,
    ensures
        n == (n / d) * d + n % d,
        0 <= n % d < d,
        n / d >= 0,
{
    vstd::arithmetic::div_mod::lemma_fundamental_div_mod(n, d);
    assert((n / d) * d == d * (n / d)) by (nonlinear_arith);
    assert(n / d >= 0) by (nonlinear_arith)
        requires
            n >= 0,
            d > 0,
    ;
}

pub(crate) proof fn lemma_join(q: int, r: int, d: int)
    requires
        q >= 0,
        0 <= r < d,
    ensures
        (q * d + r) / d == q,
        (q * d + r) % d == r,
{
    vstd::arithmetic::div_mod::lemma_fundamental_div_mod_converse(q * d + r, d, q, r);
}

/// What taking block `b` does.
pub(crate) open spec fn took(a: FsState, z: FsState, b: int) -> bool {
    let g = b / a.sb.blocks_per_group as int;
    &&& same_shape(a, z)
    &&& b >= 0
    &&& !kept(a, b)
    &&& kept(z, b)
    &&& forall|c: int| #[trigger] kept(a, c) ==> kept(z, c)
    &&& forall|x: int|
        model::has_block(a, x) && !is_bitmap(a, x) ==> #[trigger] block(z, x) == block(a, x)
}

#[verifier::spinoff_prover]
#[verifier::rlimit(40)]
proof fn lemma_claim(st: FsState, g: int, bit: int)
    requires
        model::mounted(st),
        0 <= g < st.bgds.len(),
        model::has_block(st, bitmap_of(st, g)),
        0 <= bit < model::usable_bits(st.sb.blocks_per_group),
        !bitmap::taken(block(st, bitmap_of(st, g)), bit),
    ensures
        model::claim_run(st, g, block(st, bitmap_of(st, g)), bit, 1).1 matches Ok(bs)
            && bs.len() == 1 && bs[0] == g * st.sb.blocks_per_group + bit,
        took(
            st,
            model::claim_run(st, g, block(st, bitmap_of(st, g)), bit, 1).0,
            g * st.sb.blocks_per_group + bit,
        ),
{
    reveal(model::claim_run);
    let map = block(st, bitmap_of(st, g));
    let bpg = st.sb.blocks_per_group as int;
    let z = model::claim_run(st, g, map, bit, 1).0;
    let b = g * bpg + bit;
    let w = bitmap::with_run(map, bit, 1);
    assert(map.len() == 4096);
    bitmap::run_updates(map, bit, 1, bit);
    lemma_join(g, bit, bpg);
    assert(0 <= g * bpg) by (nonlinear_arith)
        requires
            0 <= g,
            0 <= bpg,
    ;
    assert(g * bpg <= 0xFFFF_FFFF * 0xFFFF_FFFF) by (nonlinear_arith)
        requires
            0 <= g <= 0xFFFF_FFFF,
            0 <= bpg <= 0xFFFF_FFFF,
    ;
    assert(z.pages =~= st.pages.update(st.base + bitmap_of(st, g), w));
    assert(block_device::full_pages(z.pages)) by {
        assert forall|k: int| 0 <= k < z.pages.len() implies (#[trigger] z.pages[k]).len()
            == block_device::PAGE_SIZE by {
            assert(st.pages[k].len() == block_device::PAGE_SIZE);
        }
    }
    assert(same_shape(st, z));
    assert(block(z, bitmap_of(st, g)) == w);
    assert forall|c: int| #[trigger] kept(st, c) implies kept(z, c) by {
        if c >= 0 {
            let h = c / bpg;
            let k = c % bpg;
            lemma_split(c, bpg);
            if h < st.bgds.len() && k < model::usable_bits(st.sb.blocks_per_group)
                && model::has_block(z, bitmap_of(z, h)) {
                assert(bitmap_of(z, h) == bitmap_of(st, h));
                assert(bitmap::taken(block(st, bitmap_of(st, h)), k));
                if bitmap_of(st, h) == bitmap_of(st, g) {
                    bitmap::run_updates(map, bit, 1, k);
                }
            }
        }
    }
    assert forall|x: int| model::has_block(st, x) && !is_bitmap(st, x) implies #[trigger] block(
        z,
        x,
    ) == block(st, x) by {
        if x == bitmap_of(st, g) {
            assert(is_bitmap(st, x));
        }
    }
    assert(bitmap_of(z, g) == bitmap_of(st, g));
}

#[verifier::spinoff_prover]
#[verifier::rlimit(40)]
proof fn lemma_first_fit(st: FsState, first: int, i: int)
    requires
        model::mounted(st),
        0 <= first,
        0 <= i,
        model::first_fit(st, first, i, 1).1 is Ok,
    ensures
        ({
            let (z, r) = model::first_fit(st, first, i, 1);
            r->Ok_0.len() == 1 && took(st, z, r->Ok_0[0] as int)
        }),
    decreases st.bgds.len() - i,
{
    let g = (first + i) % st.bgds.len() as int;
    assert(i < st.bgds.len());
    lemma_split(first + i, st.bgds.len() as int);
    if st.bgds[g].free_blocks_count == 0 {
        lemma_first_fit(st, first, i + 1);
    } else {
        let bb = st.bgds[g].block_bitmap_block as int;
        let map = block(st, bb);
        let bits = model::usable_bits(st.sb.blocks_per_group);
        assert(model::has_block(st, bb));
        assert(model::want_here(st, g, 1) == 1);
        bitmap::best_run_is_free(map, bits, 1, 0, None);
        match bitmap::best_run(map, bits, 1, 0, None) {
            Some((bit, len)) => {
                assert(len == 1);
                assert(!bitmap::taken(map, bit));
                lemma_claim(st, g, bit);
            },
            None => {
                lemma_first_fit(st, first, i + 1);
            },
        }
    }
}

#[verifier::spinoff_prover]
#[verifier::rlimit(40)]
pub(crate) proof fn lemma_alloc(st: FsState, goal: Option<u64>)
    requires
        model::mounted(st),
        model::alloc_blocks(st, 1, goal).1 is Ok,
    ensures
        ({
            let (z, r) = model::alloc_blocks(st, 1, goal);
            r->Ok_0.len() == 1 && took(st, z, r->Ok_0[0] as int)
        }),
{
    reveal(model::alloc_blocks);
    let bits = model::usable_bits(st.sb.blocks_per_group);
    match model::goal_group(st, goal) {
        None => {
            lemma_first_fit(st, 0, 0);
        },
        Some(g) => {
            let b = goal->Some_0 as int;
            lemma_split(b, st.sb.blocks_per_group as int);
            let bit = b % st.sb.blocks_per_group as int;
            if st.bgds[g].free_blocks_count > 0 && bit < bits {
                let map = block(st, bitmap_of(st, g));
                let len = bitmap::run_length(map, bits, model::want_here(st, g, 1), bit);
                bitmap::run_length_is_free(map, bits, 1, bit);
                assert(model::has_block(st, bitmap_of(st, g)));
                if len > 0 {
                    assert(len == 1);
                    assert(!bitmap::taken(map, bit));
                    lemma_claim(st, g, bit);
                } else {
                    lemma_first_fit(st, g, 0);
                }
            } else {
                lemma_first_fit(st, g, 0);
            }
        },
    }
}

/// Whether the bitmaps of different groups are different blocks.
pub open spec fn bitmaps_apart(st: FsState) -> bool {
    forall|g: int, h: int|
        #![trigger bitmap_of(st, g), bitmap_of(st, h)]
        0 <= g < st.bgds.len() && 0 <= h < st.bgds.len() && g != h ==> bitmap_of(st, g)
            != bitmap_of(st, h)
}

pub(crate) proof fn lemma_apart(st: FsState, ino: u64, s: Storage)
    requires
        separate(st, ino, s),
    ensures
        bitmaps_apart(st),
{
    assert forall|g: int, h: int|
        #![trigger bitmap_of(st, g), bitmap_of(st, h)]
        0 <= g < st.bgds.len() && 0 <= h < st.bgds.len() && g != h implies bitmap_of(st, g)
        != bitmap_of(st, h) by {
        assert(at(st, ino, s, Role::Bitmap(g)) == Some(bitmap_of(st, g)));
        assert(at(st, ino, s, Role::Bitmap(h)) == Some(bitmap_of(st, h)));
    }
}

/// What freeing block `b` does.
pub(crate) open spec fn freed(a: FsState, z: FsState, b: int) -> bool {
    &&& same_shape(a, z)
    &&& forall|c: int| c != b && #[trigger] kept(a, c) ==> kept(z, c)
    &&& forall|x: int|
        model::has_block(a, x) && !is_bitmap(a, x) ==> #[trigger] block(z, x) == block(a, x)
}

#[verifier::spinoff_prover]
#[verifier::rlimit(40)]
pub(crate) proof fn lemma_free(st: FsState, b: u64)
    requires
        model::mounted(st),
        bitmaps_apart(st),
        model::free_block(st, b).1 is Ok,
    ensures
        freed(st, model::free_block(st, b).0, b as int),
{
    reveal(model::free_block);
    let z = model::free_block(st, b).0;
    let bpg = st.sb.blocks_per_group as int;
    let g = b as int / bpg;
    let bit = b as int % bpg;
    lemma_split(b as int, bpg);
    let map = block(st, bitmap_of(st, g));
    let w = bitmap::without_bit(map, bit);
    assert(map.len() == 4096);
    bitmap::bit_updates(map, bit, bit);
    assert(z.pages =~= st.pages.update(st.base + bitmap_of(st, g), w));
    assert(block_device::full_pages(z.pages)) by {
        assert forall|k: int| 0 <= k < z.pages.len() implies (#[trigger] z.pages[k]).len()
            == block_device::PAGE_SIZE by {
            assert(st.pages[k].len() == block_device::PAGE_SIZE);
        }
    }
    assert(same_shape(st, z));
    assert forall|c: int| c != b && #[trigger] kept(st, c) implies kept(z, c) by {
        if c >= 0 {
            let h = c / bpg;
            let k = c % bpg;
            lemma_split(c, bpg);
            if h < st.bgds.len() && k < model::usable_bits(st.sb.blocks_per_group)
                && model::has_block(z, bitmap_of(z, h)) {
                assert(bitmap_of(z, h) == bitmap_of(st, h));
                assert(bitmap::taken(block(st, bitmap_of(st, h)), k));
                if h == g {
                    assert(k != bit);
                    bitmap::bit_updates(map, bit, k);
                } else {
                    assert(bitmap_of(st, h) != bitmap_of(st, g));
                }
            }
        }
    }
    assert forall|x: int| model::has_block(st, x) && !is_bitmap(st, x) implies #[trigger] block(
        z,
        x,
    ) == block(st, x) by {
        if x == bitmap_of(st, g) {
            assert(is_bitmap(st, x));
        }
    }
}

// ---- Roles and changes ------------------------------------------------------------------------

#[verifier::spinoff_prover]
#[verifier::rlimit(40)]
pub(crate) proof fn lemma_same_roles(a: FsState, z: FsState, ino: u64, s: Storage)
    requires
        same_shape(a, z),
        model::mounted(a),
    ensures
        model::inode_block(z, ino) == model::inode_block(a, ino),
        model::inode_offset(z, ino) == model::inode_offset(a, ino),
        forall|r: Role| #[trigger] at(z, ino, s, r) == at(a, ino, s, r),
        model::mounted(z),
{
    let group = (ino - 1) / a.sb.inodes_per_group as int;
    if ino != 0 {
        lemma_split(ino - 1, a.sb.inodes_per_group as int);
        if group < a.bgds.len() {
            assert(z.bgds[group].inode_table_block == a.bgds[group].inode_table_block);
        }
    }
    assert forall|r: Role| #[trigger] at(z, ino, s, r) == at(a, ino, s, r) by {
        match r {
            Role::Bitmap(g) => {
                if 0 <= g < a.bgds.len() {
                    assert(z.bgds[g].block_bitmap_block == a.bgds[g].block_bitmap_block);
                }
            },
            _ => {},
        }
    }
}

/// Changing what a block holds, other than a bitmap, keeps everything apart.
#[verifier::spinoff_prover]
#[verifier::rlimit(40)]
pub(crate) proof fn lemma_separate_same(a: FsState, z: FsState, ino: u64, s: Storage)
    requires
        model::mounted(a),
        separate(a, ino, s),
        same_shape(a, z),
        forall|c: int| #[trigger] kept(a, c) ==> kept(z, c),
    ensures
        separate(z, ino, s),
{
    lemma_same_roles(a, z, ino, s);
    assert forall|r: Role| (#[trigger] at(z, ino, s, r)) matches Some(b) implies kept(
        z,
        at(z, ino, s, r)->Some_0,
    ) by {
        if at(z, ino, s, r) is Some {
            assert(at(a, ino, s, r) == at(z, ino, s, r));
            assert(kept(a, at(a, ino, s, r)->Some_0));
        }
    }
    assert forall|r: Role, q: Role|
        #![trigger at(z, ino, s, r), at(z, ino, s, q)]
        r != q && at(z, ino, s, r) is Some && at(z, ino, s, q) is Some implies at(z, ino, s, r)
        != at(z, ino, s, q) by {
        assert(at(a, ino, s, r) == at(z, ino, s, r));
        assert(at(a, ino, s, q) == at(z, ino, s, q));
    }
}

/// A block that was taken has no role.
pub(crate) proof fn lemma_fresh(a: FsState, z: FsState, ino: u64, s: Storage, b: int)
    requires
        model::mounted(a),
        separate(a, ino, s),
        took(a, z, b),
    ensures
        forall|r: Role| #[trigger] at(z, ino, s, r) != Some(b),
        forall|r: Role| #[trigger] at(a, ino, s, r) != Some(b),
        separate(z, ino, s),
        model::mounted(z),
{
    lemma_same_roles(a, z, ino, s);
    lemma_separate_same(a, z, ino, s);
    assert forall|r: Role| #[trigger] at(a, ino, s, r) != Some(b) by {
        if at(a, ino, s, r) == Some(b) {
            assert(kept(a, b));
        }
    }
    assert forall|r: Role| #[trigger] at(z, ino, s, r) != Some(b) by {
        assert(at(a, ino, s, r) == at(z, ino, s, r));
    }
}

/// Giving a fresh block the role of a leaf keeps everything apart.
#[verifier::spinoff_prover]
#[verifier::rlimit(40)]
proof fn lemma_add_leaf(st: FsState, ino: u64, s: Storage, b: u64)
    requires
        separate(st, ino, s),
        kept(st, b as int),
        forall|r: Role| #[trigger] at(st, ino, s, r) != Some(b as int),
    ensures
        separate(st, ino, Storage { leaves: s.leaves.push(b), ..s }),
{
    let t = Storage { leaves: s.leaves.push(b), ..s };
    assert(!s.leaves.contains(b)) by {
        assert(at(st, ino, s, Role::Leaf(b)) != Some(b as int));
    }
    assert forall|x: u64| t.leaves.contains(x) <==> s.leaves.contains(x) || x == b by {
        if s.leaves.contains(x) {
            let i = choose|i: int| 0 <= i < s.leaves.len() && s.leaves[i] == x;
            assert(t.leaves[i] == x);
        }
        assert(t.leaves[s.leaves.len() as int] == b);
        if t.leaves.contains(x) {
            let i = choose|i: int| 0 <= i < t.leaves.len() && t.leaves[i] == x;
            if i < s.leaves.len() {
                assert(s.leaves[i] == x);
            }
        }
    }
    assert forall|r: Role| r != Role::Leaf(b) implies #[trigger] at(st, ino, t, r) == at(
        st,
        ino,
        s,
        r,
    ) by {}
    assert(at(st, ino, t, Role::Leaf(b)) == Some(b as int));
    assert forall|r: Role| (#[trigger] at(st, ino, t, r)) matches Some(x) implies kept(
        st,
        at(st, ino, t, r)->Some_0,
    ) by {
        if r != Role::Leaf(b) && at(st, ino, t, r) is Some {
            assert(at(st, ino, s, r) is Some);
        }
    }
    assert forall|r: Role, q: Role|
        #![trigger at(st, ino, t, r), at(st, ino, t, q)]
        r != q && at(st, ino, t, r) is Some && at(st, ino, t, q) is Some implies at(
        st,
        ino,
        t,
        r,
    ) != at(st, ino, t, q) by {
        if r != Role::Leaf(b) {
            assert(at(st, ino, t, r) == at(st, ino, s, r));
        }
        if q != Role::Leaf(b) {
            assert(at(st, ino, t, q) == at(st, ino, s, q));
        }
    }
}

/// Mapping a logical block to a fresh block keeps everything apart.
#[verifier::spinoff_prover]
#[verifier::rlimit(40)]
pub(crate) proof fn lemma_add_data(st: FsState, ino: u64, s: Storage, lb: u32, b: u64)
    requires
        separate(st, ino, s),
        extents::valid_map(s.map),
        extents::map_lookup(s.map, lb) is None,
        b < 0x1_0000_0000_0000,
        kept(st, b as int),
        forall|r: Role| #[trigger] at(st, ino, s, r) != Some(b as int),
    ensures
        separate(st, ino, Storage { map: extents::map_insert(s.map, lb, b), ..s }),
{
    let t = Storage { map: extents::map_insert(s.map, lb, b), ..s };
    extents::insert_then_lookup(s.map, lb, b, lb);
    assert forall|r: Role| r != Role::Data(lb) implies #[trigger] at(st, ino, t, r) == at(
        st,
        ino,
        s,
        r,
    ) by {
        match r {
            Role::Data(o) => {
                extents::insert_then_lookup(s.map, lb, b, o);
            },
            _ => {},
        }
    }
    assert(at(st, ino, t, Role::Data(lb)) == Some(b as int));
    assert forall|r: Role| (#[trigger] at(st, ino, t, r)) matches Some(x) implies kept(
        st,
        at(st, ino, t, r)->Some_0,
    ) by {
        if r != Role::Data(lb) && at(st, ino, t, r) is Some {
            assert(at(st, ino, s, r) is Some);
        }
    }
    assert forall|r: Role, q: Role|
        #![trigger at(st, ino, t, r), at(st, ino, t, q)]
        r != q && at(st, ino, t, r) is Some && at(st, ino, t, q) is Some implies at(
        st,
        ino,
        t,
        r,
    ) != at(st, ino, t, q) by {
        if r != Role::Data(lb) {
            assert(at(st, ino, t, r) == at(st, ino, s, r));
        }
        if q != Role::Data(lb) {
            assert(at(st, ino, t, q) == at(st, ino, s, q));
        }
    }
}

/// With fewer leaves everything stays apart, though the block left out may be freed.
#[verifier::spinoff_prover]
#[verifier::rlimit(40)]
proof fn lemma_drop_leaf(a: FsState, z: FsState, ino: u64, s: Storage, t: Storage, b: u64)
    requires
        model::mounted(a),
        separate(a, ino, s),
        freed(a, z, b as int),
        t.map == s.map,
        t.leaves.no_duplicates(),
        s.leaves.contains(b),
        forall|x: u64| #[trigger] t.leaves.contains(x) ==> s.leaves.contains(x) && x != b,
    ensures
        separate(z, ino, t),
        model::mounted(z),
{
    lemma_same_roles(a, z, ino, s);
    lemma_same_roles(a, z, ino, t);
    assert(at(a, ino, s, Role::Leaf(b)) == Some(b as int));
    assert forall|r: Role| (#[trigger] at(z, ino, t, r)) is Some implies at(a, ino, s, r) == at(
        z,
        ino,
        t,
        r,
    ) && r != Role::Leaf(b) by {
        assert(at(a, ino, t, r) == at(z, ino, t, r));
    }
    assert forall|r: Role| (#[trigger] at(z, ino, t, r)) matches Some(x) implies kept(
        z,
        at(z, ino, t, r)->Some_0,
    ) by {
        if at(z, ino, t, r) is Some {
            assert(at(a, ino, s, r) == at(z, ino, t, r));
            assert(kept(a, at(a, ino, s, r)->Some_0));
            assert(at(a, ino, s, r) != at(a, ino, s, Role::Leaf(b)));
        }
    }
    assert forall|r: Role, q: Role|
        #![trigger at(z, ino, t, r), at(z, ino, t, q)]
        r != q && at(z, ino, t, r) is Some && at(z, ino, t, q) is Some implies at(z, ino, t, r)
        != at(z, ino, t, q) by {
        assert(at(a, ino, s, r) == at(z, ino, t, r));
        assert(at(a, ino, s, q) == at(z, ino, t, q));
    }
}

// ---- Storing an extent map --------------------------------------------------------------------

/// The blocks of `s` from `i` on.
spec fn tail(s: Seq<u64>, i: int) -> Seq<u64> {
    if i < s.len() {
        s.skip(i)
    } else {
        Seq::empty()
    }
}

/// Whether every block but bitmaps is as it was.
pub(crate) open spec fn untouched(a: FsState, z: FsState) -> bool {
    forall|x: int|
        model::has_block(a, x) && !is_bitmap(a, x) ==> #[trigger] block(z, x) == block(a, x)
}

#[verifier::spinoff_prover]
#[verifier::rlimit(40)]
pub(crate) proof fn lemma_untouched(a: FsState, m: FsState, z: FsState)
    requires
        same_shape(a, m),
        untouched(a, m),
        same_shape(m, z),
        untouched(m, z),
    ensures
        same_shape(a, z),
        untouched(a, z),
{
    assert forall|g: int| 0 <= g < a.bgds.len() implies (
    #[trigger] z.bgds[g]).block_bitmap_block == a.bgds[g].block_bitmap_block
        && z.bgds[g].inode_table_block == a.bgds[g].inode_table_block by {
        assert(m.bgds[g].block_bitmap_block == a.bgds[g].block_bitmap_block);
    }
    assert forall|x: int| model::has_block(a, x) && !is_bitmap(a, x) implies #[trigger] block(
        z,
        x,
    ) == block(a, x) by {
        assert(!is_bitmap(m, x)) by {
            if is_bitmap(m, x) {
                let g = choose|g: int| 0 <= g < m.bgds.len() && #[trigger] bitmap_of(m, g) == x;
                assert(m.bgds[g].block_bitmap_block == a.bgds[g].block_bitmap_block);
                assert(bitmap_of(a, g) == x);
            }
        }
        assert(block(m, x) == block(a, x));
    }
}

pub(crate) proof fn lemma_same_bitmap(a: FsState, z: FsState, x: int)
    requires
        same_shape(a, z),
    ensures
        is_bitmap(z, x) == is_bitmap(a, x),
{
    if is_bitmap(a, x) {
        let g = choose|g: int| 0 <= g < a.bgds.len() && #[trigger] bitmap_of(a, g) == x;
        assert(z.bgds[g].block_bitmap_block == a.bgds[g].block_bitmap_block);
        assert(bitmap_of(z, g) == x);
    }
    if is_bitmap(z, x) {
        let g = choose|g: int| 0 <= g < z.bgds.len() && #[trigger] bitmap_of(z, g) == x;
        assert(z.bgds[g].block_bitmap_block == a.bgds[g].block_bitmap_block);
        assert(bitmap_of(a, g) == x);
    }
}

proof fn lemma_pushed(s: Seq<u64>, b: u64)
    ensures
        forall|x: u64| #[trigger] s.push(b).contains(x) ==> s.contains(x) || x == b,
{
    assert forall|x: u64| #[trigger] s.push(b).contains(x) implies s.contains(x) || x == b by {
        let i = choose|i: int| 0 <= i < s.push(b).len() && s.push(b)[i] == x;
        if i < s.len() {
            assert(s[i] == x);
        }
    }
}

#[verifier::spinoff_prover]
#[verifier::rlimit(40)]
proof fn lemma_take_leaves(
    st: FsState,
    ino: u64,
    map: Seq<EfsExtent>,
    existing: Seq<u64>,
    n: int,
    acc: Seq<u64>,
)
    requires
        model::mounted(st),
        0 <= acc.len() <= n,
        separate(st, ino, Storage { map, leaves: acc + tail(existing, acc.len() as int) }),
        model::take_leaves(st, existing, acc.len() as int, n, acc).1 is Ok,
    ensures
        ({
            let (z, r) = model::take_leaves(st, existing, acc.len() as int, n, acc);
            &&& model::mounted(z)
            &&& same_shape(st, z)
            &&& untouched(st, z)
            &&& r->Ok_0.len() == n
            &&& separate(z, ino, Storage { map, leaves: r->Ok_0 + tail(existing, n) })
            &&& forall|x: u64| #[trigger]
                r->Ok_0.contains(x) ==> acc.contains(x) || existing.contains(x) || !kept(
                    st,
                    x as int,
                )
            &&& forall|c: int| #[trigger] kept(st, c) ==> kept(z, c)
        }),
    decreases n - acc.len(),
{
    let i = acc.len() as int;
    if i < n {
        if i < existing.len() {
            let acc1 = acc.push(existing[i]);
            assert(acc1 + tail(existing, i + 1) =~= acc + tail(existing, i));
            lemma_take_leaves(st, ino, map, existing, n, acc1);
            lemma_pushed(acc, existing[i]);
            assert(existing.contains(existing[i]));
        } else {
            lemma_alloc(st, None);
            let (st1, bs) = model::alloc_blocks(st, 1, None);
            let b = bs->Ok_0[0];
            let s = Storage { map, leaves: acc + tail(existing, i) };
            assert(acc + tail(existing, i) =~= acc);
            lemma_fresh(st, st1, ino, s, b as int);
            lemma_add_leaf(st1, ino, s, b);
            assert(acc.push(b) + tail(existing, i + 1) =~= acc.push(b));
            lemma_take_leaves(st1, ino, map, existing, n, acc.push(b));
            let (z, r) = model::take_leaves(st1, existing, i + 1, n, acc.push(b));
            lemma_untouched(st, st1, z);
            lemma_pushed(acc, b);
            assert forall|x: u64| #[trigger] r->Ok_0.contains(x) implies acc.contains(x)
                || existing.contains(x) || !kept(st, x as int) by {
                if kept(st, x as int) {
                    assert(kept(st1, x as int));
                }
            }
            assert forall|c: int| #[trigger] kept(st, c) implies kept(z, c) by {
                assert(kept(st1, c));
            }
        }
    }
}

/// Bitmaps that stay as they are leave the same blocks alone.
#[verifier::spinoff_prover]
#[verifier::rlimit(40)]
pub(crate) proof fn lemma_kept_same(a: FsState, z: FsState)
    requires
        model::mounted(a),
        same_shape(a, z),
        forall|g: int|
            0 <= g < a.bgds.len() && model::has_block(a, bitmap_of(a, g)) ==> block(
                z,
                #[trigger] bitmap_of(a, g),
            ) == block(a, bitmap_of(a, g)),
    ensures
        forall|c: int| #[trigger] kept(a, c) ==> kept(z, c),
{
    let bpg = a.sb.blocks_per_group as int;
    assert forall|c: int| #[trigger] kept(a, c) implies kept(z, c) by {
        if c >= 0 {
            lemma_split(c, bpg);
            let h = c / bpg;
            if h < a.bgds.len() {
                assert(z.bgds[h].block_bitmap_block == a.bgds[h].block_bitmap_block);
                assert(bitmap_of(z, h) == bitmap_of(a, h));
            }
        }
    }
}

proof fn lemma_chunk(map: Seq<EfsExtent>, i: int)
    requires
        0 <= i < model::leaves_needed(map.len() as int),
    ensures
        i * 340 < map.len(),
        model::leaf_chunk(map, i).len() <= 340,
        layout::enc_node(BLOCK_SIZE as int, 0, 340, model::leaf_chunk(map, i)).len() == 4096,
{
    layout::node_round_trip(BLOCK_SIZE as int, 0, 340, model::leaf_chunk(map, i));
}

#[verifier::spinoff_prover]
#[verifier::rlimit(40)]
proof fn lemma_write_leaves(st: FsState, leaves: Seq<u64>, map: Seq<EfsExtent>, i: int)
    requires
        model::mounted(st),
        0 <= i <= leaves.len(),
        leaves.len() == model::leaves_needed(map.len() as int),
        leaves.no_duplicates(),
        model::write_leaves(st, leaves, map, i).1 is Ok,
    ensures
        ({
            let z = model::write_leaves(st, leaves, map, i).0;
            &&& same_shape(st, z)
            &&& model::mounted(z)
            &&& forall|k: int|
                i <= k < leaves.len() ==> model::has_block(st, #[trigger] leaves[k] as int)
                    && block(z, leaves[k] as int) == layout::enc_node(
                    BLOCK_SIZE as int,
                    0,
                    340,
                    model::leaf_chunk(map, k),
                )
            &&& forall|x: int|
                (forall|k: int| i <= k < leaves.len() ==> #[trigger] leaves[k] != x)
                    && model::has_block(st, x) ==> #[trigger] block(z, x) == block(st, x)
        }),
    decreases leaves.len() - i,
{
    if i < leaves.len() {
        lemma_chunk(map, i);
        let e = layout::enc_node(BLOCK_SIZE as int, 0, 340, model::leaf_chunk(map, i));
        let st1 = model::write_block(st, leaves[i] as int, e).0;
        assert(st1.pages =~= st.pages.update(st.base + leaves[i] as int, e));
        assert(block_device::full_pages(st1.pages)) by {
            assert forall|k: int| 0 <= k < st1.pages.len() implies (
            #[trigger] st1.pages[k]).len() == block_device::PAGE_SIZE by {
                assert(st.pages[k].len() == block_device::PAGE_SIZE);
            }
        }
        lemma_write_leaves(st1, leaves, map, i + 1);
        let z = model::write_leaves(st1, leaves, map, i + 1).0;
        assert(block(z, leaves[i] as int) == e) by {
            assert forall|k: int| i + 1 <= k < leaves.len() implies #[trigger] leaves[k]
                != leaves[i] by {}
            assert(block(st1, leaves[i] as int) == e);
        }
        assert forall|x: int|
            (forall|k: int| i <= k < leaves.len() ==> #[trigger] leaves[k] != x)
                && model::has_block(st, x) implies #[trigger] block(z, x) == block(st, x) by {
            assert(leaves[i] != x);
            assert(block(st1, x) == block(st, x));
        }
    }
}

/// Whether block `c` is none of a list.
pub(crate) open spec fn not_in(list: Seq<u64>, c: int) -> bool {
    forall|k: int| 0 <= k < list.len() ==> #[trigger] list[k] != c
}

#[verifier::spinoff_prover]
#[verifier::rlimit(40)]
proof fn lemma_free_list(
    st: FsState,
    ino: u64,
    map: Seq<EfsExtent>,
    leaves: Seq<u64>,
    existing: Seq<u64>,
    i: int,
)
    requires
        model::mounted(st),
        0 <= i,
        separate(st, ino, Storage { map, leaves: leaves + tail(existing, i) }),
        model::free_list(st, existing, i).1 is Ok,
    ensures
        ({
            let z = model::free_list(st, existing, i).0;
            &&& model::mounted(z)
            &&& same_shape(st, z)
            &&& untouched(st, z)
            &&& separate(z, ino, Storage { map, leaves })
            &&& forall|c: int| #[trigger] kept(st, c) && not_in(existing, c) ==> kept(z, c)
        }),
    decreases existing.len() - i,
{
    if i < existing.len() {
        let s = Storage { map, leaves: leaves + tail(existing, i) };
        let t = Storage { map, leaves: leaves + tail(existing, i + 1) };
        let b = existing[i];
        let st1 = model::free_block(st, b).0;
        lemma_apart(st, ino, s);
        lemma_free(st, b);
        let n = leaves.len() as int;
        assert(s.leaves[n] == b);
        assert forall|x: u64| #[trigger] t.leaves.contains(x) implies s.leaves.contains(x) && x
            != b by {
            let j = choose|j: int| 0 <= j < t.leaves.len() && t.leaves[j] == x;
            if j < n {
                assert(s.leaves[j] == x);
            } else {
                assert(s.leaves[j + 1] == x);
            }
        }
        assert(t.leaves.no_duplicates()) by {
            assert forall|a: int, c: int|
                0 <= a < t.leaves.len() && 0 <= c < t.leaves.len() && a != c implies t.leaves[a]
                != t.leaves[c] by {
                let x = if a < n {
                    a
                } else {
                    a + 1
                };
                let y = if c < n {
                    c
                } else {
                    c + 1
                };
                assert(t.leaves[a] == s.leaves[x]);
                assert(t.leaves[c] == s.leaves[y]);
            }
        }
        lemma_drop_leaf(st, st1, ino, s, t, b);
        lemma_free_list(st1, ino, map, leaves, existing, i + 1);
        let z = model::free_list(st1, existing, i + 1).0;
        lemma_untouched(st, st1, z);
        assert forall|c: int| #[trigger] kept(st, c) && not_in(existing, c) implies kept(z, c) by {
            assert(existing[i] != c);
            assert(kept(st1, c));
        }
    } else {
        assert(leaves + tail(existing, i) =~= leaves);
    }
}

/// The first `k` leaves' worth of a map.
spec fn front(map: Seq<EfsExtent>, k: int) -> Seq<EfsExtent> {
    map.take(
        if k * 340 < map.len() {
            k * 340
        } else {
            map.len() as int
        },
    )
}

proof fn lemma_leaf(st: FsState, b: int, c: Seq<EfsExtent>)
    requires
        model::has_block(st, b),
        c.len() <= 340,
        block(st, b) == layout::enc_node(BLOCK_SIZE as int, 0, 340, c),
    ensures
        model::read_leaf(st, b) == Ok::<Seq<EfsExtent>, Error>(c),
{
    layout::node_round_trip(BLOCK_SIZE as int, 0, 340, c);
}

#[verifier::spinoff_prover]
#[verifier::rlimit(40)]
proof fn lemma_read_leaves(
    st: FsState,
    area: Seq<u8>,
    leaves: Seq<u64>,
    map: Seq<EfsExtent>,
    k: int,
)
    requires
        model::mounted(st),
        leaves.len() == model::leaves_needed(map.len() as int),
        leaves.len() > 0,
        0 <= k <= leaves.len(),
        forall|j: int|
            0 <= j < leaves.len() ==> model::has_block(st, #[trigger] leaves[j] as int) && block(
                st,
                leaves[j] as int,
            ) == layout::enc_node(BLOCK_SIZE as int, 0, 340, model::leaf_chunk(map, j)),
        forall|j: int|
            0 <= j < leaves.len() ==> layout::dec_extent(area, 12 + 12 * j).phys()
                == #[trigger] leaves[j],
    ensures
        model::read_leaves(st, area, k, leaves.len() as int, front(map, k)) == Ok::<
            Seq<EfsExtent>,
            Error,
        >(map),
    decreases leaves.len() - k,
{
    if k < leaves.len() {
        let c = model::leaf_chunk(map, k);
        lemma_leaf_read(st, leaves, map, k);
        assert(layout::dec_extent(area, 12 + 12 * k).phys() == leaves[k]);
        assert(front(map, k) + c == front(map, k + 1)) by {
            lemma_front(leaves, map, k);
        }
        lemma_read_leaves(st, area, leaves, map, k + 1);
        lemma_read_leaves_step(st, area, leaves, map, k);
    } else {
        assert(front(map, k) =~= map);
    }
}

proof fn lemma_front(leaves: Seq<u64>, map: Seq<EfsExtent>, k: int)
    requires
        leaves.len() == model::leaves_needed(map.len() as int),
        0 <= k < leaves.len(),
    ensures
        front(map, k) + model::leaf_chunk(map, k) == front(map, k + 1),
{
    lemma_chunk(map, k);
    assert(front(map, k) + model::leaf_chunk(map, k) =~= front(map, k + 1));
}

proof fn lemma_leaf_read(st: FsState, leaves: Seq<u64>, map: Seq<EfsExtent>, k: int)
    requires
        leaves.len() == model::leaves_needed(map.len() as int),
        0 <= k < leaves.len(),
        model::has_block(st, leaves[k] as int),
        block(st, leaves[k] as int) == layout::enc_node(
            BLOCK_SIZE as int,
            0,
            340,
            model::leaf_chunk(map, k),
        ),
    ensures
        model::read_leaf(st, leaves[k] as int) == Ok::<Seq<EfsExtent>, Error>(
            model::leaf_chunk(map, k),
        ),
{
    lemma_chunk(map, k);
    lemma_leaf(st, leaves[k] as int, model::leaf_chunk(map, k));
}

proof fn lemma_read_leaves_step(
    st: FsState,
    area: Seq<u8>,
    leaves: Seq<u64>,
    map: Seq<EfsExtent>,
    k: int,
)
    requires
        0 <= k < leaves.len(),
        layout::dec_extent(area, 12 + 12 * k).phys() == leaves[k],
        model::read_leaf(st, leaves[k] as int) == Ok::<Seq<EfsExtent>, Error>(
            model::leaf_chunk(map, k),
        ),
        front(map, k) + model::leaf_chunk(map, k) == front(map, k + 1),
    ensures
        model::read_leaves(st, area, k, leaves.len() as int, front(map, k)) == model::read_leaves(
            st,
            area,
            k + 1,
            leaves.len() as int,
            front(map, k + 1),
        ),
{
}

pub(crate) proof fn lemma_make(lb: u32, n: u16, b: u64)
    requires
        b < 0x1_0000_0000_0000,
    ensures
        EfsExtent::make(lb, n, b).phys() == b,
{
}

/// What the area of a tree says of its leaves.
#[verifier::spinoff_prover]
#[verifier::rlimit(40)]
proof fn lemma_area(st: FsState, leaves: Seq<u64>, map: Seq<EfsExtent>)
    requires
        st.base >= 0,
        st.pages.len() <= 0x1_0000_0000_0000,
        0 < leaves.len() <= MAX_INLINE_EXTENTS,
        forall|k: int|
            0 <= k < leaves.len() ==> model::has_block(st, #[trigger] leaves[k] as int),
    ensures
        ({
            let area = model::map_area(map, leaves);
            &&& area.len() == INODE_DATA_AREA_SIZE
            &&& layout::dec_header(area).magic == EXTENT_MAGIC
            &&& layout::dec_header(area).depth == 1
            &&& layout::dec_header(area).entries == leaves.len()
            &&& forall|k: int|
                0 <= k < leaves.len() ==> layout::dec_extent(area, 12 + 12 * k).phys()
                    == #[trigger] leaves[k]
        }),
{
    let area = model::map_area(map, leaves);
    let es = model::index_entries(leaves, map);
    layout::node_round_trip(INODE_DATA_AREA_SIZE as int, 1, MAX_INLINE_EXTENTS as u16, es);
    let ds = layout::node_entries(area, es.len() as int);
    assert(ds == es);
    assert forall|k: int| 0 <= k < leaves.len() implies layout::dec_extent(
        area,
        12 + 12 * k,
    ).phys() == #[trigger] leaves[k] by {
        assert(model::has_block(st, leaves[k] as int));
        assert(ds[k] == layout::dec_extent(area, 12 + 12 * k));
        lemma_make(map[k * 340].logical_block, 0, leaves[k]);
    }
}

/// A stored map is the map that is loaded.
proof fn lemma_load(st: FsState, j: InodeView, leaves: Seq<u64>, map: Seq<EfsExtent>)
    requires
        model::mounted(st),
        st.pages.len() <= 0x1_0000_0000_0000,
        map.len() <= MAX_INLINE_EXTENTS * 340,
        leaves.len() == model::leaves_needed(map.len() as int),
        forall|k: int|
            0 <= k < leaves.len() ==> model::has_block(st, #[trigger] leaves[k] as int) && block(
                st,
                leaves[k] as int,
            ) == layout::enc_node(BLOCK_SIZE as int, 0, 340, model::leaf_chunk(map, k)),
        j.data_area == model::map_area(map, leaves),
    ensures
        model::load_map(st, j) == Ok::<Seq<EfsExtent>, Error>(map),
        model::tree_blocks(j) == leaves,
        j.data_area.len() == INODE_DATA_AREA_SIZE,
{
    if leaves.len() == 0 {
        lemma_load_small(st, j, map);
        assert(model::tree_blocks(j) =~= leaves);
    } else {
        lemma_area(st, leaves, map);
        lemma_load_tree(st, j, leaves, map);
    }
}

pub(crate) proof fn lemma_load_small(st: FsState, j: InodeView, map: Seq<EfsExtent>)
    requires
        map.len() <= MAX_INLINE_EXTENTS,
        j.data_area == layout::enc_node(
            INODE_DATA_AREA_SIZE as int,
            0,
            MAX_INLINE_EXTENTS as u16,
            map,
        ),
    ensures
        model::load_map(st, j) == Ok::<Seq<EfsExtent>, Error>(map),
        model::tree_blocks(j) == Seq::<u64>::empty(),
        j.data_area.len() == INODE_DATA_AREA_SIZE,
{
    layout::node_round_trip(INODE_DATA_AREA_SIZE as int, 0, MAX_INLINE_EXTENTS as u16, map);
    reveal(model::load_map);
}

#[verifier::spinoff_prover]
#[verifier::rlimit(40)]
proof fn lemma_load_tree(st: FsState, j: InodeView, leaves: Seq<u64>, map: Seq<EfsExtent>)
    requires
        model::mounted(st),
        0 < leaves.len() <= MAX_INLINE_EXTENTS,
        leaves.len() == model::leaves_needed(map.len() as int),
        forall|k: int|
            0 <= k < leaves.len() ==> model::has_block(st, #[trigger] leaves[k] as int) && block(
                st,
                leaves[k] as int,
            ) == layout::enc_node(BLOCK_SIZE as int, 0, 340, model::leaf_chunk(map, k)),
        layout::dec_header(j.data_area).magic == EXTENT_MAGIC,
        layout::dec_header(j.data_area).depth == 1,
        layout::dec_header(j.data_area).entries == leaves.len(),
        forall|k: int|
            0 <= k < leaves.len() ==> layout::dec_extent(j.data_area, 12 + 12 * k).phys()
                == #[trigger] leaves[k],
    ensures
        model::load_map(st, j) == Ok::<Seq<EfsExtent>, Error>(map),
        model::tree_blocks(j) == leaves,
{
    let area = j.data_area;
    lemma_read_leaves(st, area, leaves, map, 0);
    assert(front(map, 0) =~= Seq::empty());
    assert(model::inline_entries(area) == leaves.len());
    reveal(model::load_map);
    let t = model::tree_blocks(j);
    assert(t.len() == leaves.len());
    assert forall|k: int| 0 <= k < leaves.len() implies t[k] == leaves[k] by {
        assert(layout::dec_extent(area, 12 + 12 * k).phys() == leaves[k]);
    }
    assert(t =~= leaves);
}

/// Blocks that a map's tree lies in decide what is loaded.
proof fn lemma_read_same(a: FsState, z: FsState, area: Seq<u8>, i: int, n: int, acc: Seq<EfsExtent>)
    requires
        same_shape(a, z),
        0 <= i,
        forall|k: int|
            0 <= k < n ==> block(z, (#[trigger] layout::dec_extent(area, 12 + 12 * k)).phys())
                == block(a, layout::dec_extent(area, 12 + 12 * k).phys())
                || !model::has_block(a, layout::dec_extent(area, 12 + 12 * k).phys()),
    ensures
        model::read_leaves(z, area, i, n, acc) == model::read_leaves(a, area, i, n, acc),
    decreases n - i,
{
    if i < n {
        let p = layout::dec_extent(area, 12 + 12 * i).phys();
        assert(model::read_leaf(z, p) == model::read_leaf(a, p));
        match model::read_leaf(a, p) {
            Ok(es) => {
                lemma_read_same(a, z, area, i + 1, n, acc + es);
            },
            Err(_) => {},
        }
    }
}

#[verifier::spinoff_prover]
#[verifier::rlimit(40)]
pub(crate) proof fn lemma_load_same(a: FsState, z: FsState, j: InodeView)
    requires
        same_shape(a, z),
        forall|b: u64| #[trigger]
            model::tree_blocks(j).contains(b) && model::has_block(a, b as int) ==> block(
                z,
                b as int,
            ) == block(a, b as int),
    ensures
        model::load_map(z, j) == model::load_map(a, j),
{
    reveal(model::load_map);
    let area = j.data_area;
    let h = layout::dec_header(area);
    if h.magic == EXTENT_MAGIC && h.depth == 1 {
        let n = model::inline_entries(area);
        assert forall|k: int| 0 <= k < n implies block(
            z,
            (#[trigger] layout::dec_extent(area, 12 + 12 * k)).phys(),
        ) == block(a, layout::dec_extent(area, 12 + 12 * k).phys()) || !model::has_block(
            a,
            layout::dec_extent(area, 12 + 12 * k).phys(),
        ) by {
            let p = layout::dec_extent(area, 12 + 12 * k).phys();
            assert(model::tree_blocks(j)[k] == p as u64);
            assert(model::tree_blocks(j).contains(p as u64));
        }
        lemma_read_same(a, z, area, 0, n, Seq::empty());
    }
}

proof fn lemma_inode_at(d: Seq<u8>, off: int, j: InodeView)
    requires
        d.len() == 4096,
        0 <= off,
        off + 256 <= 4096,
        j.data_area.len() == INODE_DATA_AREA_SIZE,
    ensures
        layout::dec_inode(bytes::splice(d, off, layout::enc_inode(j)), off) == j,
        bytes::splice(d, off, layout::enc_inode(j)).len() == 4096,
{
    let e = layout::enc_inode(j);
    let w = bytes::splice(d, off, e);
    assert(layout::enc_inode_header(j).len() == 80);
    assert(e.len() == 256);
    assert(w.subrange(off, off + 256) =~= e);
    layout::inode_round_trip(j, w, off);
}

/// What writing an inode does to the pages.
#[verifier::spinoff_prover]
#[verifier::rlimit(40)]
pub(crate) proof fn lemma_inode_page(st: FsState, ino: u64, j: InodeView) -> (b: int)
    requires
        model::mounted(st),
        j.data_area.len() == INODE_DATA_AREA_SIZE,
        model::write_inode(st, ino, j).1 is Ok,
    ensures
        ({
            let z = model::write_inode(st, ino, j).0;
            &&& model::inode_block(st, ino) == Some(b)
            &&& model::has_block(st, b)
            &&& z.base == st.base
            &&& z.bgds == st.bgds
            &&& z.sb == st.sb
            &&& z.pages.len() == st.pages.len()
            &&& block_device::full_pages(z.pages)
            &&& forall|k: int|
                0 <= k < st.pages.len() && k != st.base + b ==> #[trigger] z.pages[k]
                    == st.pages[k]
            &&& model::read_inode(z, ino) == Ok::<InodeView, Error>(j)
        }),
{
    reveal(model::write_inode);
    reveal(model::read_inode);
    let z = model::write_inode(st, ino, j).0;
    let b = model::inode_block(st, ino)->Some_0;
    let off = model::inode_offset(st, ino);
    lemma_split(ino - 1, st.sb.inodes_per_group as int);
    assert(0 <= off && off + 256 <= 4096);
    let d = block(st, b);
    assert(st.pages[st.base + b].len() == 4096);
    lemma_inode_at(d, off, j);
    let w = bytes::splice(d, off, layout::enc_inode(j));
    assert(z.pages =~= st.pages.update(st.base + b, w));
    assert forall|k: int| 0 <= k < z.pages.len() implies (#[trigger] z.pages[k]).len()
        == block_device::PAGE_SIZE by {
        assert(st.pages[k].len() == block_device::PAGE_SIZE);
    }
    b
}

/// Writing an inode and reading it again gives it back, and touches nothing else.
#[verifier::spinoff_prover]
#[verifier::rlimit(40)]
pub(crate) proof fn lemma_put_inode(st: FsState, ino: u64, s: Storage, j: InodeView)
    requires
        model::mounted(st),
        separate(st, ino, s),
        j.data_area.len() == INODE_DATA_AREA_SIZE,
        model::write_inode(st, ino, j).1 is Ok,
    ensures
        ({
            let z = model::write_inode(st, ino, j).0;
            &&& model::mounted(z)
            &&& same_shape(st, z)
            &&& separate(z, ino, s)
            &&& model::read_inode(z, ino) == Ok::<InodeView, Error>(j)
            &&& forall|x: int|
                model::has_block(st, x) && model::inode_block(st, ino) != Some(x)
                    ==> #[trigger] block(z, x) == block(st, x)
        }),
{
    let z = model::write_inode(st, ino, j).0;
    let b = lemma_inode_page(st, ino, j);
    assert(same_shape(st, z));
    lemma_same_roles(st, z, ino, s);
    assert(at(st, ino, s, Role::Home) == Some(b));
    assert forall|g: int|
        0 <= g < st.bgds.len() && model::has_block(st, bitmap_of(st, g)) implies block(
        z,
        #[trigger] bitmap_of(st, g),
    ) == block(st, bitmap_of(st, g)) by {
        assert(at(st, ino, s, Role::Bitmap(g)) == Some(bitmap_of(st, g)));
    }
    lemma_kept_same(st, z);
    lemma_separate_same(st, z, ino, s);
}

/// Storing a map stores that map, and touches nothing but bitmaps and the blocks of its
/// tree.
#[verifier::spinoff_prover]
#[verifier::rlimit(40)]
pub(crate) proof fn lemma_store(st: FsState, ino: u64, i: InodeView, map: Seq<EfsExtent>)
    requires
        model::mounted(st),
        st.pages.len() <= 0x1_0000_0000_0000,
        separate(st, ino, Storage { map, leaves: model::tree_blocks(i) }),
        model::store_map(st, i, map).1 is Ok,
    ensures
        ({
            let (z, r) = model::store_map(st, i, map);
            let j = r->Ok_0;
            let t = Storage { map, leaves: model::tree_blocks(j) };
            &&& model::mounted(z)
            &&& same_shape(st, z)
            &&& separate(z, ino, t)
            &&& model::load_map(z, j) == Ok::<Seq<EfsExtent>, Error>(map)
            &&& j.data_area.len() == INODE_DATA_AREA_SIZE
            &&& j == (InodeView { data_area: j.data_area, blocks: j.blocks, ..i })
            &&& forall|x: int|
                model::has_block(st, x) && !is_bitmap(st, x) && !(0 <= x <= u64::MAX
                    && t.leaves.contains(x as u64)) ==> #[trigger] block(z, x) == block(st, x)
            &&& forall|x: u64| #[trigger]
                t.leaves.contains(x) ==> model::tree_blocks(i).contains(x) || !kept(st, x as int)
            &&& forall|c: int| #[trigger]
                kept(st, c) && not_in(model::tree_blocks(i), c) ==> kept(z, c)
        }),
{
    reveal(model::store_map);
    let existing = model::tree_blocks(i);
    let n = model::leaves_needed(map.len() as int);
    let e0 = Seq::<u64>::empty();
    assert(e0 + tail(existing, 0) =~= existing);
    lemma_take_leaves(st, ino, map, existing, n, e0);
    let (st1, r1) = model::take_leaves(st, existing, 0, n, e0);
    let leaves = r1->Ok_0;
    let all = Storage { map, leaves: leaves + tail(existing, n) };
    assert(leaves.no_duplicates()) by {
        assert forall|a: int, b: int|
            0 <= a < leaves.len() && 0 <= b < leaves.len() && a != b implies leaves[a]
            != leaves[b] by {
            assert(all.leaves[a] == leaves[a] && all.leaves[b] == leaves[b]);
        }
    }
    lemma_write_leaves(st1, leaves, map, 0);
    let st2 = model::write_leaves(st1, leaves, map, 0).0;
    assert forall|g: int|
        0 <= g < st1.bgds.len() && model::has_block(st1, bitmap_of(st1, g)) implies block(
        st2,
        #[trigger] bitmap_of(st1, g),
    ) == block(st1, bitmap_of(st1, g)) by {
        let x = bitmap_of(st1, g);
        assert forall|k: int| 0 <= k < leaves.len() implies #[trigger] leaves[k] != x by {
            assert(all.leaves[k] == leaves[k]);
            assert(all.leaves.contains(leaves[k]));
            assert(at(st1, ino, all, Role::Leaf(leaves[k])) == Some(leaves[k] as int));
            assert(at(st1, ino, all, Role::Bitmap(g)) == Some(x));
        }
    }
    lemma_kept_same(st1, st2);
    lemma_separate_same(st1, st2, ino, all);
    lemma_free_list(st2, ino, map, leaves, existing, n);
    let z = model::free_list(st2, existing, n).0;
    let j = model::store_map(st, i, map).1->Ok_0;
    let t = Storage { map, leaves };
    assert forall|k: int| 0 <= k < leaves.len() implies model::has_block(
        z,
        #[trigger] leaves[k] as int,
    ) && block(z, leaves[k] as int) == layout::enc_node(
        BLOCK_SIZE as int,
        0,
        340,
        model::leaf_chunk(map, k),
    ) by {
        let x = leaves[k] as int;
        assert(model::has_block(st1, leaves[k] as int));
        assert(!is_bitmap(st2, x)) by {
            if is_bitmap(st2, x) {
                let g = choose|g: int|
                    0 <= g < st2.bgds.len() && #[trigger] bitmap_of(st2, g) == x;
                assert(all.leaves[k] == leaves[k]);
                assert(all.leaves.contains(leaves[k]));
                assert(at(st2, ino, all, Role::Leaf(leaves[k])) == Some(x));
                assert(at(st2, ino, all, Role::Bitmap(g)) == Some(x));
            }
        }
        assert(block(z, x) == block(st2, x));
    }
    assert forall|c: int| #[trigger] kept(st, c) && not_in(existing, c) implies kept(z, c) by {
        assert(kept(st1, c));
        assert(kept(st2, c));
    }
    lemma_load(z, j, leaves, map);
    assert(same_shape(st, z)) by {
        assert forall|g: int| 0 <= g < st.bgds.len() implies (
        #[trigger] z.bgds[g]).block_bitmap_block == st.bgds[g].block_bitmap_block
            && z.bgds[g].inode_table_block == st.bgds[g].inode_table_block by {
            assert(st1.bgds[g].block_bitmap_block == st.bgds[g].block_bitmap_block);
            assert(st2.bgds[g].block_bitmap_block == st1.bgds[g].block_bitmap_block);
        }
    }
    assert forall|x: int|
        model::has_block(st, x) && !is_bitmap(st, x) && !(0 <= x <= u64::MAX && leaves.contains(
            x as u64,
        )) implies #[trigger] block(z, x) == block(st, x) by {
        lemma_same_bitmap(st, st1, x);
        lemma_same_bitmap(st1, st2, x);
        assert forall|k: int| 0 <= k < leaves.len() implies #[trigger] leaves[k] != x by {
            if leaves[k] == x {
                assert(leaves.contains(x as u64));
            }
        }
        assert(block(st1, x) == block(st, x));
        assert(block(st2, x) == block(st1, x));
        assert(block(z, x) == block(st2, x));
    }
}

// ---- Mapping a block ----------------------------------------------------------------------------

/// A data block is no bitmap, no leaf and not the inode's.
#[verifier::spinoff_prover]
#[verifier::rlimit(40)]
pub(crate) proof fn lemma_data_alone(st: FsState, ino: u64, s: Storage, lb: u32)
    requires
        separate(st, ino, s),
        extents::map_lookup(s.map, lb) is Some,
    ensures
        ({
            let q = extents::map_lookup(s.map, lb)->Some_0;
            &&& !is_bitmap(st, q as int)
            &&& !s.leaves.contains(q)
            &&& model::inode_block(st, ino) != Some(q as int)
            &&& forall|o: u32|
                o != lb ==> #[trigger] extents::map_lookup(s.map, o) != Some(q)
        }),
{
    let q = extents::map_lookup(s.map, lb)->Some_0;
    let d = Role::Data(lb);
    assert(at(st, ino, s, d) == Some(q as int));
    if is_bitmap(st, q as int) {
        let g = choose|g: int| 0 <= g < st.bgds.len() && #[trigger] bitmap_of(st, g) == q;
        assert(at(st, ino, s, Role::Bitmap(g)) == Some(q as int));
    }
    if s.leaves.contains(q) {
        assert(at(st, ino, s, Role::Leaf(q)) == Some(q as int));
    }
    assert(at(st, ino, s, Role::Home) == model::inode_block(st, ino));
    assert forall|o: u32| o != lb implies #[trigger] extents::map_lookup(s.map, o) != Some(q) by {
        if extents::map_lookup(s.map, o) == Some(q) {
            assert(at(st, ino, s, Role::Data(o)) == Some(q as int));
        }
    }
}

/// Zeroing a block that has no role.
#[verifier::spinoff_prover]
#[verifier::rlimit(40)]
proof fn lemma_zero_fresh(st: FsState, ino: u64, s: Storage, b: u64, data: Seq<u8>)
    requires
        model::mounted(st),
        separate(st, ino, s),
        kept(st, b as int),
        data.len() == 4096,
        forall|r: Role| #[trigger] at(st, ino, s, r) != Some(b as int),
        model::write_block(st, b as int, data).1 is Ok,
    ensures
        ({
            let z = model::write_block(st, b as int, data).0;
            &&& model::mounted(z)
            &&& same_shape(st, z)
            &&& separate(z, ino, s)
            &&& kept(z, b as int)
            &&& forall|r: Role| #[trigger] at(z, ino, s, r) != Some(b as int)
            &&& block(z, b as int) == data
            &&& forall|x: int|
                model::has_block(st, x) && x != b ==> #[trigger] block(z, x) == block(st, x)
        }),
{
    let z = model::write_block(st, b as int, data).0;
    assert(z.pages =~= st.pages.update(st.base + b as int, data));
    assert(block_device::full_pages(z.pages)) by {
        assert forall|k: int| 0 <= k < z.pages.len() implies (#[trigger] z.pages[k]).len()
            == block_device::PAGE_SIZE by {
            assert(st.pages[k].len() == block_device::PAGE_SIZE);
        }
    }
    assert(same_shape(st, z));
    lemma_same_roles(st, z, ino, s);
    assert forall|g: int|
        0 <= g < st.bgds.len() && model::has_block(st, bitmap_of(st, g)) implies block(
        z,
        #[trigger] bitmap_of(st, g),
    ) == block(st, bitmap_of(st, g)) by {
        assert(at(st, ino, s, Role::Bitmap(g)) == Some(bitmap_of(st, g)));
    }
    lemma_kept_same(st, z);
    lemma_separate_same(st, z, ino, s);
    assert forall|r: Role| #[trigger] at(z, ino, s, r) != Some(b as int) by {
        assert(at(st, ino, s, r) == at(z, ino, s, r));
    }
}

/// What the map of an inode is depends on its data area alone.
pub(crate) proof fn lemma_area_decides(st: FsState, a: InodeView, b: InodeView)
    requires
        a.data_area == b.data_area,
    ensures
        model::load_map(st, a) == model::load_map(st, b),
        model::tree_blocks(a) == model::tree_blocks(b),
{
    reveal(model::load_map);
}

/// What mapping a block leads to: the file with that block mapped, everything else as
/// it was.
pub(crate) open spec fn mapped(
    a: FsState,
    z: FsState,
    ino: u64,
    i: InodeView,
    s: Storage,
    j: InodeView,
    t: Storage,
    lb: u32,
    p: u64,
) -> bool {
    &&& in_order(z, ino, j, t)
    &&& same_shape(a, z)
    &&& j == (InodeView {
        data_area: j.data_area,
        blocks: j.blocks,
        checksum: j.checksum,
        ..i
    })
    &&& extents::map_lookup(t.map, lb) == Some(p)
    &&& forall|o: u32|
        o != lb ==> #[trigger] extents::map_lookup(t.map, o) == extents::map_lookup(s.map, o)
    &&& forall|o: u32|
        (#[trigger] extents::map_lookup(s.map, o)) is Some && model::has_block(
            a,
            extents::map_lookup(s.map, o)->Some_0 as int,
        ) ==> block(z, extents::map_lookup(s.map, o)->Some_0 as int) == block(
            a,
            extents::map_lookup(s.map, o)->Some_0 as int,
        )
}

#[verifier::spinoff_prover]
#[verifier::rlimit(40)]
pub(crate) proof fn lemma_ensure(
    st: FsState,
    ino: u64,
    i: InodeView,
    s: Storage,
    lb: u32,
    zeroed: bool,
) -> (r: (InodeView, Storage))
    requires
        in_order(st, ino, i, s),
        !i.inline(),
        model::ensure_block(st, ino, lb, zeroed).1 is Ok,
        model::has_block(st, model::ensure_block(st, ino, lb, zeroed).1->Ok_0 as int),
    ensures
        ({
            let (z, p) = model::ensure_block(st, ino, lb, zeroed);
            &&& mapped(st, z, ino, i, s, r.0, r.1, lb, p->Ok_0)
            &&& extents::map_lookup(s.map, lb) is Some ==> extents::map_lookup(s.map, lb) == Some(
                p->Ok_0,
            ) && z == st
            &&& extents::map_lookup(s.map, lb) is None && zeroed ==> block(z, p->Ok_0 as int)
                == bytes::zeros(BLOCK_SIZE as int)
        }),
{
    reveal(model::ensure_block);
    if extents::map_lookup(s.map, lb) is Some {
        (i, s)
    } else {
        let goal = extents::map_goal(s.map, lb);
        lemma_alloc(st, goal);
        let (st1, bs) = model::alloc_blocks(st, 1, goal);
        let p = bs->Ok_0[0];
        lemma_fresh(st, st1, ino, s, p as int);
        let zs = bytes::zeros(BLOCK_SIZE as int);
        let st2 = if zeroed {
            model::write_block(st1, p as int, zs).0
        } else {
            st1
        };
        if zeroed {
            lemma_zero_fresh(st1, ino, s, p, zs);
        }
        lemma_add_data(st2, ino, s, lb, p);
        let m2 = extents::map_insert(s.map, lb, p);
        lemma_store(st2, ino, i, m2);
        let (st3, rj) = model::store_map(st2, i, m2);
        let j = rj->Ok_0;
        let t = Storage { map: m2, leaves: model::tree_blocks(j) };
        let k = layout::stamped(j);
        lemma_area_decides(st3, j, k);
        lemma_put_inode(st3, ino, t, k);
        let z = model::write_inode(st3, ino, k).0;
        assert forall|b: u64| #[trigger]
            model::tree_blocks(k).contains(b) && model::has_block(st3, b as int) implies block(
            z,
            b as int,
        ) == block(st3, b as int) by {
            assert(at(st3, ino, t, Role::Leaf(b)) == Some(b as int));
            assert(at(st3, ino, t, Role::Home) == model::inode_block(st3, ino));
        }
        lemma_load_same(st3, z, k);
        extents::insert_then_lookup(s.map, lb, p, lb);
        assert(same_shape(st, z)) by {
            assert forall|g: int| 0 <= g < st.bgds.len() implies (
            #[trigger] z.bgds[g]).block_bitmap_block == st.bgds[g].block_bitmap_block
                && z.bgds[g].inode_table_block == st.bgds[g].inode_table_block by {
                assert(st1.bgds[g].block_bitmap_block == st.bgds[g].block_bitmap_block);
                assert(st2.bgds[g].block_bitmap_block == st1.bgds[g].block_bitmap_block);
                assert(st3.bgds[g].block_bitmap_block == st2.bgds[g].block_bitmap_block);
            }
        }
        assert forall|o: u32| o != lb implies #[trigger] extents::map_lookup(t.map, o)
            == extents::map_lookup(s.map, o) by {
            extents::insert_then_lookup(s.map, lb, p, o);
        }
        assert forall|o: u32|
            (#[trigger] extents::map_lookup(s.map, o)) is Some && model::has_block(
                st,
                extents::map_lookup(s.map, o)->Some_0 as int,
            ) implies block(z, extents::map_lookup(s.map, o)->Some_0 as int) == block(
            st,
            extents::map_lookup(s.map, o)->Some_0 as int,
        ) by {
            let q = extents::map_lookup(s.map, o)->Some_0;
            assert(extents::map_lookup(t.map, o) == Some(q));
            lemma_data_alone(st3, ino, t, o);
            lemma_data_alone(st, ino, s, o);
            lemma_same_bitmap(st, st1, q as int);
            lemma_same_bitmap(st1, st2, q as int);
            assert(q != p) by {
                assert(at(st1, ino, s, Role::Data(o)) == Some(q as int));
            }
            assert(block(st1, q as int) == block(st, q as int));
            assert(block(st2, q as int) == block(st1, q as int));
            assert(block(st3, q as int) == block(st2, q as int));
        }
        if zeroed {
            lemma_data_alone(st3, ino, t, lb);
            lemma_same_bitmap(st2, st3, p as int);
            assert(block(st3, p as int) == block(st2, p as int));
        }
        (k, t)
    }
}

// ---- The device keeps its size --------------------------------------------------------------------

/// Whether two states are of the same device.
pub(crate) open spec fn same_device(a: FsState, z: FsState) -> bool {
    z.base == a.base && z.pages.len() == a.pages.len()
}

/// Whether two states are of the same device and have the same chain of unnamed files.
pub(crate) open spec fn same_size(a: FsState, z: FsState) -> bool {
    same_device(a, z) && z.orphans == a.orphans && z.sb.last_orphan == a.sb.last_orphan
}

proof fn lemma_size_fit(st: FsState, first: int, i: int, want: int)
    requires
        st.base >= 0,
    ensures
        same_size(st, model::first_fit(st, first, i, want).0),
    decreases st.bgds.len() - i,
{
    reveal(model::claim_run);
    if i < st.bgds.len() {
        lemma_size_fit(st, first, i + 1, want);
    }
}

pub(crate) proof fn lemma_size_alloc(st: FsState, want: int, goal: Option<u64>)
    requires
        st.base >= 0,
    ensures
        same_size(st, model::alloc_blocks(st, want, goal).0),
{
    reveal(model::alloc_blocks);
    reveal(model::claim_run);
    lemma_size_fit(st, 0, 0, want);
    match model::goal_group(st, goal) {
        Some(g) => {
            lemma_size_fit(st, g, 0, want);
        },
        None => {},
    }
}

#[verifier::spinoff_prover]
#[verifier::rlimit(40)]
proof fn lemma_size_take(st: FsState, existing: Seq<u64>, i: int, n: int, acc: Seq<u64>)
    requires
        st.base >= 0,
    ensures
        same_size(st, model::take_leaves(st, existing, i, n, acc).0),
    decreases n - i,
{
    if i < n {
        if i < existing.len() {
            lemma_size_take(st, existing, i + 1, n, acc.push(existing[i]));
        } else {
            lemma_size_alloc(st, 1, None);
            match model::alloc_block(st) {
                (st1, Ok(b)) => {
                    lemma_size_take(st1, existing, i + 1, n, acc.push(b));
                },
                _ => {},
            }
        }
    }
}

proof fn lemma_size_leaves(st: FsState, leaves: Seq<u64>, map: Seq<EfsExtent>, i: int)
    requires
        st.base >= 0,
    ensures
        same_size(st, model::write_leaves(st, leaves, map, i).0),
    decreases leaves.len() - i,
{
    if i < leaves.len() {
        let st1 = model::write_block(
            st,
            leaves[i] as int,
            layout::enc_node(BLOCK_SIZE as int, 0, 340, model::leaf_chunk(map, i)),
        ).0;
        lemma_size_leaves(st1, leaves, map, i + 1);
    }
}

pub(crate) proof fn lemma_size_free(st: FsState, list: Seq<u64>, i: int)
    requires
        st.base >= 0,
    ensures
        same_size(st, model::free_list(st, list, i).0),
    decreases list.len() - i,
{
    if i < list.len() {
        reveal(model::free_block);
        lemma_size_free(model::free_block(st, list[i]).0, list, i + 1);
    }
}

pub(crate) proof fn lemma_size_store(st: FsState, i: InodeView, map: Seq<EfsExtent>)
    requires
        st.base >= 0,
    ensures
        same_size(st, model::store_map(st, i, map).0),
{
    reveal(model::store_map);
    let existing = model::tree_blocks(i);
    let needed = model::leaves_needed(map.len() as int);
    lemma_size_take(st, existing, 0, needed, Seq::empty());
    let (st1, r) = model::take_leaves(st, existing, 0, needed, Seq::empty());
    if r is Ok {
        lemma_size_leaves(st1, r->Ok_0, map, 0);
        let st2 = model::write_leaves(st1, r->Ok_0, map, 0).0;
        lemma_size_free(st2, existing, needed);
    }
}

pub(crate) proof fn lemma_size_inode(st: FsState, ino: u64, i: InodeView)
    requires
        st.base >= 0,
    ensures
        same_size(st, model::write_inode(st, ino, i).0),
{
    reveal(model::write_inode);
}

#[verifier::spinoff_prover]
#[verifier::rlimit(40)]
pub(crate) proof fn lemma_size_ensure(st: FsState, ino: u64, lb: u32, zeroed: bool)
    requires
        st.base >= 0,
    ensures
        same_size(st, model::ensure_block(st, ino, lb, zeroed).0),
{
    reveal(model::ensure_block);
    if model::read_inode(st, ino) is Ok {
        let i = model::read_inode(st, ino)->Ok_0;
        if model::load_map(st, i) is Ok {
            let m = model::load_map(st, i)->Ok_0;
            lemma_size_alloc(st, 1, extents::map_goal(m, lb));
            let (st1, r) = model::alloc_blocks(st, 1, extents::map_goal(m, lb));
            if r is Ok && r->Ok_0.len() > 0 {
                let p = r->Ok_0[0];
                let st2 = if zeroed {
                    model::write_block(st1, p as int, bytes::zeros(BLOCK_SIZE as int)).0
                } else {
                    st1
                };
                let m2 = extents::map_insert(m, lb, p);
                lemma_size_store(st2, i, m2);
                let (st3, j) = model::store_map(st2, i, m2);
                if j is Ok {
                    lemma_size_inode(st3, ino, layout::stamped(j->Ok_0));
                }
            }
        }
    }
}

// ---- What a file holds ----------------------------------------------------------------------------

/// Where logical block numbers, which are 32 bits wide, end.
pub const LIMIT: u64 = 0x1000_0000_0000;

/// Whether the block behind byte `pos`, if there is one, lies on the device.
pub open spec fn readable(st: FsState, map: Seq<EfsExtent>, pos: int) -> bool {
    match extents::map_lookup(map, model::logical_block(pos)) {
        Some(p) => model::has_block(st, p as int),
        None => true,
    }
}

/// Byte `pos` of a file with the given extents. Where nothing is mapped there are zeros.
pub open spec fn byte_at(st: FsState, map: Seq<EfsExtent>, pos: int) -> u8 {
    match extents::map_lookup(map, model::logical_block(pos)) {
        Some(p) => block(st, p as int)[pos % 4096],
        None => 0,
    }
}

/// Writing to a block of a file's data leaves the file in order.
#[verifier::spinoff_prover]
#[verifier::rlimit(40)]
pub(crate) proof fn lemma_put_data(
    st: FsState,
    ino: u64,
    i: InodeView,
    s: Storage,
    lb: u32,
    p: u64,
    data: Seq<u8>,
)
    requires
        in_order(st, ino, i, s),
        extents::map_lookup(s.map, lb) == Some(p),
        data.len() == 4096,
        model::write_data(st, p as int, data).1 is Ok,
    ensures
        ({
            let z = model::write_data(st, p as int, data).0;
            &&& in_order(z, ino, i, s)
            &&& same_shape(st, z)
            &&& block(z, p as int) == data
            &&& forall|x: int|
                model::has_block(st, x) && x != p ==> #[trigger] block(z, x) == block(st, x)
        }),
{
    let z = model::write_data(st, p as int, data).0;
    assert(z.pages =~= st.pages.update(st.base + p as int, data));
    assert(block_device::full_pages(z.pages)) by {
        assert forall|k: int| 0 <= k < z.pages.len() implies (#[trigger] z.pages[k]).len()
            == block_device::PAGE_SIZE by {
            assert(st.pages[k].len() == block_device::PAGE_SIZE);
        }
    }
    assert(same_shape(st, z));
    lemma_same_roles(st, z, ino, s);
    lemma_data_alone(st, ino, s, lb);
    assert forall|g: int|
        0 <= g < st.bgds.len() && model::has_block(st, bitmap_of(st, g)) implies block(
        z,
        #[trigger] bitmap_of(st, g),
    ) == block(st, bitmap_of(st, g)) by {
        if bitmap_of(st, g) == p {
            assert(is_bitmap(st, p as int));
        }
    }
    lemma_kept_same(st, z);
    lemma_separate_same(st, z, ino, s);
    assert(model::read_inode(z, ino) == model::read_inode(st, ino)) by {
        reveal(model::read_inode);
        if model::inode_block(st, ino) is Some {
            let b = model::inode_block(st, ino)->Some_0;
            if model::has_block(st, b) {
                assert(block(z, b) == block(st, b));
            }
        }
    }
    if !i.inline() {
        assert forall|b: u64| #[trigger]
            model::tree_blocks(i).contains(b) && model::has_block(st, b as int) implies block(
            z,
            b as int,
        ) == block(st, b as int) by {}
        lemma_load_same(st, z, i);
    }
}

/// What writing `data[w..]` at `off + w` does to byte `pos` of a file.
pub open spec fn byte_written(
    a: FsState,
    m: Seq<EfsExtent>,
    z: FsState,
    n: Seq<EfsExtent>,
    off: int,
    data: Seq<u8>,
    w: int,
    pos: int,
) -> bool {
    if off + w <= pos < off + data.len() {
        readable(z, n, pos) && byte_at(z, n, pos) == data[pos - off]
    } else {
        readable(a, m, pos) ==> readable(z, n, pos) && byte_at(z, n, pos) == byte_at(a, m, pos)
    }
}

/// What writing `data[w..]` at `off + w` does to what the file holds.
pub open spec fn written_over(
    a: FsState,
    m: Seq<EfsExtent>,
    z: FsState,
    n: Seq<EfsExtent>,
    off: int,
    data: Seq<u8>,
    w: int,
) -> bool {
    forall|pos: int|
        0 <= pos < LIMIT ==> #[trigger] byte_written(a, m, z, n, off, data, w, pos)
}

pub(crate) proof fn lemma_logical(pos: int)
    requires
        0 <= pos < LIMIT,
    ensures
        model::logical_block(pos) == pos / 4096,
{
}

#[verifier::spinoff_prover]
#[verifier::rlimit(40)]
proof fn lemma_block_written(
    st: FsState,
    s: Storage,
    st1: FsState,
    t: Storage,
    st2: FsState,
    off: int,
    data: Seq<u8>,
    w: int,
    n: int,
    p: u64,
    b: Seq<u8>,
)
    requires
        0 <= off,
        0 <= w,
        n > 0,
        w + n <= data.len(),
        off + data.len() <= LIMIT,
        (off + w) % 4096 + n <= 4096,
        same_shape(st, st1),
        same_shape(st1, st2),
        model::has_block(st, p as int),
        b.len() == 4096,
        extents::map_lookup(t.map, model::logical_block(off + w)) == Some(p),
        forall|o: u32|
            o != model::logical_block(off + w) ==> #[trigger] extents::map_lookup(t.map, o)
                == extents::map_lookup(s.map, o) && extents::map_lookup(t.map, o) != Some(p),
        forall|o: u32|
            (#[trigger] extents::map_lookup(s.map, o)) is Some && model::has_block(
                st,
                extents::map_lookup(s.map, o)->Some_0 as int,
            ) ==> block(st1, extents::map_lookup(s.map, o)->Some_0 as int) == block(
                st,
                extents::map_lookup(s.map, o)->Some_0 as int,
            ),
        forall|x: int|
            model::has_block(st1, x) && x != p ==> #[trigger] block(st2, x) == block(st1, x),
        block(st2, p as int) == bytes::splice(b, (off + w) % 4096, data.subrange(w, w + n)),
        n != 4096 ==> b == block(st1, p as int),
        match extents::map_lookup(s.map, model::logical_block(off + w)) {
            Some(q) => q == p,
            None => n != 4096 ==> block(st1, p as int) == bytes::zeros(4096),
        },
    ensures
        written_over(st, s.map, st2, t.map, off, data.take(w + n), w),
{
    let d = data.take(w + n);
    let lb = model::logical_block(off + w);
    lemma_logical(off + w);
    assert forall|pos: int| 0 <= pos < LIMIT implies #[trigger] byte_written(
        st,
        s.map,
        st2,
        t.map,
        off,
        d,
        w,
        pos,
    ) by {
        lemma_logical(pos);
        let o = model::logical_block(pos);
        if o == lb {
            assert(pos / 4096 == (off + w) / 4096);
            let page = block(st2, p as int);
            if off + w <= pos < off + w + n {
                assert(pos % 4096 == (off + w) % 4096 + (pos - off - w));
                assert(page[pos % 4096] == data.subrange(w, w + n)[pos - off - w]);
            } else {
                assert(n != 4096);
                assert(page[pos % 4096] == b[pos % 4096]);
            }
        } else {
            assert(pos / 4096 != (off + w) / 4096);
            assert(!(off + w <= pos < off + w + n));
            assert(extents::map_lookup(t.map, o) == extents::map_lookup(s.map, o));
        }
    }
}

#[verifier::spinoff_prover]
#[verifier::rlimit(40)]
proof fn lemma_compose(
    a: FsState,
    m: Seq<EfsExtent>,
    x: FsState,
    k: Seq<EfsExtent>,
    z: FsState,
    n: Seq<EfsExtent>,
    off: int,
    data: Seq<u8>,
    w: int,
    v: int,
)
    requires
        0 <= w <= v <= data.len(),
        written_over(a, m, x, k, off, data.take(v), w),
        written_over(x, k, z, n, off, data, v),
    ensures
        written_over(a, m, z, n, off, data, w),
{
    assert forall|pos: int| 0 <= pos < LIMIT implies #[trigger] byte_written(
        a,
        m,
        z,
        n,
        off,
        data,
        w,
        pos,
    ) by {
        assert(byte_written(a, m, x, k, off, data.take(v), w, pos));
        assert(byte_written(x, k, z, n, off, data, v, pos));
        if off + w <= pos < off + v {
            assert(data.take(v)[pos - off] == data[pos - off]);
            assert(readable(x, k, pos));
        }
    }
}

#[verifier::spinoff_prover]
#[verifier::rlimit(40)]
proof fn lemma_write_extents(
    st: FsState,
    ino: u64,
    i: InodeView,
    s: Storage,
    off: int,
    data: Seq<u8>,
    w: int,
) -> (r: (InodeView, Storage))
    requires
        in_order(st, ino, i, s),
        !i.inline(),
        0 <= off,
        0 <= w <= data.len(),
        off + data.len() <= LIMIT,
        model::write_extents(st, ino, off, data, w).1 is Ok,
    ensures
        ({
            let z = model::write_extents(st, ino, off, data, w).0;
            &&& in_order(z, ino, r.0, r.1)
            &&& same_shape(st, z)
            &&& r.0 == (InodeView {
                data_area: r.0.data_area,
                blocks: r.0.blocks,
                checksum: r.0.checksum,
                ..i
            })
            &&& written_over(st, s.map, z, r.1.map, off, data, w)
        }),
    decreases data.len() - w,
{
    if w >= data.len() {
        (i, s)
    } else {
        let skew = (off + w) % 4096;
        let n = model::min(data.len() - w, 4096 - skew);
        let lb = model::logical_block(off + w);
        let zeroed = n != 4096;
        let (st1, rp) = model::ensure_block(st, ino, lb, zeroed);
        let p = rp->Ok_0;
        let b = if zeroed {
            block(st1, p as int)
        } else {
            bytes::zeros(BLOCK_SIZE as int)
        };
        assert(model::has_block(st1, p as int));
        let new = bytes::splice(b, skew, data.subrange(w, w + n));
        let st2 = model::write_data(st1, p as int, new).0;
        lemma_size_ensure(st, ino, lb, zeroed);
        let (j, t) = lemma_ensure(st, ino, i, s, lb, zeroed);
        assert(b.len() == 4096) by {
            if zeroed {
                assert(st1.pages[st1.base + p as int].len() == block_device::PAGE_SIZE);
            }
        }
        lemma_put_data(st1, ino, j, t, lb, p, new);
        lemma_data_alone(st1, ino, t, lb);
        lemma_block_written(st, s, st1, t, st2, off, data, w, n, p, b);
        let (k, u) = lemma_write_extents(st2, ino, j, t, off, data, w + n);
        let z = model::write_extents(st2, ino, off, data, w + n).0;
        lemma_compose(st, s.map, st2, t.map, z, u.map, off, data, w, w + n);
        assert(same_shape(st, z)) by {
            assert forall|g: int| 0 <= g < st.bgds.len() implies (
            #[trigger] z.bgds[g]).block_bitmap_block == st.bgds[g].block_bitmap_block
                && z.bgds[g].inode_table_block == st.bgds[g].inode_table_block by {
                assert(st1.bgds[g].block_bitmap_block == st.bgds[g].block_bitmap_block);
                assert(st2.bgds[g].block_bitmap_block == st1.bgds[g].block_bitmap_block);
            }
        }
        (k, u)
    }
}

// ---- Reading ------------------------------------------------------------------------------------

/// `buf` with the bytes of the file from `pos` on at `dest`.
spec fn filled(
    st: FsState,
    m: Seq<EfsExtent>,
    buf: Seq<u8>,
    pos: int,
    rem: int,
    dest: int,
) -> Seq<u8> {
    Seq::new(
        buf.len(),
        |x: int|
            if dest <= x < dest + rem {
                byte_at(st, m, pos + (x - dest))
            } else {
                buf[x]
            },
    )
}

proof fn lemma_pos(pos: int, k: int)
    requires
        pos >= 0,
        k >= 0,
        pos + k < LIMIT,
    ensures
        model::logical_block(pos) + (pos % 4096 + k) / 4096 <= u32::MAX,
        model::logical_block(pos + k) == model::logical_block(pos) + (pos % 4096 + k) / 4096,
        (pos + k) % 4096 == (pos % 4096 + k) % 4096,
{
}

/// What the first run of a read brings.
#[verifier::spinoff_prover]
#[verifier::rlimit(40)]
proof fn lemma_first_run(st: FsState, m: Seq<EfsExtent>, pos: int, rem: int)
    requires
        model::mounted(st),
        extents::valid_map(m),
        0 <= pos,
        0 < rem,
        pos + rem <= LIMIT,
        forall|x: int| pos <= x < pos + rem ==> #[trigger] readable(st, m, x),
    ensures
        ({
            let adv = model::run_advance(m, pos, rem);
            let take = model::run_take(m, pos, rem);
            &&& 0 < adv <= rem
            &&& match extents::map_run(m, model::logical_block(pos)) {
                extents::BlockRun::Mapped { phys, blocks } => {
                    &&& 0 < take <= 248
                    &&& st.base + phys + take <= st.pages.len()
                    &&& forall|k: int|
                        0 <= k < adv ==> #[trigger] byte_at(st, m, pos + k) == st.pages[st.base
                            + phys + (pos % 4096 + k) / 4096][(pos % 4096 + k) % 4096]
                },
                extents::BlockRun::Hole { blocks } => forall|k: int|
                    0 <= k < adv ==> #[trigger] byte_at(st, m, pos + k) == 0,
            }
        }),
{
    let lb = model::logical_block(pos);
    let skew = pos % 4096;
    let adv = model::run_advance(m, pos, rem);
    let take = model::run_take(m, pos, rem);
    let needed = (rem + skew + 4095) / 4096;
    assert(needed >= 1);
    extents::run_agrees_with_lookup(m, lb, 0);
    match extents::map_run(m, lb) {
        extents::BlockRun::Mapped { phys, blocks } => {
            let last = if take > 1 {
                (take - 1) * 4096 - skew
            } else {
                0
            };
            assert(0 <= last < rem);
            lemma_pos(pos, last);
            assert((skew + last) / 4096 == take - 1);
            assert(readable(st, m, pos + last));
            extents::run_agrees_with_lookup(m, lb, take - 1);
            assert forall|k: int| 0 <= k < adv implies #[trigger] byte_at(st, m, pos + k)
                == st.pages[st.base + phys + (skew + k) / 4096][(skew + k) % 4096] by {
                lemma_pos(pos, k);
                let j = (skew + k) / 4096;
                assert(0 <= j < take);
                extents::run_agrees_with_lookup(m, lb, j);
            }
        },
        extents::BlockRun::Hole { blocks } => {
            assert forall|k: int| 0 <= k < adv implies #[trigger] byte_at(st, m, pos + k) == 0 by {
                lemma_pos(pos, k);
                let j = (skew + k) / 4096;
                assert(0 <= j < take);
                extents::run_agrees_with_lookup(m, lb, j);
            }
        },
    }
}

#[verifier::spinoff_prover]
#[verifier::rlimit(40)]
proof fn lemma_plan(
    st: FsState,
    m: Seq<EfsExtent>,
    pos: int,
    rem: int,
    dest: int,
    acc: Seq<model::ExtentRead>,
    buf: Seq<u8>,
)
    requires
        model::mounted(st),
        extents::valid_map(m),
        0 <= pos,
        0 <= rem,
        pos + rem <= LIMIT,
        0 <= dest,
        dest + rem <= buf.len(),
        buf.len() <= usize::MAX,
        forall|x: int| pos <= x < pos + rem ==> #[trigger] readable(st, m, x),
        forall|x: int| dest <= x < dest + rem ==> #[trigger] buf[x] == 0,
    ensures
        ({
            let runs = model::plan_reads(m, st.base * 8, pos, rem, dest, acc);
            &&& acc.len() <= runs.len()
            &&& runs.take(acc.len() as int) == acc
            &&& model::run_reads(st.pages, runs, acc.len() as int, buf) == Ok::<Seq<u8>, Error>(
                filled(st, m, buf, pos, rem, dest),
            )
        }),
    decreases rem,
{
    if rem == 0 {
        assert(acc.take(acc.len() as int) =~= acc);
        assert(filled(st, m, buf, pos, rem, dest) =~= buf);
    } else {
        lemma_first_run(st, m, pos, rem);
        let adv = model::run_advance(m, pos, rem);
        let take = model::run_take(m, pos, rem);
        match extents::map_run(m, model::logical_block(pos)) {
            extents::BlockRun::Mapped { phys, blocks } => {
                let r = model::ExtentRead {
                    lba: (st.base * 8 + phys * 8) as u64,
                    sectors: (take * 8) as u16,
                    dest: dest as usize,
                    skew: (pos % 4096) as usize,
                    len: adv as usize,
                };
                let acc1 = acc.push(r);
                let d = model::device_bytes(st.pages, r.lba as int / 8, r.skew as int, r.len as int);
                let buf1 = bytes::splice(buf, dest, d);
                assert(r.lba as int / 8 == st.base + phys);
                assert(r.sectors as int / 8 == take);
                assert forall|x: int| dest + adv <= x < dest + rem implies #[trigger] buf1[x]
                    == 0 by {
                    assert(buf[x] == 0);
                }
                assert forall|x: int| pos + adv <= x < pos + rem implies #[trigger] readable(
                    st,
                    m,
                    x,
                ) by {}
                lemma_plan(st, m, pos + adv, rem - adv, dest + adv, acc1, buf1);
                let runs = model::plan_reads(
                    m,
                    st.base * 8,
                    pos + adv,
                    rem - adv,
                    dest + adv,
                    acc1,
                );
                assert(runs == model::plan_reads(m, st.base * 8, pos, rem, dest, acc));
                assert(runs[acc.len() as int] == runs.take(acc1.len() as int)[acc.len() as int]);
                assert(runs.take(acc.len() as int) =~= runs.take(acc1.len() as int).take(
                    acc.len() as int,
                ));
                assert(acc1.take(acc.len() as int) =~= acc);
                let f1 = filled(st, m, buf1, pos + adv, rem - adv, dest + adv);
                let f = filled(st, m, buf, pos, rem, dest);
                assert forall|x: int| 0 <= x < buf.len() implies f1[x] == f[x] by {
                    if dest <= x < dest + adv {
                        assert(byte_at(st, m, pos + (x - dest)) == d[x - dest]);
                    }
                }
                assert(f1 =~= f);
            },
            extents::BlockRun::Hole { blocks } => {
                assert forall|x: int| pos + adv <= x < pos + rem implies #[trigger] readable(
                    st,
                    m,
                    x,
                ) by {}
                lemma_plan(st, m, pos + adv, rem - adv, dest + adv, acc, buf);
                let f1 = filled(st, m, buf, pos + adv, rem - adv, dest + adv);
                let f = filled(st, m, buf, pos, rem, dest);
                assert forall|x: int| 0 <= x < buf.len() implies f1[x] == f[x] by {
                    if dest <= x < dest + adv {
                        assert(byte_at(st, m, pos + (x - dest)) == 0);
                        assert(buf[x] == 0);
                    }
                }
                assert(f1 =~= f);
            },
        }
    }
}

// ---- Laws -----------------------------------------------------------------------------------------

/// Byte `pos` of a file.
pub open spec fn file_byte(st: FsState, i: InodeView, s: Storage, pos: int) -> u8 {
    if i.inline() {
        i.data_area[pos]
    } else {
        byte_at(st, s.map, pos)
    }
}

/// Whether byte `pos` of a file can be read.
pub open spec fn file_readable(st: FsState, i: InodeView, s: Storage, pos: int) -> bool {
    if i.inline() {
        pos < INODE_DATA_AREA_SIZE
    } else {
        readable(st, s.map, pos)
    }
}

/// Whether file `ino` is in order.
pub open spec fn file_in_order(st: FsState, ino: u64) -> bool {
    match model::read_inode(st, ino) {
        Ok(i) => match storage(st, i) {
            Some(s) => in_order(st, ino, i, s) && (i.inline() ==> i.size <= INODE_DATA_AREA_SIZE),
            None => false,
        },
        Err(_) => false,
    }
}

/// What the first run of a read brings, whether or not it can be read.
#[verifier::spinoff_prover]
#[verifier::rlimit(40)]
proof fn lemma_first_run_any(st: FsState, m: Seq<EfsExtent>, pos: int, rem: int)
    requires
        model::mounted(st),
        extents::valid_map(m),
        0 <= pos,
        0 < rem,
        pos + rem <= LIMIT,
    ensures
        ({
            let adv = model::run_advance(m, pos, rem);
            let take = model::run_take(m, pos, rem);
            &&& 0 < adv <= rem
            &&& match extents::map_run(m, model::logical_block(pos)) {
                extents::BlockRun::Mapped { phys, blocks } => {
                    &&& 0 < take <= 248
                    &&& phys < 0x1_0000_0000_0000 + 0x1_0000_0000
                    &&& forall|k: int|
                        0 <= k < adv ==> #[trigger] byte_at(st, m, pos + k) == st.pages[st.base
                            + phys + (pos % 4096 + k) / 4096][(pos % 4096 + k) % 4096]
                    &&& st.base + phys + take <= st.pages.len() ==> forall|k: int|
                        0 <= k < adv ==> #[trigger] readable(st, m, pos + k)
                },
                extents::BlockRun::Hole { blocks } => forall|k: int|
                    0 <= k < adv ==> #[trigger] byte_at(st, m, pos + k) == 0 && readable(
                        st,
                        m,
                        pos + k,
                    ),
            }
        }),
{
    let lb = model::logical_block(pos);
    let skew = pos % 4096;
    let adv = model::run_advance(m, pos, rem);
    let take = model::run_take(m, pos, rem);
    let needed = (rem + skew + 4095) / 4096;
    assert(needed >= 1);
    extents::run_agrees_with_lookup(m, lb, 0);
    match extents::map_run(m, lb) {
        extents::BlockRun::Mapped { phys, blocks } => {
            assert forall|k: int| 0 <= k < adv implies #[trigger] byte_at(st, m, pos + k)
                == st.pages[st.base + phys + (skew + k) / 4096][(skew + k) % 4096] by {
                lemma_pos(pos, k);
                let j = (skew + k) / 4096;
                assert(0 <= j < take);
                extents::run_agrees_with_lookup(m, lb, j);
            }
            if st.base + phys + take <= st.pages.len() {
                assert forall|k: int| 0 <= k < adv implies #[trigger] readable(st, m, pos + k) by {
                    lemma_pos(pos, k);
                    let j = (skew + k) / 4096;
                    assert(0 <= j < take);
                    extents::run_agrees_with_lookup(m, lb, j);
                }
            }
        },
        extents::BlockRun::Hole { blocks } => {
            assert forall|k: int| 0 <= k < adv implies #[trigger] byte_at(st, m, pos + k) == 0
                && readable(st, m, pos + k) by {
                lemma_pos(pos, k);
                let j = (skew + k) / 4096;
                assert(0 <= j < take);
                extents::run_agrees_with_lookup(m, lb, j);
            }
        },
    }
}

/// A read that succeeds has read what the file holds.
#[verifier::spinoff_prover]
#[verifier::rlimit(60)]
proof fn lemma_plan_any(
    st: FsState,
    m: Seq<EfsExtent>,
    pos: int,
    rem: int,
    dest: int,
    acc: Seq<model::ExtentRead>,
    buf: Seq<u8>,
)
    requires
        model::mounted(st),
        st.pages.len() <= 0x1_0000_0000_0000,
        extents::valid_map(m),
        0 <= pos,
        0 <= rem,
        pos + rem <= LIMIT,
        0 <= dest,
        dest + rem <= buf.len(),
        buf.len() <= usize::MAX,
        forall|x: int| dest <= x < dest + rem ==> #[trigger] buf[x] == 0,
    ensures
        ({
            let runs = model::plan_reads(m, st.base * 8, pos, rem, dest, acc);
            &&& acc.len() <= runs.len()
            &&& runs.take(acc.len() as int) == acc
            &&& model::run_reads(st.pages, runs, acc.len() as int, buf) matches Ok(d) ==> d
                == filled(st, m, buf, pos, rem, dest) && forall|x: int|
                pos <= x < pos + rem ==> #[trigger] readable(st, m, x)
        }),
    decreases rem,
{
    if rem == 0 {
        assert(acc.take(acc.len() as int) =~= acc);
        assert(filled(st, m, buf, pos, rem, dest) =~= buf);
    } else {
        lemma_first_run_any(st, m, pos, rem);
        let adv = model::run_advance(m, pos, rem);
        let take = model::run_take(m, pos, rem);
        match extents::map_run(m, model::logical_block(pos)) {
            extents::BlockRun::Mapped { phys, blocks } => {
                let r = model::ExtentRead {
                    lba: (st.base * 8 + phys * 8) as u64,
                    sectors: (take * 8) as u16,
                    dest: dest as usize,
                    skew: (pos % 4096) as usize,
                    len: adv as usize,
                };
                let acc1 = acc.push(r);
                let d = model::device_bytes(st.pages, r.lba as int / 8, r.skew as int, r.len as int);
                let buf1 = bytes::splice(buf, dest, d);
                assert(r.lba as int / 8 == st.base + phys);
                assert(r.sectors as int / 8 == take);
                assert forall|x: int| dest + adv <= x < dest + rem implies #[trigger] buf1[x]
                    == 0 by {
                    assert(buf[x] == 0);
                }
                lemma_plan_any(st, m, pos + adv, rem - adv, dest + adv, acc1, buf1);
                let runs = model::plan_reads(
                    m,
                    st.base * 8,
                    pos + adv,
                    rem - adv,
                    dest + adv,
                    acc1,
                );
                assert(runs == model::plan_reads(m, st.base * 8, pos, rem, dest, acc));
                assert(runs[acc.len() as int] == runs.take(acc1.len() as int)[acc.len() as int]);
                assert(runs.take(acc.len() as int) =~= runs.take(acc1.len() as int).take(
                    acc.len() as int,
                ));
                assert(acc1.take(acc.len() as int) =~= acc);
                if model::run_reads(st.pages, runs, acc.len() as int, buf) is Ok {
                    let f1 = filled(st, m, buf1, pos + adv, rem - adv, dest + adv);
                    let f = filled(st, m, buf, pos, rem, dest);
                    assert forall|x: int| 0 <= x < buf.len() implies f1[x] == f[x] by {
                        if dest <= x < dest + adv {
                            assert(byte_at(st, m, pos + (x - dest)) == d[x - dest]);
                        }
                    }
                    assert(f1 =~= f);
                    assert forall|x: int| pos <= x < pos + rem implies #[trigger] readable(
                        st,
                        m,
                        x,
                    ) by {
                        if x < pos + adv {
                            assert(readable(st, m, pos + (x - pos)));
                        }
                    }
                }
            },
            extents::BlockRun::Hole { blocks } => {
                lemma_plan_any(st, m, pos + adv, rem - adv, dest + adv, acc, buf);
                let f1 = filled(st, m, buf, pos + adv, rem - adv, dest + adv);
                let f = filled(st, m, buf, pos, rem, dest);
                assert forall|x: int| 0 <= x < buf.len() implies f1[x] == f[x] by {
                    if dest <= x < dest + adv {
                        assert(byte_at(st, m, pos + (x - dest)) == 0);
                        assert(buf[x] == 0);
                    }
                }
                assert(f1 =~= f);
                assert forall|x: int| pos <= x < pos + adv implies #[trigger] readable(
                    st,
                    m,
                    x,
                ) by {
                    assert(byte_at(st, m, pos + (x - pos)) == 0);
                }
            },
        }
    }
}

/// A read ends with the file: from an offset within the file, a read that succeeds gives as many
/// bytes as were asked for, or as many as the file has left, whichever is less, and each of them
/// is the file's byte at its place. It succeeds if these bytes can be read. From the end of the
/// file on, and for no bytes, it gives none.
#[verifier::spinoff_prover]
#[verifier::rlimit(40)]
pub proof fn read_ends_with_the_file(
    st: FsState,
    ino: u64,
    i: InodeView,
    s: Storage,
    off: int,
    count: int,
)
    requires
        in_order(st, ino, i, s),
        i.inline() ==> i.size <= INODE_DATA_AREA_SIZE,
        0 <= off,
        0 <= count <= usize::MAX,
        i.size <= LIMIT || off + count <= LIMIT,
    ensures
        off >= i.size || count == 0 ==> model::read_file_data(st, i, off, count) == Ok::<
            Seq<u8>,
            Error,
        >(Seq::empty()),
        off < i.size && count > 0 ==> (model::read_file_data(st, i, off, count) matches Ok(d) ==> {
            &&& off + count <= i.size ==> d.len() == count
            &&& off + count > i.size ==> d.len() == i.size - off
            &&& forall|k: int|
                0 <= k < d.len() ==> #[trigger] d[k] == file_byte(st, i, s, off + k)
        }),
        off < i.size && count > 0 && (forall|pos: int|
            off <= pos < off + count && pos < i.size ==> #[trigger] file_readable(st, i, s, pos))
            ==> model::read_file_data(st, i, off, count) is Ok,
{
    reveal(model::read_file_data);
    if off < i.size && count > 0 {
        let n = if off + count <= i.size {
            count
        } else {
            i.size - off
        };
        if i.inline() {
            lemma_inode_len(st, ino, i);
        } else {
            let z = bytes::zeros(n);
            lemma_plan_any(st, s.map, off, n, 0, Seq::empty(), z);
            if forall|pos: int|
                off <= pos < off + count && pos < i.size ==> #[trigger] file_readable(
                    st,
                    i,
                    s,
                    pos,
                ) {
                assert forall|x: int| off <= x < off + n implies #[trigger] readable(
                    st,
                    s.map,
                    x,
                ) by {
                    assert(file_readable(st, i, s, x));
                }
                lemma_plan(st, s.map, off, n, 0, Seq::empty(), z);
            }
        }
    }
}

/// A page of a file is the file's bytes at its place, as many as the file has there, and zeros
/// after them.
#[verifier::spinoff_prover]
#[verifier::rlimit(40)]
pub proof fn page_is_the_files_bytes(
    st: FsState,
    ino: u64,
    i: InodeView,
    s: Storage,
    index: u64,
)
    requires
        in_order(st, ino, i, s),
        i.inline() ==> i.size <= INODE_DATA_AREA_SIZE,
        index * 4096 + 4096 <= LIMIT,
    ensures
        model::fill_page(st, ino, index) matches Ok((d, n)) ==> {
            let off = index * 4096;
            &&& d.len() == 4096
            &&& off >= i.size ==> n == 0
            &&& off < i.size && off + 4096 <= i.size ==> n == 4096
            &&& off < i.size && off + 4096 > i.size ==> n == i.size - off
            &&& forall|k: int|
                0 <= k < 4096 ==> #[trigger] d[k] == (if off + k < i.size {
                    file_byte(st, i, s, off + k)
                } else {
                    0
                })
        },
{
    reveal(model::fill_page);
    let off = index * 4096;
    lemma_inode_len(st, ino, i);
    if off < i.size && !i.inline() {
        assert forall|k: int| 0 <= k < 4096 implies model::logical_block(off + k)
            == model::logical_block(off) && #[trigger] ((off + k) % 4096) == k by {
            assert((off + k) / 4096 == index);
        }
        match extents::map_lookup(s.map, model::logical_block(off)) {
            Some(p) => {
                assert(model::has_block(st, p as int) ==> block(st, p as int).len() == 4096);
            },
            None => {},
        }
        if let Ok((d, n)) = model::fill_page(st, ino, index) {
            assert forall|k: int| 0 <= k < 4096 implies #[trigger] d[k] == (if off + k < i.size {
                file_byte(st, i, s, off + k)
            } else {
                0
            }) by {
                assert((off + k) % 4096 == k);
            }
        }
    }
}

/// Reading gives what the file holds.
#[verifier::spinoff_prover]
#[verifier::rlimit(40)]
pub proof fn read_gives_contents(
    st: FsState,
    ino: u64,
    i: InodeView,
    s: Storage,
    off: int,
    n: int,
)
    requires
        in_order(st, ino, i, s),
        0 <= off,
        0 < n,
        off + n <= i.size,
        off + n <= LIMIT,
        n <= usize::MAX,
        forall|pos: int| off <= pos < off + n ==> #[trigger] file_readable(st, i, s, pos),
    ensures
        model::read_file_data(st, i, off, n) == Ok::<Seq<u8>, Error>(
            Seq::new(n as nat, |k: int| file_byte(st, i, s, off + k)),
        ),
{
    reveal(model::read_file_data);
    let want = Seq::new(n as nat, |k: int| file_byte(st, i, s, off + k));
    if i.inline() {
        lemma_inode_len(st, ino, i);
        assert(file_readable(st, i, s, off + n - 1));
        assert(i.data_area.subrange(off, off + n) =~= want);
    } else {
        let z = bytes::zeros(n);
        assert forall|x: int| off <= x < off + n implies #[trigger] readable(st, s.map, x) by {
            assert(file_readable(st, i, s, x));
        }
        lemma_plan(st, s.map, off, n, 0, Seq::empty(), z);
        assert(filled(st, s.map, z, off, n, 0) =~= want);
    }
}

/// Putting another inode in place whose storage is the same leaves the file in order.
#[verifier::spinoff_prover]
#[verifier::rlimit(40)]
pub(crate) proof fn lemma_reinode(st: FsState, ino: u64, i: InodeView, s: Storage, j: InodeView)
    requires
        in_order(st, ino, i, s),
        j.data_area.len() == INODE_DATA_AREA_SIZE,
        j.inline() == i.inline(),
        !i.inline() ==> j.data_area == i.data_area,
        model::write_inode(st, ino, j).1 is Ok,
    ensures
        ({
            let z = model::write_inode(st, ino, j).0;
            &&& in_order(z, ino, j, s)
            &&& same_shape(st, z)
            &&& forall|lb: u32|
                (#[trigger] extents::map_lookup(s.map, lb)) is Some && model::has_block(
                    st,
                    extents::map_lookup(s.map, lb)->Some_0 as int,
                ) ==> block(z, extents::map_lookup(s.map, lb)->Some_0 as int) == block(
                    st,
                    extents::map_lookup(s.map, lb)->Some_0 as int,
                )
        }),
{
    let z = model::write_inode(st, ino, j).0;
    lemma_put_inode(st, ino, s, j);
    if !i.inline() {
        lemma_area_decides(st, i, j);
        assert forall|b: u64| #[trigger]
            model::tree_blocks(j).contains(b) && model::has_block(st, b as int) implies block(
            z,
            b as int,
        ) == block(st, b as int) by {
            assert(at(st, ino, s, Role::Leaf(b)) == Some(b as int));
            assert(at(st, ino, s, Role::Home) == model::inode_block(st, ino));
        }
        lemma_load_same(st, z, j);
    }
    assert forall|lb: u32|
        (#[trigger] extents::map_lookup(s.map, lb)) is Some && model::has_block(
            st,
            extents::map_lookup(s.map, lb)->Some_0 as int,
        ) implies block(z, extents::map_lookup(s.map, lb)->Some_0 as int) == block(
        st,
        extents::map_lookup(s.map, lb)->Some_0 as int,
    ) by {
        lemma_data_alone(st, ino, s, lb);
    }
}

proof fn lemma_not_inline(f: u32, c: u32)
    ensures
        (f & !c) & c == 0,
{
    assert((f & !c) & c == 0) by (bit_vector);
}

/// The page that inline data moves to.
spec fn moved_page(i: InodeView) -> Seq<u8> {
    bytes::splice(
        bytes::zeros(BLOCK_SIZE as int),
        0,
        i.data_area.subrange(0, model::min(i.size as int, INODE_DATA_AREA_SIZE as int)),
    )
}

/// The inode whose inline data has moved to block `p`.
spec fn moved_inode(i: InodeView, p: u64) -> InodeView {
    InodeView {
        flags: i.flags & !INODE_FLAG_INLINE_DATA,
        data_area: layout::enc_node(
            INODE_DATA_AREA_SIZE as int,
            0,
            MAX_INLINE_EXTENTS as u16,
            seq![EfsExtent::make(0, 1, p)],
        ),
        blocks: 1,
        ..i
    }
}

/// Whether byte `pos` reads as it did inline, with zeros past the end of the file.
pub(crate) open spec fn moved_byte(z: FsState, map: Seq<EfsExtent>, i: InodeView, pos: int) -> bool {
    readable(z, map, pos) && byte_at(z, map, pos) == (if pos < i.size {
        i.data_area[pos]
    } else {
        0u8
    })
}

/// What the moved data reads as.
#[verifier::spinoff_prover]
#[verifier::rlimit(40)]
proof fn lemma_moved_bytes(z: FsState, i: InodeView, p: u64)
    requires
        i.data_area.len() == INODE_DATA_AREA_SIZE,
        i.size <= INODE_DATA_AREA_SIZE,
        p < 0x1_0000_0000_0000,
        model::has_block(z, p as int),
        block(z, p as int) == moved_page(i),
    ensures
        forall|pos: int|
            0 <= pos < LIMIT ==> #[trigger] moved_byte(
                z,
                seq![EfsExtent::make(0, 1, p)],
                i,
                pos,
            ),
{
    let e0 = Seq::<EfsExtent>::empty();
    let map = seq![EfsExtent::make(0, 1, p)];
    assert(extents::map_insert(e0, 0, p) =~= map);
    extents::insert_then_lookup(e0, 0, p, 0);
    assert forall|pos: int| 0 <= pos < LIMIT implies #[trigger] moved_byte(z, map, i, pos) by {
        lemma_logical(pos);
        let lb = model::logical_block(pos);
        if lb != 0 {
            extents::insert_then_lookup(e0, 0, p, lb);
            assert(extents::map_lookup(e0, lb) is None);
        } else {
            assert(pos % 4096 == pos);
        }
    }
}

/// The blocks before the inode is written.
#[verifier::spinoff_prover]
#[verifier::rlimit(40)]
proof fn lemma_move_out(st: FsState, ino: u64, i: InodeView, s: Storage, st2: FsState, p: u64)
    requires
        in_order(st, ino, i, s),
        i.inline(),
        i.data_area.len() == INODE_DATA_AREA_SIZE,
        model::alloc_block(st).1 == Ok::<u64, Error>(p),
        model::write_block(model::alloc_block(st).0, p as int, moved_page(i)) == (
            st2,
            Ok::<(), Error>(()),
        ),
    ensures
        model::mounted(st2),
        same_shape(st, st2),
        p < 0x1_0000_0000_0000,
        model::has_block(st2, p as int),
        block(st2, p as int) == moved_page(i),
        separate(
            st2,
            ino,
            Storage { map: seq![EfsExtent::make(0, 1, p)], leaves: Seq::empty() },
        ),
{
    lemma_alloc(st, None);
    let (st1, bs) = model::alloc_blocks(st, 1, None);
    lemma_fresh(st, st1, ino, s, p as int);
    lemma_zero_fresh(st1, ino, s, p, moved_page(i));
    lemma_add_data(st2, ino, s, 0, p);
    assert(extents::map_insert(s.map, 0, p) =~= seq![EfsExtent::make(0, 1, p)]);
    assert forall|g: int| 0 <= g < st.bgds.len() implies (
    #[trigger] st2.bgds[g]).block_bitmap_block == st.bgds[g].block_bitmap_block
        && st2.bgds[g].inode_table_block == st.bgds[g].inode_table_block by {
        assert(st1.bgds[g].block_bitmap_block == st.bgds[g].block_bitmap_block);
    }
}

/// The inode written once its data has moved.
proof fn lemma_move_inode(st: FsState, ino: u64, i: InodeView, j: InodeView, p: u64)
    requires
        model::mounted(st),
        st.pages.len() <= 0x1_0000_0000_0000,
        p < 0x1_0000_0000_0000,
        model::has_block(st, p as int),
        separate(
            st,
            ino,
            Storage { map: seq![EfsExtent::make(0, 1, p)], leaves: Seq::empty() },
        ),
        j.data_area == moved_inode(i, p).data_area,
        !j.inline(),
        model::write_inode(st, ino, j).1 is Ok,
    ensures
        ({
            let z = model::write_inode(st, ino, j).0;
            let t = Storage { map: seq![EfsExtent::make(0, 1, p)], leaves: Seq::empty() };
            &&& in_order(z, ino, j, t)
            &&& same_shape(st, z)
            &&& block(z, p as int) == block(st, p as int)
        }),
{
    let map = seq![EfsExtent::make(0, 1, p)];
    let t = Storage { map, leaves: Seq::empty() };
    let z = model::write_inode(st, ino, j).0;
    lemma_load_small(z, j, map);
    lemma_put_inode(st, ino, t, j);
    let e0 = Seq::<EfsExtent>::empty();
    assert(extents::map_insert(e0, 0, p) =~= map);
    extents::insert_then_lookup(e0, 0, p, 0);
    lemma_data_alone(st, ino, t, 0);
}

/// Moving inline data out keeps what the file holds, with zeros behind it.
#[verifier::spinoff_prover]
#[verifier::rlimit(40)]
pub(crate) proof fn lemma_convert(st: FsState, ino: u64, i: InodeView, s: Storage) -> (r: (
    InodeView,
    Storage,
))
    requires
        in_order(st, ino, i, s),
        i.inline(),
        i.size <= INODE_DATA_AREA_SIZE,
        model::convert_inline(st, ino, i).1 is Ok,
    ensures
        ({
            let z = model::convert_inline(st, ino, i).0;
            &&& in_order(z, ino, r.0, r.1)
            &&& same_shape(st, z)
            &&& !r.0.inline()
            &&& r.0.size == i.size
            &&& r.0.mode == i.mode
            &&& forall|pos: int| 0 <= pos < LIMIT ==> #[trigger] moved_byte(z, r.1.map, i, pos)
        }),
{
    lemma_inode_len(st, ino, i);
    reveal(model::convert_inline);
    let p = model::alloc_block(st).1->Ok_0;
    let st1 = model::alloc_block(st).0;
    let st2 = model::write_block(st1, p as int, moved_page(i)).0;
    lemma_move_out(st, ino, i, s, st2, p);
    let j = layout::stamped(moved_inode(i, p));
    lemma_not_inline(i.flags, INODE_FLAG_INLINE_DATA);
    lemma_move_inode(st2, ino, i, j, p);
    let z = model::write_inode(st2, ino, j).0;
    lemma_moved_bytes(z, i, p);
    assert(same_shape(st, z)) by {
        assert forall|g: int| 0 <= g < st.bgds.len() implies (
        #[trigger] z.bgds[g]).block_bitmap_block == st.bgds[g].block_bitmap_block
            && z.bgds[g].inode_table_block == st.bgds[g].inode_table_block by {
            assert(st2.bgds[g].block_bitmap_block == st.bgds[g].block_bitmap_block);
        }
    }
    (j, Storage { map: seq![EfsExtent::make(0, 1, p)], leaves: Seq::empty() })
}

pub(crate) proof fn lemma_inode_len(st: FsState, ino: u64, i: InodeView)
    requires
        model::mounted(st),
        model::read_inode(st, ino) == Ok::<InodeView, Error>(i),
    ensures
        i.data_area.len() == INODE_DATA_AREA_SIZE,
{
    reveal(model::read_inode);
    let b = model::inode_block(st, ino)->Some_0;
    let off = model::inode_offset(st, ino);
    lemma_split(ino - 1, st.sb.inodes_per_group as int);
    assert(st.pages[st.base + b].len() == block_device::PAGE_SIZE);
}

/// Whether byte `pos` of a file is that of `data` written at `off`.
pub open spec fn holds_data(
    z: FsState,
    j: InodeView,
    t: Storage,
    off: int,
    data: Seq<u8>,
    pos: int,
) -> bool {
    file_readable(z, j, t, pos) && file_byte(z, j, t, pos) == data[pos - off]
}

/// Whether byte `pos` of a file is still what it was.
pub open spec fn holds_same(
    a: FsState,
    i: InodeView,
    s: Storage,
    z: FsState,
    j: InodeView,
    t: Storage,
    pos: int,
) -> bool {
    file_readable(a, i, s, pos) ==> file_readable(z, j, t, pos) && file_byte(z, j, t, pos)
        == file_byte(a, i, s, pos)
}

/// Whether byte `pos` past the end of a file is still what it was; past the end of inline data
/// that has moved out there are zeros.
pub open spec fn holds_past(
    a: FsState,
    i: InodeView,
    s: Storage,
    z: FsState,
    j: InodeView,
    t: Storage,
    pos: int,
) -> bool {
    if i.inline() && !j.inline() {
        file_readable(z, j, t, pos) && file_byte(z, j, t, pos) == 0
    } else {
        holds_same(a, i, s, z, j, t, pos)
    }
}

/// What a write does to a file: the data is where it belongs, every other byte is as it
/// was, also between the old end and the data, and the file has grown if need be.
pub open spec fn rewritten(
    a: FsState,
    i: InodeView,
    s: Storage,
    z: FsState,
    j: InodeView,
    t: Storage,
    off: int,
    data: Seq<u8>,
) -> bool {
    &&& j.mode == i.mode
    &&& j.size == (if off + data.len() > i.size {
        off + data.len()
    } else {
        i.size as int
    })
    &&& forall|pos: int|
        off <= pos < off + data.len() ==> #[trigger] holds_data(z, j, t, off, data, pos)
    &&& forall|pos: int|
        0 <= pos < i.size && pos < LIMIT && !(off <= pos < off + data.len())
            ==> #[trigger] holds_same(a, i, s, z, j, t, pos)
    &&& forall|pos: int|
        i.size <= pos < LIMIT && !(off <= pos < off + data.len()) ==> #[trigger] holds_past(
            a,
            i,
            s,
            z,
            j,
            t,
            pos,
        )
}

/// Setting the size and the time after a write.
#[verifier::spinoff_prover]
#[verifier::rlimit(40)]
proof fn lemma_grow(
    st1: FsState,
    i1: InodeView,
    s1: Storage,
    st2: FsState,
    ino: u64,
    i2: InodeView,
    s2: Storage,
    off: int,
    data: Seq<u8>,
    j: InodeView,
)
    requires
        in_order(st2, ino, i2, s2),
        !i1.inline(),
        i2.mode == i1.mode,
        i2.flags == i1.flags,
        i2.size == i1.size,
        0 <= off,
        off + data.len() <= LIMIT,
        written_over(st1, s1.map, st2, s2.map, off, data, 0),
        j.mode == i2.mode,
        j.flags == i2.flags,
        j.data_area == i2.data_area,
        j.size == (if off + data.len() > i2.size {
            off + data.len()
        } else {
            i2.size as int
        }),
        model::write_inode(st2, ino, j).1 is Ok,
    ensures
        ({
            let z = model::write_inode(st2, ino, j).0;
            &&& in_order(z, ino, j, s2)
            &&& rewritten(st1, i1, s1, z, j, s2, off, data)
        }),
{
    let z = model::write_inode(st2, ino, j).0;
    let end = off + data.len();
    lemma_inode_len(st2, ino, i2);
    lemma_reinode(st2, ino, i2, s2, j);
    assert forall|pos: int| off <= pos < end implies #[trigger] holds_data(
        z,
        j,
        s2,
        off,
        data,
        pos,
    ) by {
        assert(byte_written(st1, s1.map, st2, s2.map, off, data, 0, pos));
    }
    assert forall|pos: int|
        0 <= pos < i1.size && pos < LIMIT && !(off <= pos < end) implies #[trigger] holds_same(
        st1,
        i1,
        s1,
        z,
        j,
        s2,
        pos,
    ) by {
        assert(byte_written(st1, s1.map, st2, s2.map, off, data, 0, pos));
    }
    assert forall|pos: int| i1.size <= pos < LIMIT && !(off <= pos < end) implies
        #[trigger] holds_past(st1, i1, s1, z, j, s2, pos) by {
        assert(byte_written(st1, s1.map, st2, s2.map, off, data, 0, pos));
    }
}

/// A write to a file whose data is in blocks.
#[verifier::spinoff_prover]
#[verifier::rlimit(40)]
proof fn lemma_write_blocks(
    st: FsState,
    ino: u64,
    i: InodeView,
    s: Storage,
    off: int,
    data: Seq<u8>,
    now: u64,
) -> (r: (InodeView, Storage))
    requires
        in_order(st, ino, i, s),
        !i.inline(),
        0 <= off,
        data.len() > 0,
        off + data.len() <= LIMIT,
        model::write_file_data(st, ino, off, data, now).1 is Ok,
    ensures
        ({
            let (z, size) = model::write_file_data(st, ino, off, data, now);
            &&& in_order(z, ino, r.0, r.1)
            &&& !r.0.inline()
            &&& r.0.size == size->Ok_0
            &&& r.0.mtime_sec == now
            &&& rewritten(st, i, s, z, r.0, r.1, off, data)
        }),
{
    let (i2, s2) = {
        reveal(model::write_file_data);
        lemma_write_extents(st, ino, i, s, off, data, 0)
    };
    let st2 = model::write_extents(st, ino, off, data, 0).0;
    let size = if off + data.len() > i2.size {
        (off + data.len()) as u64
    } else {
        i2.size
    };
    let j = layout::stamped(InodeView { size, mtime_sec: now, ..i2 });
    assert(model::write_file_data(st, ino, off, data, now) == (
        model::write_inode(st2, ino, j).0,
        Ok::<u64, Error>(size),
    )) by {
        reveal(model::write_file_data);
    }
    assert(model::write_inode(st2, ino, j).1 is Ok) by {
        reveal(model::write_file_data);
    }
    lemma_grow(st, i, s, st2, ino, i2, s2, off, data, j);
    (j, s2)
}

/// A write to a file that stays inline.
#[verifier::spinoff_prover]
#[verifier::rlimit(40)]
proof fn lemma_write_inline(
    st: FsState,
    ino: u64,
    i: InodeView,
    s: Storage,
    off: int,
    data: Seq<u8>,
    now: u64,
) -> (r: (InodeView, Storage))
    requires
        in_order(st, ino, i, s),
        i.inline(),
        i.size <= INODE_DATA_AREA_SIZE,
        0 <= off,
        data.len() > 0,
        off + data.len() <= INODE_DATA_AREA_SIZE,
        model::write_file_data(st, ino, off, data, now).1 is Ok,
    ensures
        ({
            let (z, size) = model::write_file_data(st, ino, off, data, now);
            &&& in_order(z, ino, r.0, r.1)
            &&& r.0.inline()
            &&& r.0.size == size->Ok_0
            &&& r.0.mtime_sec == now
            &&& rewritten(st, i, s, z, r.0, r.1, off, data)
        }),
{
    reveal(model::write_file_data);
    lemma_inode_len(st, ino, i);
    let end = off + data.len();
    let size = if end > i.size {
        end as u64
    } else {
        i.size
    };
    let j = layout::stamped(
        InodeView {
            data_area: bytes::splice(i.data_area, off, data),
            size,
            mtime_sec: now,
            ..i
        },
    );
    lemma_reinode(st, ino, i, s, j);
    (j, s)
}

/// What holds once inline data has moved holds of the inline data.
proof fn lemma_moved_same(
    st: FsState,
    i: InodeView,
    s: Storage,
    st1: FsState,
    i1: InodeView,
    s1: Storage,
    z: FsState,
    j: InodeView,
    t: Storage,
    off: int,
    data: Seq<u8>,
)
    requires
        i.inline(),
        !i1.inline(),
        i1.size == i.size,
        i1.mode == i.mode,
        !j.inline(),
        forall|pos: int| 0 <= pos < LIMIT ==> #[trigger] moved_byte(st1, s1.map, i, pos),
        rewritten(st1, i1, s1, z, j, t, off, data),
    ensures
        rewritten(st, i, s, z, j, t, off, data),
{
    assert forall|pos: int|
        0 <= pos < i.size && pos < LIMIT && !(off <= pos < off + data.len()) implies
        #[trigger] holds_same(st, i, s, z, j, t, pos) by {
        assert(moved_byte(st1, s1.map, i, pos));
        assert(holds_same(st1, i1, s1, z, j, t, pos));
    }
    assert forall|pos: int| i.size <= pos < LIMIT && !(off <= pos < off + data.len()) implies
        #[trigger] holds_past(st, i, s, z, j, t, pos) by {
        assert(moved_byte(st1, s1.map, i, pos));
        assert(holds_past(st1, i1, s1, z, j, t, pos));
    }
}

/// A write to an inline file that outgrows the inode.
#[verifier::spinoff_prover]
#[verifier::rlimit(40)]
proof fn lemma_write_out(
    st: FsState,
    ino: u64,
    i: InodeView,
    s: Storage,
    off: int,
    data: Seq<u8>,
    now: u64,
) -> (r: (InodeView, Storage))
    requires
        in_order(st, ino, i, s),
        i.inline(),
        i.size <= INODE_DATA_AREA_SIZE,
        0 <= off,
        data.len() > 0,
        off + data.len() > INODE_DATA_AREA_SIZE,
        off + data.len() <= LIMIT,
        model::write_file_data(st, ino, off, data, now).1 is Ok,
    ensures
        ({
            let (z, size) = model::write_file_data(st, ino, off, data, now);
            &&& in_order(z, ino, r.0, r.1)
            &&& !r.0.inline()
            &&& r.0.size == size->Ok_0
            &&& r.0.mtime_sec == now
            &&& rewritten(st, i, s, z, r.0, r.1, off, data)
        }),
{
    let st1 = model::convert_inline(st, ino, i).0;
    let (i1, s1) = {
        reveal(model::write_file_data);
        lemma_convert(st, ino, i, s)
    };
    let (i2, s2) = {
        reveal(model::write_file_data);
        lemma_write_extents(st1, ino, i1, s1, off, data, 0)
    };
    let st2 = model::write_extents(st1, ino, off, data, 0).0;
    let size = if off + data.len() > i2.size {
        (off + data.len()) as u64
    } else {
        i2.size
    };
    let j = layout::stamped(InodeView { size, mtime_sec: now, ..i2 });
    assert(model::write_file_data(st, ino, off, data, now) == (
        model::write_inode(st2, ino, j).0,
        Ok::<u64, Error>(size),
    ) && model::write_inode(st2, ino, j).1 is Ok) by {
        reveal(model::write_file_data);
    }
    lemma_grow(st1, i1, s1, st2, ino, i2, s2, off, data, j);
    let z = model::write_inode(st2, ino, j).0;
    lemma_moved_same(st, i, s, st1, i1, s1, z, j, s2, off, data);
    (j, s2)
}

/// A write that succeeds puts the data where it belongs and leaves every other byte of the
/// file as it was; the file grows if need be, and stays in order.
pub proof fn write_changes_contents(
    st: FsState,
    ino: u64,
    i: InodeView,
    s: Storage,
    off: int,
    data: Seq<u8>,
    now: u64,
) -> (r: (InodeView, Storage))
    requires
        in_order(st, ino, i, s),
        i.inline() ==> i.size <= INODE_DATA_AREA_SIZE,
        0 <= off,
        data.len() > 0,
        off + data.len() <= LIMIT,
        model::write_file_data(st, ino, off, data, now).1 is Ok,
    ensures
        ({
            let (z, size) = model::write_file_data(st, ino, off, data, now);
            &&& in_order(z, ino, r.0, r.1)
            &&& r.0.inline() ==> r.0.size <= INODE_DATA_AREA_SIZE
            &&& r.0.size == size->Ok_0
            &&& r.0.mtime_sec == now
            &&& rewritten(st, i, s, z, r.0, r.1, off, data)
        }),
{
    if !i.inline() {
        lemma_write_blocks(st, ino, i, s, off, data, now)
    } else if off + data.len() <= INODE_DATA_AREA_SIZE {
        lemma_write_inline(st, ino, i, s, off, data, now)
    } else {
        lemma_write_out(st, ino, i, s, off, data, now)
    }
}

/// What is written to a file is what is read from it. Logical block numbers are 32 bits
/// wide, so this holds up to 16 TiB.
#[verifier::spinoff_prover]
#[verifier::rlimit(40)]
pub proof fn write_then_read(st: FsState, ino: u64, off: int, data: Seq<u8>, now: u64)
    requires
        file_in_order(st, ino),
        0 <= off,
        data.len() > 0,
        off + data.len() <= LIMIT,
        data.len() <= usize::MAX,
        model::write_file_data(st, ino, off, data, now).1 is Ok,
    ensures
        ({
            let z = model::write_file_data(st, ino, off, data, now).0;
            &&& file_in_order(z, ino)
            &&& model::read_file_data(
                z,
                model::read_inode(z, ino)->Ok_0,
                off,
                data.len() as int,
            ) == Ok::<Seq<u8>, Error>(data)
        }),
{
    let i = model::read_inode(st, ino)->Ok_0;
    let s = storage(st, i)->Some_0;
    let (j, t) = write_changes_contents(st, ino, i, s, off, data, now);
    let z = model::write_file_data(st, ino, off, data, now).0;
    assert forall|pos: int| off <= pos < off + data.len() implies #[trigger] file_readable(
        z,
        j,
        t,
        pos,
    ) by {
        assert(holds_data(z, j, t, off, data, pos));
    }
    read_gives_contents(z, ino, j, t, off, data.len() as int);
    assert(Seq::new(data.len(), |k: int| file_byte(z, j, t, off + k)) =~= data) by {
        assert forall|k: int| 0 <= k < data.len() implies file_byte(z, j, t, off + k)
            == data[k] by {
            assert(holds_data(z, j, t, off, data, off + k));
        }
    }
}

/// Whether two states differ in their transactions alone.
pub open spec fn same_disk(a: FsState, z: FsState) -> bool {
    z.pages == a.pages && z.base == a.base && z.sb == a.sb && z.bgds == a.bgds
}

/// Transactions change nothing about files.
#[verifier::spinoff_prover]
#[verifier::rlimit(40)]
pub(crate) proof fn lemma_same_disk(a: FsState, z: FsState, ino: u64)
    requires
        same_disk(a, z),
        block_device::full_pages(a.pages),
    ensures
        model::read_inode(z, ino) == model::read_inode(a, ino),
        forall|i: InodeView| #[trigger] model::load_map(z, i) == model::load_map(a, i),
        forall|i: InodeView| #[trigger] storage(z, i) == storage(a, i),
        forall|i: InodeView, off: int, n: int| #[trigger]
            model::read_file_data(z, i, off, n) == model::read_file_data(a, i, off, n),
        forall|i: InodeView, s: Storage| #[trigger]
            in_order(a, ino, i, s) ==> in_order(z, ino, i, s),
        file_in_order(a, ino) ==> file_in_order(z, ino),
{
    reveal(model::read_inode);
    assert forall|i: InodeView| #[trigger] model::load_map(z, i) == model::load_map(a, i) by {
        lemma_load_same(a, z, i);
    }
    assert forall|i: InodeView, off: int, n: int| #[trigger]
        model::read_file_data(z, i, off, n) == model::read_file_data(a, i, off, n) by {
        reveal(model::read_file_data);
        assert(model::load_map(z, i) == model::load_map(a, i));
    }
    assert forall|i: InodeView, s: Storage| #[trigger] in_order(a, ino, i, s) implies in_order(
        z,
        ino,
        i,
        s,
    ) by {
        assert(storage(z, i) == storage(a, i)) by {
            assert(model::load_map(z, i) == model::load_map(a, i));
        }
        assert(same_shape(a, z));
        lemma_kept_same(a, z);
        lemma_separate_same(a, z, ino, s);
    }
    assert forall|i: InodeView| #[trigger] storage(z, i) == storage(a, i) by {
        assert(model::load_map(z, i) == model::load_map(a, i));
    }
    if file_in_order(a, ino) {
        let i = model::read_inode(a, ino)->Ok_0;
        let s = storage(a, i)->Some_0;
        assert(in_order(a, ino, i, s));
        assert(storage(z, i) == storage(a, i));
    }
}

/// What `write_bytes` writes to a regular file is what `read_bytes` reads from it.
pub proof fn write_bytes_then_read_bytes(
    st: FsState,
    ino: u64,
    off: int,
    data: Seq<u8>,
    now: u64,
)
    requires
        file_in_order(st, ino),
        0 <= off,
        data.len() > 0,
        off + data.len() <= LIMIT,
        data.len() <= usize::MAX,
        ops::write_at_node(
            st,
            Ok((ino, model::read_inode(st, ino)->Ok_0)),
            off,
            data,
            now,
        ).1 is Ok,
    ensures
        ({
            let z = ops::write_at_node(
                st,
                Ok((ino, model::read_inode(st, ino)->Ok_0)),
                off,
                data,
                now,
            ).0;
            &&& file_in_order(z, ino)
            &&& ops::read_at_node(
                z,
                Ok((ino, model::read_inode(z, ino)->Ok_0)),
                off,
                data.len() as int,
            ) == Ok::<Seq<u8>, Error>(data)
        }),
{
    let i = model::read_inode(st, ino)->Ok_0;
    let b = model::begin(st);
    lemma_same_disk(st, b, ino);
    write_then_read(b, ino, off, data, now);
    let (w, r) = model::write_file_data(b, ino, off, data, now);
    let s = storage(b, i)->Some_0;
    let (j, t) = write_changes_contents(b, ino, i, s, off, data, now);
    let z = model::ended(w, true);
    lemma_same_disk(w, z, ino);
}

/// The page of a file that was flushed is the page that is filled, as far as it lies
/// within the file.
#[verifier::spinoff_prover]
#[verifier::rlimit(40)]
pub proof fn flush_page_then_fill_page(st: FsState, ino: u64, index: u64, data: Seq<u8>)
    requires
        file_in_order(st, ino),
        index <= u32::MAX,
        data.len() == 4096,
        model::flush_page(st, ino, index, data).1 is Ok,
    ensures
        ({
            let z = model::flush_page(st, ino, index, data).0;
            let size = model::read_inode(st, ino)->Ok_0.size as int;
            let valid = if index * 4096 >= size {
                0
            } else {
                model::min(size - index * 4096, 4096)
            };
            &&& file_in_order(z, ino)
            &&& model::read_inode(z, ino)->Ok_0.size == size
            &&& model::fill_page(z, ino, index) == Ok::<(Seq<u8>, int), Error>(
                (bytes::splice(bytes::zeros(4096), 0, data.take(valid)), valid),
            )
        }),
{
    let i = model::read_inode(st, ino)->Ok_0;
    let s = storage(st, i)->Some_0;
    let b = model::begin(st);
    lemma_same_disk(st, b, ino);
    assert(in_order(b, ino, i, s));
    assert(model::put_page(b, ino, i, index, data).1 is Ok) by {
        reveal(model::flush_page);
    }
    let (w, j, t) = lemma_put_page(b, ino, i, s, index, data);
    let z = model::ended(w, true);
    assert(z == model::flush_page(st, ino, index, data).0) by {
        reveal(model::flush_page);
    }
    lemma_same_disk(w, z, ino);
    assert(in_order(w, ino, j, t));
    assert(in_order(z, ino, j, t));
    reveal(model::fill_page);
    let off = index * 4096;
    lemma_logical(off);
    let size = i.size as int;
    if off >= size {
        assert(bytes::splice(bytes::zeros(4096), 0, data.take(0)) =~= bytes::zeros(4096));
    } else {
        let valid = model::min(size - off, 4096);
        assert(data.subrange(0, valid) =~= data.take(valid));
        let p = extents::map_lookup(t.map, index as u32)->Some_0;
        assert(block(z, p as int) == block(w, p as int));
    }
}

#[verifier::spinoff_prover]
#[verifier::rlimit(40)]
proof fn lemma_put_page(
    st: FsState,
    ino: u64,
    i: InodeView,
    s: Storage,
    index: u64,
    data: Seq<u8>,
) -> (r: (FsState, InodeView, Storage))
    requires
        in_order(st, ino, i, s),
        i.inline() ==> i.size <= INODE_DATA_AREA_SIZE,
        index <= u32::MAX,
        data.len() == 4096,
        model::put_page(st, ino, i, index, data).1 is Ok,
    ensures
        r.0 == model::put_page(st, ino, i, index, data).0,
        in_order(r.0, ino, r.1, r.2),
        !r.1.inline(),
        r.1.size == i.size,
        extents::map_lookup(r.2.map, index as u32) matches Some(p) && model::has_block(
            r.0,
            p as int,
        ) && block(r.0, p as int) == data,
{
    let st1 = if i.inline() {
        model::convert_inline(st, ino, i).0
    } else {
        st
    };
    let (i1, s1) = if i.inline() {
        lemma_convert(st, ino, i, s)
    } else {
        (i, s)
    };
    let lb = index as u32;
    assert((index % 0x1_0000_0000) as u32 == lb);
    let (st2, rp) = model::ensure_block(st1, ino, lb, false);
    let p = rp->Ok_0;
    lemma_size_ensure(st1, ino, lb, false);
    let (j, t) = lemma_ensure(st1, ino, i1, s1, lb, false);
    lemma_put_data(st2, ino, j, t, lb, p, data);
    (model::write_data(st2, p as int, data).0, j, t)
}

} // verus!
