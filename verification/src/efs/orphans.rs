//! The chain of files without a name: what is put on it stays on it until it is taken off.
use vstd::prelude::*;
use crate::block_device;
use crate::bytes;
use crate::error::Error;
use super::contents;
use super::dirmodel;
use super::layout;
use super::layout::{InodeView, SuperblockView, INODE_DATA_AREA_SIZE};
use super::model;
use super::model::FsState;

verus! {

/// Whether two inodes lie in different places.
pub open spec fn apart(st: FsState, a: u64, b: u64) -> bool {
    model::inode_block(st, a) != model::inode_block(st, b) || model::inode_offset(st, a)
        != model::inode_offset(st, b)
}

/// The number at a position of a chain, 0 where there is none.
pub open spec fn member(os: Seq<u64>, i: int) -> u64 {
    if 0 <= i < os.len() {
        os[i]
    } else {
        0
    }
}

/// Whether inode `a` says that `b` comes after it.
pub open spec fn leads_to(st: FsState, a: u64, b: u64) -> bool {
    model::read_inode(st, a) matches Ok(i) && i.orphan_next == b
}

/// Whether an inode can be on a chain: its number fits, and it lies outside the superblock.
pub open spec fn chainable(st: FsState, ino: u64) -> bool {
    0 < ino <= u32::MAX && model::inode_block(st, ino) != Some(1int)
}

/// Whether the member at a position can be on the chain, leads to the next, and is remembered
/// to come after the one before it.
pub open spec fn linked(st: FsState, os: Seq<u64>, i: int) -> bool {
    &&& chainable(st, os[i])
    &&& leads_to(st, os[i], member(os, i + 1))
    &&& st.orphans[os[i]] == member(os, i - 1)
}

/// Whether the chain on the device is made of these files, first to last, and what is
/// remembered of it agrees.
pub open spec fn chain_holds(st: FsState, os: Seq<u64>) -> bool {
    &&& model::mounted(st)
    &&& st.sb.last_orphan == member(os, 0)
    &&& forall|i: int| 0 <= i < os.len() ==> #[trigger] linked(st, os, i)
    &&& forall|i: int, j: int|
        0 <= i < j < os.len() ==> #[trigger] os[i] != #[trigger] os[j] && apart(st, os[i], os[j])
    &&& forall|k: u64| #[trigger] st.orphans.contains_key(k) <==> os.contains(k)
}

/// Whether two states lay inodes out in the same way.
pub(crate) open spec fn same_tables(a: FsState, b: FsState) -> bool {
    b.base == a.base && b.bgds == a.bgds && b.sb.inodes_per_group == a.sb.inodes_per_group
        && b.pages.len() == a.pages.len()
}

proof fn lemma_dec_same(s: Seq<u8>, t: Seq<u8>, off: int)
    requires
        0 <= off,
        off + 256 <= s.len(),
        off + 256 <= t.len(),
        forall|k: int| off <= k < off + 256 ==> #[trigger] s[k] == t[k],
    ensures
        layout::dec_inode(s, off) == layout::dec_inode(t, off),
{
    assert(s.subrange(off + 80, off + 256) =~= t.subrange(off + 80, off + 256));
}

/// An inode depends on the tables and on its own block alone.
pub(crate) proof fn lemma_read_kept(z: FsState, st: FsState, ino: u64)
    requires
        same_tables(st, z),
        model::inode_block(st, ino) matches Some(b) ==> model::has_block(st, b)
            ==> z.pages[st.base + b] == st.pages[st.base + b],
    ensures
        model::read_inode(z, ino) == model::read_inode(st, ino),
{
    reveal(model::read_inode);
}

/// An inode written: it is read back, and inodes elsewhere are what they were.
pub(crate) proof fn lemma_inode_set(st: FsState, ino: u64, j: InodeView)
    requires
        model::mounted(st),
        j.data_area.len() == INODE_DATA_AREA_SIZE,
        model::write_inode(st, ino, j).1 is Ok,
    ensures
        ({
            let z = model::write_inode(st, ino, j).0;
            &&& model::mounted(z)
            &&& same_tables(st, z)
            &&& z.sb == st.sb
            &&& z.orphans == st.orphans
            &&& model::read_inode(z, ino) == Ok::<InodeView, Error>(j)
            &&& forall|o: u64|
                apart(st, ino, o) ==> #[trigger] model::read_inode(z, o) == model::read_inode(
                    st,
                    o,
                )
        }),
{
    let z = model::write_inode(st, ino, j).0;
    let b = contents::lemma_inode_page(st, ino, j);
    assert(z.orphans == st.orphans) by {
        reveal(model::write_inode);
    }
    assert forall|o: u64| apart(st, ino, o) implies #[trigger] model::read_inode(z, o)
        == model::read_inode(st, o) by {
        if model::inode_block(st, o) == Some(b) {
            lemma_neighbour(st, ino, j, o);
        } else {
            lemma_read_kept(z, st, o);
        }
    }
}

/// Another inode in the same block.
proof fn lemma_neighbour(st: FsState, ino: u64, j: InodeView, o: u64)
    requires
        model::mounted(st),
        j.data_area.len() == INODE_DATA_AREA_SIZE,
        model::write_inode(st, ino, j).1 is Ok,
        model::inode_block(st, o) == model::inode_block(st, ino),
        model::inode_offset(st, o) != model::inode_offset(st, ino),
    ensures
        model::read_inode(model::write_inode(st, ino, j).0, o) == model::read_inode(st, o),
{
    let z = model::write_inode(st, ino, j).0;
    let b = model::inode_block(st, ino)->Some_0;
    let d = st.pages[st.base + b];
    let off = model::inode_offset(st, ino);
    let at = model::inode_offset(st, o);
    let e = layout::enc_inode(j);
    lemma_enc_len(j);
    contents::lemma_inode_page(st, ino, j);
    lemma_offsets(st, ino, o);
    assert(model::has_block(st, b) && z.pages[st.base + b] == bytes::splice(d, off, e)) by {
        reveal(model::write_inode);
    }
    assert(d.len() == 4096);
    lemma_dec_same(bytes::splice(d, off, e), d, at);
    reveal(model::read_inode);
}

proof fn lemma_enc_len(j: InodeView)
    requires
        j.data_area.len() == INODE_DATA_AREA_SIZE,
    ensures
        layout::enc_inode(j).len() == 256,
{
    assert(layout::enc_inode_header(j).len() == 80);
}

/// Inodes in one block at different offsets do not overlap.
proof fn lemma_offsets(st: FsState, a: u64, b: u64)
    requires
        st.sb.inodes_per_group > 0,
        a > 0,
        b > 0,
        model::inode_offset(st, a) != model::inode_offset(st, b),
    ensures
        0 <= model::inode_offset(st, a) <= 3840,
        0 <= model::inode_offset(st, b) <= 3840,
        model::inode_offset(st, a) + 256 <= model::inode_offset(st, b) || model::inode_offset(st, b)
            + 256 <= model::inode_offset(st, a),
{
    contents::lemma_split(a - 1, st.sb.inodes_per_group as int);
    contents::lemma_split(b - 1, st.sb.inodes_per_group as int);
}

/// The superblock written: no inode outside its block changes.
pub(crate) proof fn lemma_superblock_set(st: FsState)
    requires
        model::mounted(st),
        dirmodel::write_superblock(st).1 is Ok,
    ensures
        ({
            let z = dirmodel::write_superblock(st).0;
            &&& model::mounted(z)
            &&& same_tables(st, z)
            &&& z.sb.last_orphan == st.sb.last_orphan
            &&& z.orphans == st.orphans
            &&& forall|o: u64|
                model::inode_block(st, o) != Some(1int) ==> #[trigger] model::read_inode(z, o)
                    == model::read_inode(st, o)
        }),
{
    reveal(dirmodel::write_superblock);
    let z = dirmodel::write_superblock(st).0;
    assert forall|k: int| 0 <= k < z.pages.len() implies (#[trigger] z.pages[k]).len()
        == block_device::PAGE_SIZE by {
        assert(st.pages[k].len() == block_device::PAGE_SIZE);
    }
    assert forall|o: u64| model::inode_block(st, o) != Some(1int) implies
        #[trigger] model::read_inode(z, o) == model::read_inode(st, o) by {
        lemma_read_kept(z, st, o);
    }
}

pub(crate) proof fn lemma_area(st: FsState, ino: u64)
    requires
        model::mounted(st),
        model::read_inode(st, ino) is Ok,
    ensures
        model::read_inode(st, ino)->Ok_0.data_area.len() == INODE_DATA_AREA_SIZE,
{
    reveal(model::read_inode);
    contents::lemma_split(ino - 1, st.sb.inodes_per_group as int);
    let b = model::inode_block(st, ino)->Some_0;
    assert(st.pages[st.base + b].len() == 4096);
}

/// What remains to be said of the chain once every inode leads where it should.
proof fn lemma_added(st: FsState, z: FsState, os: Seq<u64>, ino: u64)
    requires
        chain_holds(st, os),
        chainable(st, ino),
        !os.contains(ino),
        forall|i: int| 0 <= i < os.len() ==> apart(st, ino, #[trigger] os[i]),
        model::mounted(z),
        same_tables(st, z),
        z.sb.last_orphan == ino,
        leads_to(z, ino, member(os, 0)),
        forall|i: int|
            0 <= i < os.len() ==> model::read_inode(z, #[trigger] os[i]) == model::read_inode(
                st,
                os[i],
            ),
        z.orphans == (if os.len() > 0 {
            st.orphans.insert(ino, 0).insert(os[0], ino)
        } else {
            st.orphans.insert(ino, 0)
        }),
    ensures
        chain_holds(z, seq![ino] + os),
{
    let all = seq![ino] + os;
    assert(all[0] == ino);
    if os.len() > 0 {
        assert(os.contains(os[0]));
        assert(all[1] == os[0]);
    }
    assert forall|i: int| 0 <= i < all.len() implies #[trigger] linked(z, all, i) by {
        if i > 0 {
            assert(linked(st, os, i - 1));
            assert(all[i] == os[i - 1]);
            assert(os.contains(os[i - 1]));
            assert(member(all, i + 1) == member(os, i));
            if i > 1 {
                assert(os[0] != os[i - 1]);
                assert(member(all, i - 1) == member(os, i - 2));
            }
        } else {
            assert(member(all, 1) == member(os, 0));
        }
    }
    assert forall|i: int, j: int| 0 <= i < j < all.len() implies #[trigger] all[i]
        != #[trigger] all[j] && apart(z, all[i], all[j]) by {
        assert(all[j] == os[j - 1]);
        if i > 0 {
            assert(all[i] == os[i - 1]);
            assert(os[i - 1] != os[j - 1]);
        } else {
            assert(os.contains(os[j - 1]));
            assert(apart(st, ino, os[j - 1]));
        }
    }
    assert forall|k: u64| #[trigger] z.orphans.contains_key(k) <==> all.contains(k) by {
        if os.contains(k) {
            let i = choose|i: int| 0 <= i < os.len() && os[i] == k;
            assert(all[i + 1] == k);
        }
        if all.contains(k) && k != ino {
            let i = choose|i: int| 0 <= i < all.len() && all[i] == k;
            assert(os[i - 1] == k);
        }
        assert(all.contains(ino));
    }
}

/// A file that is put on the chain is its first member; the others come after it as before.
pub proof fn added_is_first(st: FsState, os: Seq<u64>, ino: u64)
    requires
        chain_holds(st, os),
        chainable(st, ino),
        !os.contains(ino),
        forall|i: int| 0 <= i < os.len() ==> apart(st, ino, #[trigger] os[i]),
        dirmodel::orphan_add(st, ino).1 is Ok,
    ensures
        chain_holds(dirmodel::orphan_add(st, ino).0, seq![ino] + os),
{
    reveal(dirmodel::orphan_add);
    let head = st.sb.last_orphan;
    let st0 = FsState {
        sb: SuperblockView { last_orphan: (ino % 0x1_0000_0000) as u32, ..st.sb },
        ..st
    };
    let z = dirmodel::orphan_add(st, ino).0;
    assert forall|o: u64| #[trigger] model::read_inode(st0, o) == model::read_inode(st, o) by {
        lemma_read_kept(st0, st, o);
    }
    let i = model::read_inode(st0, ino)->Ok_0;
    lemma_area(st0, ino);
    let j = layout::stamped(InodeView { orphan_next: head, link_count: 0, ..i });
    lemma_inode_set(st0, ino, j);
    let st1 = model::write_inode(st0, ino, j).0;
    lemma_superblock_set(st1);
    let st2 = dirmodel::write_superblock(st1).0;
    if os.len() > 0 {
        assert(linked(st, os, 0));
    }
    assert forall|o: u64| #[trigger] model::read_inode(z, o) == model::read_inode(st2, o) by {
        lemma_read_kept(z, st2, o);
    }
    assert forall|k: int| 0 <= k < os.len() implies model::read_inode(z, #[trigger] os[k])
        == model::read_inode(st, os[k]) by {
        assert(linked(st, os, k));
        assert(apart(st, ino, os[k]));
        assert(apart(st0, ino, os[k]));
        assert(model::read_inode(st1, os[k]) == model::read_inode(st0, os[k]));
        assert(model::read_inode(st2, os[k]) == model::read_inode(st1, os[k]));
    }
    assert(model::read_inode(st2, ino) == model::read_inode(st1, ino));
    assert(leads_to(z, ino, member(os, 0)));
    lemma_added(st, z, os, ino);
}

/// What remains to be said of the chain once a member has been passed over.
proof fn lemma_taken_off(st: FsState, z: FsState, os: Seq<u64>, k: int)
    requires
        chain_holds(st, os),
        0 <= k < os.len(),
        model::mounted(z),
        same_tables(st, z),
        z.sb.last_orphan == (if k == 0 {
            member(os, 1)
        } else {
            os[0]
        }),
        k > 0 ==> leads_to(z, os[k - 1], member(os, k + 1)),
        forall|i: int|
            0 <= i < os.len() && i != k && i != k - 1 ==> model::read_inode(z, #[trigger] os[i])
                == model::read_inode(st, os[i]),
        z.orphans == (if k + 1 < os.len() {
            st.orphans.remove(os[k]).insert(os[k + 1], member(os, k - 1))
        } else {
            st.orphans.remove(os[k])
        }),
    ensures
        chain_holds(z, os.remove(k)),
{
    let rest = os.remove(k);
    assert(member(rest, 0) == z.sb.last_orphan);
    assert forall|i: int| 0 <= i < rest.len() implies #[trigger] linked(z, rest, i) by {
        assert(rest[i] == os[old_place(k, i)]);
        assert(linked(st, os, old_place(k, i)));
        lemma_leads(st, z, os, k, i);
        lemma_before(st, z, os, k, i);
    }
    assert forall|i: int, j: int| 0 <= i < j < rest.len() implies #[trigger] rest[i]
        != #[trigger] rest[j] && apart(z, rest[i], rest[j]) by {
        lemma_distinct(st, os, old_place(k, i), old_place(k, j));
        assert(rest[i] == os[old_place(k, i)] && rest[j] == os[old_place(k, j)]);
    }
    assert forall|x: u64| #[trigger] z.orphans.contains_key(x) <==> rest.contains(x) by {
        lemma_removed(st, os, k, x);
        assert(st.orphans.contains_key(x) <==> os.contains(x));
        if k + 1 < os.len() {
            lemma_distinct(st, os, k, k + 1);
            assert(os.contains(os[k + 1]));
        }
    }
}

/// Where a member stood before the one at `k` was taken out.
spec fn old_place(k: int, i: int) -> int {
    if i < k {
        i
    } else {
        i + 1
    }
}

proof fn lemma_distinct(st: FsState, os: Seq<u64>, i: int, j: int)
    requires
        chain_holds(st, os),
        0 <= i < j < os.len(),
    ensures
        os[i] != os[j],
        apart(st, os[i], os[j]),
{
}

proof fn lemma_leads(st: FsState, z: FsState, os: Seq<u64>, k: int, i: int)
    requires
        chain_holds(st, os),
        0 <= k < os.len(),
        0 <= i < os.len() - 1,
        k > 0 ==> leads_to(z, os[k - 1], member(os, k + 1)),
        forall|i: int|
            0 <= i < os.len() && i != k && i != k - 1 ==> model::read_inode(z, #[trigger] os[i])
                == model::read_inode(st, os[i]),
    ensures
        leads_to(z, os.remove(k)[i], member(os.remove(k), i + 1)),
{
    let rest = os.remove(k);
    let p = old_place(k, i);
    assert(rest[i] == os[p]);
    if i == k - 1 {
        assert(member(rest, i + 1) == member(os, k + 1));
    } else {
        assert(linked(st, os, p));
        assert(member(rest, i + 1) == member(os, p + 1));
    }
}

proof fn lemma_before(st: FsState, z: FsState, os: Seq<u64>, k: int, i: int)
    requires
        chain_holds(st, os),
        0 <= k < os.len(),
        0 <= i < os.len() - 1,
        z.orphans == (if k + 1 < os.len() {
            st.orphans.remove(os[k]).insert(os[k + 1], member(os, k - 1))
        } else {
            st.orphans.remove(os[k])
        }),
    ensures
        z.orphans[os.remove(k)[i]] == member(os.remove(k), i - 1),
{
    let rest = os.remove(k);
    let p = old_place(k, i);
    assert(rest[i] == os[p]);
    assert(linked(st, os, p));
    assert(st.orphans.contains_key(os[p])) by {
        assert(os.contains(os[p]));
    }
    if i < k {
        lemma_distinct(st, os, i, k);
        if k + 1 < os.len() {
            lemma_distinct(st, os, i, k + 1);
        }
        assert(member(rest, i - 1) == member(os, i - 1));
    } else if i == k {
        assert(member(rest, i - 1) == member(os, k - 1));
    } else {
        lemma_distinct(st, os, k, i + 1);
        lemma_distinct(st, os, k + 1, i + 1);
        assert(member(rest, i - 1) == member(os, i));
    }
}

/// What is left after a member has been taken out.
proof fn lemma_removed(st: FsState, os: Seq<u64>, k: int, x: u64)
    requires
        chain_holds(st, os),
        0 <= k < os.len(),
    ensures
        os.remove(k).contains(x) <==> os.contains(x) && x != os[k],
{
    let rest = os.remove(k);
    if rest.contains(x) {
        let i = choose|i: int| 0 <= i < rest.len() && rest[i] == x;
        let p = old_place(k, i);
        assert(os[p] == x);
        if p < k {
            lemma_distinct(st, os, p, k);
        } else {
            lemma_distinct(st, os, k, p);
        }
    }
    if os.contains(x) && x != os[k] {
        let i = choose|i: int| 0 <= i < os.len() && os[i] == x;
        if i < k {
            assert(rest[i] == x);
        } else {
            assert(rest[i - 1] == x);
        }
    }
}

/// A file that is taken off the chain is gone from it; the others follow one another as
/// before.
pub proof fn taken_off_is_gone(st: FsState, os: Seq<u64>, k: int)
    requires
        chain_holds(st, os),
        0 <= k < os.len(),
        dirmodel::orphan_del(st, os[k]).1 is Ok,
    ensures
        chain_holds(dirmodel::orphan_del(st, os[k]).0, os.remove(k)),
{
    reveal(dirmodel::orphan_del);
    let ino = os[k];
    assert(os.contains(ino));
    assert(st.orphans.contains_key(ino));
    let prev = st.orphans[ino];
    assert(linked(st, os, k));
    let st0 = FsState { orphans: st.orphans.remove(ino), ..st };
    let z = dirmodel::orphan_del(st, ino).0;
    assert forall|o: u64| #[trigger] model::read_inode(st0, o) == model::read_inode(st, o) by {
        lemma_read_kept(st0, st, o);
    }
    let next = model::read_inode(st0, ino)->Ok_0.orphan_next;
    if k + 1 < os.len() {
        assert(linked(st, os, k + 1));
    }
    if k == 0 {
        let a = FsState { sb: SuperblockView { last_orphan: next, ..st0.sb }, ..st0 };
        assert forall|o: u64| #[trigger] model::read_inode(a, o) == model::read_inode(st0, o) by {
            lemma_read_kept(a, st0, o);
        }
        lemma_superblock_set(a);
        let st1 = dirmodel::write_superblock(a).0;
        assert forall|i: int| 0 <= i < os.len() implies model::read_inode(z, #[trigger] os[i])
            == model::read_inode(st, os[i]) by {
            assert(linked(st, os, i));
            lemma_read_kept(z, st1, os[i]);
            assert(model::read_inode(st1, os[i]) == model::read_inode(a, os[i]));
        }
    } else {
        assert(linked(st, os, k - 1));
        let p = model::read_inode(st0, prev)->Ok_0;
        lemma_area(st0, prev);
        let j = layout::stamped(InodeView { orphan_next: next, ..p });
        lemma_inode_set(st0, prev, j);
        let st1 = model::write_inode(st0, prev, j).0;
        assert forall|o: u64| #[trigger] model::read_inode(z, o) == model::read_inode(st1, o) by {
            lemma_read_kept(z, st1, o);
        }
        assert forall|i: int| 0 <= i < os.len() && i != k && i != k - 1 implies model::read_inode(
            z,
            #[trigger] os[i],
        ) == model::read_inode(st, os[i]) by {
            lemma_apart_both(st, os, i, k - 1);
            assert(apart(st0, prev, os[i]));
        }
    }
    lemma_taken_off(st, z, os, k);
}

proof fn lemma_apart_both(st: FsState, os: Seq<u64>, i: int, j: int)
    requires
        chain_holds(st, os),
        0 <= i < os.len(),
        0 <= j < os.len(),
        i != j,
    ensures
        apart(st, os[j], os[i]),
{
    if i < j {
        assert(os[i] != os[j] && apart(st, os[i], os[j]));
    } else {
        assert(os[j] != os[i] && apart(st, os[j], os[i]));
    }
}

// ---- Finishing deletions ------------------------------------------------------------------------

/// Whether inode `x` can be freed in state `w`, in a transaction of its own that leads to `after`,
/// and the one behind it is `next`.
pub open spec fn freed_alone(w: FsState, x: u64, after: FsState, next: u64) -> bool {
    &&& x != 0
    &&& model::read_inode(w, x) matches Ok(i) && i.orphan_next == next && model::finish(
        dirmodel::reclaim_orphan(model::begin(w), x, i, i.orphan_next),
    ) == (after, Ok::<(), Error>(()))
}

/// The number behind position `k`, 0 behind the last.
pub open spec fn behind(xs: Seq<u64>, k: int) -> u64 {
    if k + 1 < xs.len() {
        xs[k + 1]
    } else {
        0
    }
}

proof fn lemma_walked(ws: Seq<FsState>, xs: Seq<u64>, k: int, seen: Set<u64>)
    requires
        ws.len() == xs.len() + 1,
        xs.len() < 0xFFFF_FFFF,
        xs.no_duplicates(),
        0 <= k <= xs.len(),
        forall|i: int|
            0 <= i < xs.len() ==> freed_alone(ws[i], #[trigger] xs[i], ws[i + 1], behind(xs, i)),
        forall|i: int| k <= i < xs.len() ==> !seen.contains(#[trigger] xs[i]),
    ensures
        dirmodel::reclaim_orphans(
            ws[k],
            if k < xs.len() {
                xs[k]
            } else {
                0
            },
            seen,
            k,
        ) == (ws.last(), xs.len() as int),
    decreases xs.len() - k,
{
    if k < xs.len() {
        assert(freed_alone(ws[k], xs[k], ws[k + 1], behind(xs, k)));
        assert forall|i: int| k + 1 <= i < xs.len() implies !seen.insert(xs[k]).contains(
            #[trigger] xs[i],
        ) by {
            assert(xs[i] != xs[k]);
        }
        lemma_walked(ws, xs, k + 1, seen.insert(xs[k]));
    }
}

/// Finishing interrupted deletions frees every file of the chain, first to last, as long as each
/// can be freed: the chain is walked to its end.
pub proof fn whole_chain_is_freed(ws: Seq<FsState>, xs: Seq<u64>)
    requires
        ws.len() == xs.len() + 1,
        xs.len() < 0xFFFF_FFFF,
        xs.no_duplicates(),
        forall|i: int|
            0 <= i < xs.len() ==> freed_alone(ws[i], #[trigger] xs[i], ws[i + 1], behind(xs, i)),
    ensures
        dirmodel::reclaim_orphans(ws[0], member(xs, 0), Set::empty(), 0) == (
            ws.last(),
            xs.len() as int,
        ),
{
    lemma_walked(ws, xs, 0, Set::empty());
}

/// A file that is freed in the course of this is no longer the first of the chain: the one behind
/// it is.
pub proof fn freed_makes_way(w: FsState, x: u64, after: FsState, next: u64)
    requires
        freed_alone(w, x, after, next),
        next <= u32::MAX,
    ensures
        after.sb.last_orphan == next,
{
    reveal(dirmodel::write_superblock);
}

} // verus!
