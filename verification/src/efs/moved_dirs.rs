//! Directories that move: a directory in another one knows which it is in, and the two have the
//! links that go with it.
use vstd::prelude::*;
use crate::bytes;
use crate::error::Error;
use super::contents;
use super::contents::{Role, Storage};
use super::dirent;
use super::dirmodel;
use super::extents;
use super::layout;
use super::layout::{InodeView, S_IFDIR};
use super::model;
use super::model::FsState;
use super::moves;
use super::names;
use super::new_dirs;
use super::orphans;
use super::renames;
use super::replacing;

verus! {

/// Writing the blocks of one directory leaves the other alone.
#[verifier::spinoff_prover]
#[verifier::rlimit(40)]
proof fn lemma_put_beside(
    st: FsState,
    a: u64,
    ia: InodeView,
    sa: Storage,
    data: Seq<u8>,
    b: u64,
    sb: Storage,
)
    requires
        names::dir_in_order(st, a, ia, sa),
        data.len() == ia.size,
        moves::strangers(st, a, sa, b, sb),
        dirmodel::put_dir_blocks(st, a, data, 0).1 is Ok,
    ensures
        renames::passes_by(st, dirmodel::put_dir_blocks(st, a, data, 0).0, b, sb),
{
    names::lemma_put_blocks(st, a, ia, sa, data, 0);
    let z = dirmodel::put_dir_blocks(st, a, data, 0).0;
    assert forall|q: Role|
        (#[trigger] contents::at(st, b, sb, q)) is Some implies names::spared(
        sa.map,
        contents::at(st, b, sb, q)->Some_0,
    ) by {
        let x = contents::at(st, b, sb, q)->Some_0;
        assert forall|lb: u32| (#[trigger] extents::map_lookup(sa.map, lb)) matches Some(p) implies
            extents::map_lookup(sa.map, lb)->Some_0 != x by {
            if extents::map_lookup(sa.map, lb) is Some {
                assert(contents::at(st, a, sa, Role::Data(lb)) is Some);
                assert(!moves::shared(Role::Data(lb), q));
            }
        }
    }
    if model::inode_block(st, b) is Some {
        assert(contents::at(st, b, sb, Role::Home) is Some);
    }
    renames::lemma_same_inode(st, z, b);
    assert forall|q: Role|
        q != Role::Home && (#[trigger] contents::at(st, b, sb, q)) is Some && model::has_block(
            st,
            contents::at(st, b, sb, q)->Some_0,
        ) implies contents::block(z, contents::at(st, b, sb, q)->Some_0) == contents::block(
        st,
        contents::at(st, b, sb, q)->Some_0,
    ) by {
        assert(names::spared(sa.map, contents::at(st, b, sb, q)->Some_0));
    }
}

/// Writing the inode of one directory leaves the other alone.
#[verifier::spinoff_prover]
#[verifier::rlimit(40)]
proof fn lemma_inode_beside(st: FsState, a: u64, sa: Storage, j: InodeView, b: u64, sb: Storage)
    requires
        model::mounted(st),
        moves::strangers(st, a, sa, b, sb),
        j.data_area.len() == layout::INODE_DATA_AREA_SIZE,
        model::write_inode(st, a, j).1 is Ok,
    ensures
        renames::passes_by(st, model::write_inode(st, a, j).0, b, sb),
        model::read_inode(model::write_inode(st, a, j).0, a) == Ok::<InodeView, Error>(j),
{
    let z = model::write_inode(st, a, j).0;
    let h = contents::lemma_inode_page(st, a, j);
    orphans::lemma_inode_set(st, a, j);
    assert(contents::at(st, a, sa, Role::Home) == Some(h));
    assert(contents::same_shape(st, z));
    assert forall|q: Role|
        q != Role::Home && (#[trigger] contents::at(st, b, sb, q)) is Some && model::has_block(
            st,
            contents::at(st, b, sb, q)->Some_0,
        ) implies contents::block(z, contents::at(st, b, sb, q)->Some_0) == contents::block(
        st,
        contents::at(st, b, sb, q)->Some_0,
    ) by {
        assert(!moves::shared(Role::Home, q));
        assert(contents::at(st, b, sb, q) != Some(h));
    }
}

/// Setting the entry of the directory above.
#[verifier::spinoff_prover]
#[verifier::rlimit(40)]
proof fn lemma_above_set(st: FsState, ino: u64, i: InodeView, s: Storage, parent: u64)
    requires
        names::dir_in_order(st, ino, i, s),
        dirent::tiled(names::dir_bytes(st, s.map, i.size as int), 0),
        dirent::dotdot_from(names::dir_bytes(st, s.map, i.size as int), 0) is Some,
        parent != 0,
        dirmodel::update_dotdot(st, ino, parent).1 is Ok,
    ensures
        ({
            let z = dirmodel::update_dotdot(st, ino, parent).0;
            let d = names::dir_bytes(st, s.map, i.size as int);
            let off = dirent::dotdot_from(d, 0)->Some_0;
            let data = bytes::splice(d, off, bytes::bytes64(parent));
            &&& (z, Ok::<(), Error>(())) == dirmodel::put_dir_blocks(st, ino, data, 0)
            &&& data.len() == i.size
            &&& names::dir_in_order(z, ino, i, s)
            &&& names::dir_bytes(z, s.map, i.size as int) == data
        }),
{
    reveal(dirmodel::update_dotdot);
    reveal(dirmodel::write_dir_data);
    names::read_gives_dir_bytes(st, ino, i, s);
    let d = names::dir_bytes(st, s.map, i.size as int);
    dirent::above_then_lookup(d, 0, parent, Seq::empty());
    let off = dirent::dotdot_from(d, 0)->Some_0;
    let data = bytes::splice(d, off, bytes::bytes64(parent));
    names::lemma_put_blocks(st, ino, i, s, data, 0);
    let z = dirmodel::update_dotdot(st, ino, parent).0;
    let size = i.size as int;
    assert(names::dir_bytes(z, s.map, size) =~= data) by {
        assert forall|pos: int| 0 <= pos < size implies contents::byte_at(z, s.map, pos)
            == data[pos] by {
            assert(names::replaced(st, z, s.map, data, 0, pos));
        }
    }
    assert(dirmodel::put_dir_blocks(st, ino, data, 0).0 == z);
    assert(dirmodel::put_dir_blocks(st, ino, data, 0).1->Ok_0 == ());
    assert(names::dir_in_order(z, ino, i, s));
}

/// A directory that moves to another one finds that one under two full stops afterwards. The one
/// it was in has one link less, and the one it is in has one more.
#[verifier::spinoff_prover]
#[verifier::rlimit(80)]
pub proof fn moved_directory_knows_where_it_is(
    st: FsState,
    a: u64,
    ia: InodeView,
    sa: Storage,
    b: u64,
    ib: InodeView,
    sb: Storage,
    ino: u64,
    f: InodeView,
    sf: Storage,
    old_name: Seq<u8>,
    new_name: Seq<u8>,
    now: u64,
)
    requires
        names::dir_in_order(st, a, ia, sa),
        names::dir_in_order(st, b, ib, sb),
        names::dir_in_order(st, ino, f, sf),
        a != b,
        moves::strangers(st, a, sa, b, sb),
        moves::strangers(st, a, sa, ino, sf),
        moves::strangers(st, b, sb, ino, sf),
        names::well_named(names::dir_bytes(st, sa.map, ia.size as int)),
        names::well_named(names::dir_bytes(st, sb.map, ib.size as int)),
        dirent::tiled(names::dir_bytes(st, sf.map, f.size as int), 0),
        dirent::dotdot_from(names::dir_bytes(st, sf.map, f.size as int), 0) is Some,
        ib.size + 8192 <= contents::LIMIT,
        ib.size + 12288 <= usize::MAX,
        dirmodel::lookup_in_dir(st, b, new_name) == Ok::<Option<(u64, u8)>, Error>(None),
        f.kind() == S_IFDIR,
        ino != 0,
        b != 0,
        new_name.len() <= 255,
        ia.link_count > 0,
        ib.link_count < u16::MAX,
        dirmodel::rename(st, a, b, ino, f, old_name, new_name, now).1 is Ok,
    ensures
        ({
            let z = dirmodel::rename(st, a, b, ino, f, old_name, new_name, now).0;
            &&& dirmodel::lookup_in_dir(z, ino, seq![0x2Eu8, 0x2Eu8]) matches Ok(Some((x, _))) && x
                == b
            &&& model::read_inode(z, a) matches Ok(j) && j.link_count == ia.link_count - 1
            &&& model::read_inode(z, b) matches Ok(j) && j.link_count == ib.link_count + 1
        }),
{
    reveal(dirmodel::rename);
    let st1 = dirmodel::remove_dir_entry(st, a, old_name, now).0;
    let ja = names::remove_entry_then_lookup(st, a, ia, sa, old_name, old_name, now);
    moves::lemma_remove_beside(st, a, ia, sa, old_name, now, b, sb);
    moves::lemma_remove_beside(st, a, ia, sa, old_name, now, ino, sf);
    renames::lemma_passed_by(st, st1, b, ib, sb);
    renames::lemma_passed_by(st, st1, ino, f, sf);
    renames::lemma_same_names(st, st1, b, ib, sb, ib, sb, new_name);
    moves::lemma_still_strangers(st, st1, a, sa, b, sb);
    moves::lemma_still_strangers(st, st1, a, sa, ino, sf);
    moves::lemma_still_strangers(st, st1, b, sb, ino, sf);
    replacing::lemma_strangers_both_ways(st1, b, sb, ino, sf);
    let ft = layout::dir_entry_type(f.mode);
    let st2 = dirmodel::add_dir_entry(st1, b, new_name, ino, ft, now).0;
    let (kb, tb) = names::add_entry_then_lookup(st1, b, ib, sb, new_name, ino, ft, new_name, now);
    moves::lemma_enter_beside(st1, a, ja, sa, b, ib, sb, new_name, ino, ft, now);
    moves::lemma_enter_beside(st1, ino, f, sf, b, ib, sb, new_name, ino, ft, now);
    moves::lemma_still_strangers(st1, st2, a, sa, ino, sf);
    moves::lemma_still_strangers(st1, st2, b, sb, ino, sf);
    moves::lemma_still_strangers(st1, st2, a, sa, b, sb);
    replacing::lemma_strangers_both_ways(st2, a, sa, ino, sf);
    replacing::lemma_strangers_both_ways(st2, b, sb, ino, sf);
    lemma_above_after(st2, a, ja, sa, b, kb, sb, ino, f, sf);
}

#[verifier::spinoff_prover]
#[verifier::rlimit(60)]
proof fn lemma_above_after(
    st2: FsState,
    a: u64,
    ja: InodeView,
    sa: Storage,
    b: u64,
    kb: InodeView,
    sb: Storage,
    ino: u64,
    f: InodeView,
    sf: Storage,
)
    requires
        names::dir_in_order(st2, a, ja, sa),
        model::read_inode(st2, b) == Ok::<InodeView, Error>(kb),
        names::dir_in_order(st2, ino, f, sf),
        moves::strangers(st2, a, sa, b, sb),
        moves::strangers(st2, a, sa, ino, sf),
        moves::strangers(st2, b, sb, ino, sf),
        moves::strangers(st2, ino, sf, a, sa),
        moves::strangers(st2, ino, sf, b, sb),
        dirent::tiled(names::dir_bytes(st2, sf.map, f.size as int), 0),
        dirent::dotdot_from(names::dir_bytes(st2, sf.map, f.size as int), 0) is Some,
        b != 0,
        ja.link_count > 0,
        kb.link_count < u16::MAX,
        dirmodel::update_dotdot(st2, ino, b).1 is Ok,
        ({
            let st3 = dirmodel::update_dotdot(st2, ino, b).0;
            let st4 = dirmodel::adjust_links(st3, a, false).0;
            &&& dirmodel::adjust_links(st3, a, false).1 is Ok
            &&& dirmodel::adjust_links(st4, b, true).1 is Ok
        }),
    ensures
        ({
            let st3 = dirmodel::update_dotdot(st2, ino, b).0;
            let st4 = dirmodel::adjust_links(st3, a, false).0;
            let z = dirmodel::adjust_links(st4, b, true).0;
            &&& dirmodel::lookup_in_dir(z, ino, seq![0x2Eu8, 0x2Eu8]) matches Ok(Some((x, _))) && x
                == b
            &&& model::read_inode(z, a) matches Ok(j) && j.link_count == ja.link_count - 1
            &&& model::read_inode(z, b) matches Ok(j) && j.link_count == kb.link_count + 1
        }),
{
    let dd = seq![0x2Eu8, 0x2Eu8];
    let d = names::dir_bytes(st2, sf.map, f.size as int);
    let off = dirent::dotdot_from(d, 0)->Some_0;
    let data = bytes::splice(d, off, bytes::bytes64(b));
    let st3 = dirmodel::update_dotdot(st2, ino, b).0;
    lemma_above_set(st2, ino, f, sf, b);
    dirent::above_then_lookup(d, 0, b, dd);
    lemma_put_beside(st2, ino, f, sf, data, a, sa);
    lemma_put_beside(st2, ino, f, sf, data, b, sb);
    moves::lemma_still_strangers(st2, st3, a, sa, b, sb);
    moves::lemma_still_strangers(st2, st3, a, sa, ino, sf);
    moves::lemma_still_strangers(st2, st3, b, sb, ino, sf);
    let st4 = dirmodel::adjust_links(st3, a, false).0;
    reveal(dirmodel::adjust_links);
    orphans::lemma_area(st3, a);
    let j = layout::stamped(InodeView { link_count: (ja.link_count - 1) as u16, ..ja });
    assert(st4 == model::write_inode(st3, a, j).0);
    lemma_inode_beside(st3, a, sa, j, b, sb);
    lemma_inode_beside(st3, a, sa, j, ino, sf);
    renames::lemma_passed_by(st3, st4, ino, f, sf);
    moves::lemma_still_strangers(st3, st4, a, sa, b, sb);
    moves::lemma_still_strangers(st3, st4, b, sb, ino, sf);
    replacing::lemma_strangers_both_ways(st4, a, sa, b, sb);
    orphans::lemma_area(st4, b);
    let k = layout::stamped(InodeView { link_count: (kb.link_count + 1) as u16, ..kb });
    let z = dirmodel::adjust_links(st4, b, true).0;
    assert(z == model::write_inode(st4, b, k).0);
    lemma_inode_beside(st4, b, sb, k, ino, sf);
    lemma_inode_beside(st4, b, sb, k, a, sa);
    renames::lemma_passed_by(st4, z, ino, f, sf);
    names::read_gives_dir_bytes(z, ino, f, sf);
    reveal(dirmodel::lookup_in_dir);
}

} // verus!
