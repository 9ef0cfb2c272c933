//! Where paths lead: a path leads on from where the path without its last name leads, and a
//! symbolic link on the way leads to its target followed by all the names behind it.
use vstd::prelude::*;
use crate::error::Error;
use crate::path;
use crate::types::FileKind;
use super::dirmodel;
use super::dirmodel::WalkView;
use super::layout::{EFS_ROOT_INO, InodeView, INODE_DATA_AREA_SIZE, S_IFLNK};
use super::model;
use super::model::FsState;

verus! {

/// The names before a link, its target and the names behind it in normal form; an absolute
/// target does away with what comes before.
pub open spec fn led_to(before: Seq<Seq<char>>, target: Seq<char>, behind: Seq<Seq<char>>) -> Seq<
    Seq<char>,
> {
    if target.len() > 0 && target[0] == '/' {
        path::normalized(path::split(target) + behind)
    } else {
        path::normalized(before + path::split(target) + behind)
    }
}

/// What a name in directory `d` leads to, when `before` are the names that led there.
pub open spec fn one_step(
    st: FsState,
    d: u64,
    before: Seq<Seq<char>>,
    name: Seq<char>,
    follow: bool,
) -> Result<WalkView, Error> {
    match dirmodel::lookup_in_dir(st, d, vstd::utf8::encode_utf8(name)) {
        Err(e) => Err(e),
        Ok(None) => Err(Error::FileNotFound),
        Ok(Some((ino, _))) => match model::read_inode(st, ino) {
            Err(e) => Err(e),
            Ok(i) => if i.kind() != S_IFLNK || !follow {
                Ok(WalkView::Node(ino, i))
            } else {
                match dirmodel::symlink_target(i) {
                    Err(e) => Err(e),
                    Ok(t) => Ok(WalkView::Escaped(led_to(before, t, Seq::empty()))),
                }
            },
        },
    }
}

proof fn lemma_one_behind(prefix: Seq<Seq<char>>, target: Seq<char>, rest: Seq<Seq<char>>, c: Seq<char>)
    requires
        path::all_plain(prefix),
    ensures
        path::spliced(prefix, target, rest.push(c)) == path::normalized(
            path::spliced(prefix, target, rest).push(c),
        ),
        path::spliced(prefix, target, rest) == led_to(prefix, target, rest),
{
    path::link_leads_to_normal_form(prefix, target, rest);
    path::link_leads_to_normal_form(prefix, target, rest.push(c));
    let all = if target.len() > 0 && target[0] == '/' {
        path::split(target) + rest
    } else {
        prefix + path::split(target) + rest
    };
    let longer = if target.len() > 0 && target[0] == '/' {
        path::split(target) + rest.push(c)
    } else {
        prefix + path::split(target) + rest.push(c)
    };
    assert(longer =~= all.push(c));
    lemma_push_normal(all, c);
}

/// Normalizing before a name is added changes nothing.
proof fn lemma_push_normal(cs: Seq<Seq<char>>, c: Seq<char>)
    ensures
        path::normalized(path::normalized(cs).push(c)) == path::normalized(cs.push(c)),
{
    let n = path::normalized(cs);
    path::normalize_is_idempotent(cs);
    path::normal_form_of_one_more(cs, c);
    path::normal_form_of_one_more(n, c);
    assert(path::normalized(n.push(c)) =~= path::normalized(cs.push(c)));
}

proof fn lemma_leads_on(st: FsState, a: Seq<Seq<char>>, c: Seq<char>, follow: bool, k: int, at: u64)
    requires
        path::all_plain(a),
        0 <= k <= a.len(),
    ensures
        dirmodel::walk(st, a.push(c), follow, k, at) == (match dirmodel::walk(st, a, true, k, at) {
            Err(e) => Err(e),
            Ok(WalkView::Node(d, _)) => one_step(st, d, a, c, follow),
            Ok(WalkView::Escaped(p)) => Ok(WalkView::Escaped(path::normalized(p.push(c)))),
        }),
    decreases a.len() - k,
{
    let cs = a.push(c);
    assert(cs.take(k) =~= a.take(k));
    assert(path::all_plain(a.take(k)));
    if k < a.len() {
        assert(cs[k] == a[k]);
        assert(cs.skip(k + 1) =~= a.skip(k + 1).push(c));
        match dirmodel::lookup_in_dir(st, at, vstd::utf8::encode_utf8(a[k])) {
            Ok(Some((ino, _))) => match model::read_inode(st, ino) {
                Ok(i) => if i.kind() == S_IFLNK {
                    if let Ok(t) = dirmodel::symlink_target(i) {
                        lemma_one_behind(a.take(k), t, a.skip(k + 1), c);
                    }
                } else {
                    lemma_leads_on(st, a, c, follow, k + 1, ino);
                },
                Err(_) => {},
            },
            _ => {},
        }
    } else {
        assert(cs[k] == c);
        assert(cs.take(k) =~= a);
        assert(cs.skip(k + 1) =~= Seq::<Seq<char>>::empty());
        reveal(dirmodel::lookup_in_dir);
        match dirmodel::lookup_in_dir(st, at, vstd::utf8::encode_utf8(c)) {
            Ok(Some((ino, _))) => match model::read_inode(st, ino) {
                Ok(i) => {
                    if i.kind() == S_IFLNK {
                        if let Ok(t) = dirmodel::symlink_target(i) {
                            path::link_leads_to_normal_form(a, t, Seq::empty());
                        }
                    }
                    assert(dirmodel::walk(st, cs, follow, k + 1, ino) == Ok::<WalkView, Error>(
                        WalkView::Node(ino, i),
                    ));
                },
                Err(_) => {},
            },
            _ => {},
        }
    }
}

/// A path leads on from where it leads without its last name: to what the directory there has
/// under the name, or, when a link came before, to where the link leads followed by the name.
/// The path without names leads to the root.
pub proof fn path_leads_on(st: FsState, a: Seq<Seq<char>>, c: Seq<char>, follow: bool)
    requires
        path::all_plain(a),
    ensures
        dirmodel::walk_path(st, a.push(c), follow) == (match dirmodel::walk_path(st, a, true) {
            Err(e) => Err(e),
            Ok(WalkView::Node(d, _)) => one_step(st, d, a, c, follow),
            Ok(WalkView::Escaped(p)) => Ok(WalkView::Escaped(path::normalized(p.push(c)))),
        }),
        dirmodel::walk_path(st, Seq::empty(), follow) == (match model::read_inode(st, 2) {
            Err(e) => Err(e),
            Ok(i) => Ok(WalkView::Node(2, i)),
        }),
{
    reveal(dirmodel::walk_path);
    lemma_leads_on(st, a, c, follow, 0, EFS_ROOT_INO);
}

/// Names behind a symbolic link come behind the path that the link leads to, all of them and in
/// their order.
pub proof fn names_behind_a_link_are_kept(
    st: FsState,
    a: Seq<Seq<char>>,
    p: Seq<Seq<char>>,
    behind: Seq<Seq<char>>,
    follow: bool,
)
    requires
        path::all_plain(a),
        path::all_plain(behind),
        behind.len() > 0,
        dirmodel::walk_path(st, a, true) == Ok::<WalkView, Error>(WalkView::Escaped(p)),
    ensures
        dirmodel::walk_path(st, a + behind, follow) == Ok::<WalkView, Error>(
            WalkView::Escaped(path::normalized(p + behind)),
        ),
    decreases behind.len(),
{
    let front = behind.drop_last();
    let c = behind.last();
    assert(a + behind =~= (a + front).push(c));
    assert(p + behind =~= (p + front).push(c));
    assert(path::all_plain(a + front)) by {
        assert forall|i: int| 0 <= i < (a + front).len() implies path::plain(
            #[trigger] (a + front)[i],
        ) by {
            if i < a.len() {
                assert(path::plain(a[i]));
            } else {
                assert(path::plain(behind[i - a.len()]));
            }
        }
    }
    assert(path::all_plain(front)) by {
        assert forall|i: int| 0 <= i < front.len() implies path::plain(#[trigger] front[i]) by {
            assert(path::plain(behind[i]));
        }
    }
    path_leads_on(st, a + front, c, follow);
    if front.len() > 0 {
        names_behind_a_link_are_kept(st, a, p, front, true);
        lemma_push_normal(p + front, c);
    } else {
        assert(a + front =~= a);
        assert(p + front =~= p);
    }
}

/// What a walk that needs no link came to.
pub open spec fn plain_end(r: Result<WalkView, Error>) -> bool {
    r matches Ok(w) ==> w is Node
}

/// Two paths that lead to one directory lead to the same files with the same names behind them.
pub proof fn one_directory_has_one_content(
    st: FsState,
    a: Seq<Seq<char>>,
    b: Seq<Seq<char>>,
    d: u64,
    i: InodeView,
    behind: Seq<Seq<char>>,
)
    requires
        path::all_plain(a),
        path::all_plain(b),
        path::all_plain(behind),
        dirmodel::walk_path(st, a, true) == Ok::<WalkView, Error>(WalkView::Node(d, i)),
        dirmodel::walk_path(st, b, true) == Ok::<WalkView, Error>(WalkView::Node(d, i)),
        plain_end(dirmodel::walk_path(st, a + behind, true)),
    ensures
        dirmodel::walk_path(st, b + behind, true) == dirmodel::walk_path(st, a + behind, true),
    decreases behind.len(),
{
    if behind.len() == 0 {
        assert(a + behind =~= a);
        assert(b + behind =~= b);
    } else {
        let front = behind.drop_last();
        let c = behind.last();
        assert(a + behind =~= (a + front).push(c));
        assert(b + behind =~= (b + front).push(c));
        assert forall|k: int| 0 <= k < (a + front).len() implies path::plain(
            #[trigger] (a + front)[k],
        ) by {
            if k < a.len() {
                assert(path::plain(a[k]));
            } else {
                assert(path::plain(behind[k - a.len()]));
            }
        }
        assert forall|k: int| 0 <= k < (b + front).len() implies path::plain(
            #[trigger] (b + front)[k],
        ) by {
            if k < b.len() {
                assert(path::plain(b[k]));
            } else {
                assert(path::plain(behind[k - b.len()]));
            }
        }
        assert forall|k: int| 0 <= k < front.len() implies path::plain(#[trigger] front[k]) by {
            assert(path::plain(behind[k]));
        }
        path_leads_on(st, a + front, c, true);
        path_leads_on(st, b + front, c, true);
        one_directory_has_one_content(st, a, b, d, i, front);
    }
}

/// The inodes of new files: each reads as what it was made as, and holds nothing yet; a link
/// holds its target.
pub proof fn made_inodes_are_what_they_are_made_as(target: Seq<char>, phys: u64, now: u64)
    requires
        0 < vstd::utf8::encode_utf8(target).len() <= INODE_DATA_AREA_SIZE,
    ensures
        ({
            let l = dirmodel::new_symlink_inode(vstd::utf8::encode_utf8(target), now);
            let f = dirmodel::new_file_inode(now);
            let p = dirmodel::new_fifo_inode(now);
            let d = dirmodel::new_dir_inode(phys, now);
            &&& dirmodel::symlink_target(l) == Ok::<Seq<char>, Error>(target)
            &&& dirmodel::kind_of(l) == FileKind::Symlink
            &&& dirmodel::kind_of(f) == FileKind::File
            &&& dirmodel::kind_of(p) == FileKind::Fifo
            &&& dirmodel::kind_of(d) == FileKind::Directory
            &&& f.size == 0 && f.inline() && f.link_count == 1
            &&& p.size == 0 && p.link_count == 1
            &&& l.link_count == 1
            &&& d.link_count == 2 && !d.inline()
            &&& f.mtime_sec == now && f.ctime_sec == now && f.atime_sec == now
            &&& l.mtime_sec == now && d.mtime_sec == now && p.mtime_sec == now
        }),
{
    let t = vstd::utf8::encode_utf8(target);
    let i = dirmodel::new_symlink_inode(t, now);
    vstd::utf8::encode_utf8_valid_utf8(target);
    vstd::utf8::encode_utf8_decode_utf8(target);
    assert(i.data_area.take(t.len() as int) =~= t);
    assert(0xA1FFu16 & 0xF000 == 0xA000 && 0x81A4u16 & 0xF000 == 0x8000 && 0x11A4u16 & 0xF000
        == 0x1000 && 0x41EDu16 & 0xF000 == 0x4000) by (bit_vector);
    assert(1u32 & 1 != 0 && 0u32 & 1 == 0) by (bit_vector);
}

} // verus!
