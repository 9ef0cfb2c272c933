//! Where paths lead.
use vstd::prelude::*;
use crate::error::Error;
use crate::path;
use crate::types::{FileKind, MAX_SYMLINK_HOPS};
use super::ops;
use super::tree;
use super::tree::MemState;

verus! {

/// Whether node `id` is the first child of node `d` with the given name, behind children that
/// are all there.
pub open spec fn named_child(st: MemState, d: u64, name: Seq<char>, id: u64) -> bool {
    exists|i: int| #[trigger] first_named(st, d, name, i) && st.nodes[d].childs[i] == id
}

/// Whether the child of node `d` at position `i` is the first with the given name, behind
/// children that are all there.
pub open spec fn first_named(st: MemState, d: u64, name: Seq<char>, i: int) -> bool {
    let childs = st.nodes[d].childs;
    &&& 0 <= i < childs.len()
    &&& st.nodes[childs[i] as u64].file.name == name
    &&& forall|j: int| 0 <= j <= i ==> st.nodes.contains_key(#[trigger] childs[j] as u64)
    &&& forall|j: int| 0 <= j < i ==> st.nodes[#[trigger] childs[j] as u64].file.name != name
}

/// Whether all children of node `d` are there and none has the given name.
pub open spec fn none_named(st: MemState, d: u64, name: Seq<char>) -> bool {
    let childs = st.nodes[d].childs;
    forall|j: int|
        0 <= j < childs.len() ==> st.nodes.contains_key(#[trigger] childs[j] as u64)
            && st.nodes[childs[j] as u64].file.name != name
}

/// Whether the components of `cs` name the nodes `ids` one below the other, from the root
/// down, and no node but the last is a link.
pub open spec fn straight(st: MemState, cs: Seq<Seq<char>>, ids: Seq<u64>) -> bool {
    &&& ids.len() == cs.len()
    &&& forall|k: int| 0 <= k < cs.len() ==> #[trigger] steps_down(st, cs, ids, k)
}

/// Whether component `k` of `cs` names node `ids[k]` below the one before it.
pub open spec fn steps_down(st: MemState, cs: Seq<Seq<char>>, ids: Seq<u64>, k: int) -> bool {
    &&& named_child(
        st,
        if k == 0 {
            0
        } else {
            ids[k - 1]
        },
        cs[k],
        ids[k],
    )
    &&& k + 1 < cs.len() ==> st.nodes[ids[k]].file.kind != FileKind::Symlink
}

proof fn lemma_first(st: MemState, d: u64, name: Seq<char>, i: int, k: int)
    requires
        first_named(st, d, name, i),
        0 <= k <= i,
    ensures
        tree::child_at(st, st.nodes[d].childs, name, k) == Ok::<Option<int>, Error>(Some(i)),
    decreases i - k,
{
    assert(st.nodes.contains_key(st.nodes[d].childs[k] as u64));
    if k < i {
        lemma_first(st, d, name, i, k + 1);
    }
}

proof fn lemma_none(st: MemState, d: u64, name: Seq<char>, k: int)
    requires
        none_named(st, d, name),
        0 <= k <= st.nodes[d].childs.len(),
    ensures
        tree::child_at(st, st.nodes[d].childs, name, k) == Ok::<Option<int>, Error>(None),
    decreases st.nodes[d].childs.len() - k,
{
    if k < st.nodes[d].childs.len() {
        assert(st.nodes.contains_key(st.nodes[d].childs[k] as u64));
        lemma_none(st, d, name, k + 1);
    }
}

/// A walk with one more name goes where the walk without it goes, and one step on.
proof fn lemma_pushed(
    st: MemState,
    cs: Seq<Seq<char>>,
    name: Seq<char>,
    follow: bool,
    hops: int,
    k: int,
    at: u64,
)
    requires
        path::plain(name),
        0 <= k <= cs.len(),
    ensures
        match tree::walk(st, cs, true, hops, k, at) {
            Err(e) => tree::walk(st, cs.push(name), follow, hops, k, at) == Err::<
                Option<u64>,
                Error,
            >(e),
            Ok(None) => tree::walk(st, cs.push(name), follow, hops, k, at) == Ok::<
                Option<u64>,
                Error,
            >(None),
            Ok(Some(d)) => match tree::child_at(st, st.nodes[d].childs, name, 0) {
                Err(e) => tree::walk(st, cs.push(name), follow, hops, k, at) == Err::<
                    Option<u64>,
                    Error,
                >(e),
                Ok(None) => tree::walk(st, cs.push(name), follow, hops, k, at) == Ok::<
                    Option<u64>,
                    Error,
                >(None),
                Ok(Some(i)) => {
                    let id = st.nodes[d].childs[i] as u64;
                    !follow || st.nodes[id].file.kind != FileKind::Symlink ==> tree::walk(
                        st,
                        cs.push(name),
                        follow,
                        hops,
                        k,
                        at,
                    ) == Ok::<Option<u64>, Error>(Some(id))
                },
            },
        },
    decreases MAX_SYMLINK_HOPS - hops, cs.len() - k,
{
    let t = cs.push(name);
    let xs = st.nodes[at].childs;
    if k < cs.len() {
        assert(t[k] == cs[k]);
        match tree::child_at(st, xs, cs[k], 0) {
            Ok(Some(i)) => {
                let c = xs[i] as u64;
                let n = st.nodes[c];
                if n.file.kind == FileKind::Symlink {
                    if hops < MAX_SYMLINK_HOPS && vstd::utf8::valid_utf8(n.content) {
                        let target = vstd::utf8::decode_utf8(n.content);
                        let rest = cs.skip(k + 1);
                        let start = if target.len() > 0 && target[0] == '/' {
                            Seq::empty()
                        } else {
                            cs.take(k)
                        };
                        assert(t.take(k) =~= cs.take(k));
                        assert(t.skip(k + 1) =~= rest.push(name));
                        let x = path::fold(start, path::split(target), 0);
                        ops::lemma_fold_push(x, rest, name, 0);
                        lemma_pushed(
                            st,
                            path::spliced(cs.take(k), target, rest),
                            name,
                            follow,
                            hops + 1,
                            0,
                            0,
                        );
                    }
                } else {
                    lemma_pushed(st, cs, name, follow, hops, k + 1, c);
                }
            },
            _ => {},
        }
    } else {
        assert(t[k] == name);
        match tree::child_at(st, xs, name, 0) {
            Ok(Some(i)) => {
                let id = xs[i] as u64;
                assert(tree::walk(st, t, follow, hops, k + 1, id) == Ok::<Option<u64>, Error>(
                    Some(id),
                ));
            },
            _ => {},
        }
    }
}

/// A path leads one name at a time. The empty path leads to the root. One name more leads to
/// the child with that name of the directory the path leads to, its links followed; where
/// there is none, to nothing; and what leads nowhere leads nowhere with more names behind it.
/// A link at the end is itself what the path leads to, unless it is to be followed.
pub proof fn path_leads_on(
    st: MemState,
    cs: Seq<Seq<char>>,
    name: Seq<char>,
    d: u64,
    id: u64,
    follow: bool,
)
    requires
        tree::valid(st),
        path::plain(name),
    ensures
        tree::find(st, Seq::empty(), follow) == Ok::<Option<u64>, Error>(Some(0)),
        tree::find(st, cs, true) == Ok::<Option<u64>, Error>(Some(d)) && named_child(
            st,
            d,
            name,
            id,
        ) && (!follow || st.nodes[id].file.kind != FileKind::Symlink) ==> tree::find(
            st,
            cs.push(name),
            follow,
        ) == Ok::<Option<u64>, Error>(Some(id)),
        tree::find(st, cs, true) == Ok::<Option<u64>, Error>(Some(d)) && none_named(st, d, name)
            ==> tree::find(st, cs.push(name), follow) == Ok::<Option<u64>, Error>(None),
        tree::find(st, cs, true) == Ok::<Option<u64>, Error>(None) ==> tree::find(
            st,
            cs.push(name),
            follow,
        ) == Ok::<Option<u64>, Error>(None),
        tree::find(st, cs, true) is Err ==> tree::find(st, cs.push(name), follow) == tree::find(
            st,
            cs,
            true,
        ),
{
    reveal(tree::find);
    lemma_pushed(st, cs, name, follow, 0, 0, 0);
    if none_named(st, d, name) {
        lemma_none(st, d, name, 0);
    }
    if named_child(st, d, name, id) {
        let i = choose|i: int| #[trigger]
            first_named(st, d, name, i) && st.nodes[d].childs[i] == id;
        lemma_first(st, d, name, i, 0);
    }
}

/// One link less to follow changes nothing but that the walk may still go on.
proof fn lemma_hops(
    st: MemState,
    cs: Seq<Seq<char>>,
    follow: bool,
    hops: int,
    k: int,
    at: u64,
)
    requires
        0 <= k,
    ensures
        tree::walk(st, cs, follow, hops + 1, k, at) == tree::walk(st, cs, follow, hops, k, at)
            || tree::walk(st, cs, follow, hops + 1, k, at) == Err::<Option<u64>, Error>(
            Error::TooManyLinks,
        ),
    decreases MAX_SYMLINK_HOPS - hops, cs.len() - k,
{
    if k < cs.len() {
        let xs = st.nodes[at].childs;
        match tree::child_at(st, xs, cs[k], 0) {
            Ok(Some(i)) => {
                let c = xs[i] as u64;
                let n = st.nodes[c];
                if n.file.kind == FileKind::Symlink && (k + 1 < cs.len() || follow) {
                    if hops < MAX_SYMLINK_HOPS {
                        lemma_hops(
                            st,
                            path::spliced(
                                cs.take(k),
                                vstd::utf8::decode_utf8(n.content),
                                cs.skip(k + 1),
                            ),
                            follow,
                            hops + 1,
                            0,
                            0,
                        );
                    }
                } else {
                    lemma_hops(st, cs, follow, hops, k + 1, c);
                }
            },
            _ => {},
        }
    }
}

proof fn lemma_straight(
    st: MemState,
    cs: Seq<Seq<char>>,
    ids: Seq<u64>,
    rest: Seq<Seq<char>>,
    follow: bool,
    k: int,
)
    requires
        straight(st, cs, ids),
        0 <= k < cs.len(),
        st.nodes[ids.last()].file.kind == FileKind::Symlink,
        vstd::utf8::valid_utf8(st.nodes[ids.last()].content),
        rest.len() > 0 || follow,
    ensures
        tree::walk(
            st,
            cs + rest,
            follow,
            0,
            k,
            if k == 0 {
                0
            } else {
                ids[k - 1]
            },
        ) == tree::walk(
            st,
            path::spliced(
                cs.drop_last(),
                vstd::utf8::decode_utf8(st.nodes[ids.last()].content),
                rest,
            ),
            follow,
            1,
            0,
            0,
        ),
    decreases cs.len() - k,
{
    let at = if k == 0 {
        0
    } else {
        ids[k - 1]
    };
    let t = cs + rest;
    assert(steps_down(st, cs, ids, k));
    assert(t[k] == cs[k]);
    let i = choose|i: int| #[trigger]
        first_named(st, at, cs[k], i) && st.nodes[at].childs[i] == ids[k];
    lemma_first(st, at, cs[k], i, 0);
    if k + 1 < cs.len() {
        lemma_straight(st, cs, ids, rest, follow, k + 1);
    } else {
        assert(t.take(k) =~= cs.drop_last());
        assert(t.skip(k + 1) =~= rest);
    }
}

/// A link stands for its target: a path through it leads where the path leads that has the
/// target, seen from the link's directory, in place of the link and the same names behind it.
/// Only the number of links on the way may be too large.
pub proof fn link_stands_for_its_target(
    st: MemState,
    cs: Seq<Seq<char>>,
    ids: Seq<u64>,
    rest: Seq<Seq<char>>,
    follow: bool,
)
    requires
        tree::valid(st),
        cs.len() > 0,
        straight(st, cs, ids),
        st.nodes[ids.last()].file.kind == FileKind::Symlink,
        vstd::utf8::valid_utf8(st.nodes[ids.last()].content),
        rest.len() > 0 || follow,
    ensures
        ({
            let there = path::spliced(
                cs.drop_last(),
                vstd::utf8::decode_utf8(st.nodes[ids.last()].content),
                rest,
            );
            tree::find(st, cs + rest, follow) == tree::find(st, there, follow) || tree::find(
                st,
                cs + rest,
                follow,
            ) == Err::<Option<u64>, Error>(Error::TooManyLinks)
        }),
{
    reveal(tree::find);
    lemma_straight(st, cs, ids, rest, follow, 0);
    lemma_hops(
        st,
        path::spliced(
            cs.drop_last(),
            vstd::utf8::decode_utf8(st.nodes[ids.last()].content),
            rest,
        ),
        follow,
        0,
        0,
        0,
    );
}

proof fn lemma_no_link(st: MemState, cs: Seq<Seq<char>>, hops: int, k: int, at: u64)
    requires
        st.nodes[0].file.kind != FileKind::Symlink,
        0 <= k <= cs.len(),
        st.nodes[at].file.kind != FileKind::Symlink,
    ensures
        tree::walk(st, cs, true, hops, k, at) matches Ok(Some(id)) ==> st.nodes[id].file.kind
            != FileKind::Symlink,
    decreases MAX_SYMLINK_HOPS - hops, cs.len() - k,
{
    if k < cs.len() {
        let xs = st.nodes[at].childs;
        match tree::child_at(st, xs, cs[k], 0) {
            Ok(Some(i)) => {
                let c = xs[i] as u64;
                let n = st.nodes[c];
                if n.file.kind == FileKind::Symlink {
                    if hops < MAX_SYMLINK_HOPS && vstd::utf8::valid_utf8(n.content) {
                        lemma_no_link(
                            st,
                            path::spliced(
                                cs.take(k),
                                vstd::utf8::decode_utf8(n.content),
                                cs.skip(k + 1),
                            ),
                            hops + 1,
                            0,
                            0,
                        );
                    }
                } else {
                    lemma_no_link(st, cs, hops, k + 1, c);
                }
            },
            _ => {},
        }
    }
}

/// A path whose links are all followed never ends at a link.
pub proof fn followed_path_ends_at_no_link(st: MemState, cs: Seq<Seq<char>>)
    requires
        tree::valid(st),
        st.nodes[0].file.kind != FileKind::Symlink,
    ensures
        tree::find(st, cs, true) matches Ok(Some(id)) ==> st.nodes[id].file.kind
            != FileKind::Symlink,
{
    reveal(tree::find);
    lemma_no_link(st, cs, 0, 0, 0);
}

proof fn lemma_ends(cs: Seq<Seq<char>>)
    requires
        cs.len() > 0,
        path::slash_free(cs.last()),
    ensures
        !path::root_path(cs),
        ops::last_name(cs) == cs.last(),
{
    if cs[0] == seq!['/'] && cs.len() == 1 {
        assert(cs.last()[0] == '/');
    }
}

/// What is removed is the child that a path's last name names in the directory that the rest
/// of the path leads to: a file or link leaves the directory, a directory goes with what is
/// below it. Where no child has the name, nothing changes.
pub proof fn removed_by_path(st: MemState, cs: Seq<Seq<char>>, d: u64, i: int)
    requires
        tree::valid(st),
        cs.len() > 0,
        path::slash_free(cs.last()),
        tree::find(st, cs.drop_last(), true) == Ok::<Option<u64>, Error>(Some(d)),
        st.nodes.contains_key(d),
        st.nodes[d].file.kind == FileKind::Directory,
    ensures
        none_named(st, d, cs.last()) ==> ops::file_removed(st, cs) == (
            st,
            Err::<(), Error>(Error::FileNotFound),
        ) && ops::dir_removed(st, cs) == (st, Err::<(), Error>(Error::FileNotFound)),
        first_named(st, d, cs.last(), i) ==> ops::placed(st, cs) == Ok::<(u64, int), Error>(
            (d, i),
        ),
        first_named(st, d, cs.last(), i) && (st.nodes[st.nodes[d].childs[i] as u64].file.kind
            == FileKind::File || st.nodes[st.nodes[d].childs[i] as u64].file.kind
            == FileKind::Symlink) ==> {
            let z = ops::file_removed(st, cs).0;
            &&& ops::file_removed(st, cs).1 is Ok
            &&& z.nodes.dom() == st.nodes.dom()
            &&& z.nodes[d].childs == st.nodes[d].childs.remove(i)
            &&& z.nodes[d].file == st.nodes[d].file
            &&& forall|k: u64| #[trigger]
                st.nodes.contains_key(k) && k != d ==> z.nodes[k] == st.nodes[k]
        },
{
    lemma_ends(cs);
    if none_named(st, d, cs.last()) {
        lemma_none(st, d, cs.last(), 0);
    }
    if first_named(st, d, cs.last(), i) {
        lemma_first(st, d, cs.last(), i, 0);
        assert(ops::detached(st, d, i).nodes.dom() =~= st.nodes.dom());
    }
}

proof fn lemma_filtered(childs: Seq<u32>, id: u32)
    ensures
        ops::without(childs, id) == childs.filter(|c: u32| c != id),
    decreases childs.len(),
{
    reveal(Seq::filter);
    if childs.len() > 0 {
        lemma_filtered(childs.drop_last(), id);
    } else {
        assert(childs.filter(|c: u32| c != id) =~= Seq::empty());
    }
}

/// What is renamed is the child that the old path's last name names. It leaves the directory
/// that it was in, comes last in the directory that the new path names, under the new path's
/// last name, and keeps its contents, its children and its kind. No other node changes. Where
/// no child has the old name, nothing changes.
pub proof fn renamed_by_path(
    st: MemState,
    a: Seq<Seq<char>>,
    b: Seq<Seq<char>>,
    from: u64,
    to: u64,
    id: u32,
)
    requires
        tree::valid(st),
        a.len() > 0,
        b.len() > 0,
        path::slash_free(a.last()),
        path::slash_free(b.last()),
        tree::find(st, a.drop_last(), true) == Ok::<Option<u64>, Error>(Some(from)),
        tree::find(st, b.drop_last(), true) == Ok::<Option<u64>, Error>(Some(to)),
        st.nodes.contains_key(from),
        st.nodes.contains_key(to),
    ensures
        none_named(st, from, a.last()) ==> ops::renamed(st, a, b) == (
            st,
            Err::<(), Error>(Error::FileNotFound),
        ),
        named_child(st, from, a.last(), id as u64) ==> {
            let z = ops::renamed(st, a, b).0;
            let left = st.nodes[from].childs.filter(|c: u32| c != id);
            &&& ops::renamed(st, a, b).1 is Ok
            &&& z.nodes.dom() == st.nodes.dom()
            &&& z.next_id == st.next_id
            &&& z.nodes[id as u64].file.name == b.last()
            &&& z.nodes[id as u64].file.kind == st.nodes[id as u64].file.kind
            &&& z.nodes[id as u64].file.size == st.nodes[id as u64].file.size
            &&& z.nodes[id as u64].content == st.nodes[id as u64].content
            &&& id != from && id != to ==> z.nodes[id as u64].childs == st.nodes[id as u64].childs
            &&& from == to ==> z.nodes[to].childs == left.push(id)
            &&& from != to ==> z.nodes[from].childs == left && z.nodes[to].childs
                == st.nodes[to].childs.push(id)
            &&& forall|k: u64| #[trigger]
                st.nodes.contains_key(k) && k != id as u64 && k != from && k != to ==> z.nodes[k]
                    == st.nodes[k]
            &&& from != id ==> z.nodes[from].file == st.nodes[from].file && z.nodes[from].content
                == st.nodes[from].content
            &&& to != id ==> z.nodes[to].file == st.nodes[to].file && z.nodes[to].content
                == st.nodes[to].content
        },
{
    lemma_ends(a);
    lemma_ends(b);
    if none_named(st, from, a.last()) {
        lemma_none(st, from, a.last(), 0);
    }
    if named_child(st, from, a.last(), id as u64) {
        let i = choose|i: int| #[trigger]
            first_named(st, from, a.last(), i) && st.nodes[from].childs[i] == id as u64;
        lemma_first(st, from, a.last(), i, 0);
        lemma_filtered(st.nodes[from].childs, id);
        assert(st.nodes.contains_key(id as u64));
        assert(ops::renamed(st, a, b).0.nodes.dom() =~= st.nodes.dom());
    }
}

} // verus!
