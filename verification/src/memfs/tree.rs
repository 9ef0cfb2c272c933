//! The tree of nodes and the walk down a path.
use vstd::prelude::*;
use crate::bytes::copy_vec;
use crate::error::Error;
use crate::path;
use crate::path::{copy_names, splice_symlink, Path};
use crate::sorted::SortedMap;
use crate::text::string_from_utf8;
use crate::types::{FileKind, MAX_SYMLINK_HOPS};
use super::node;
use super::node::{Node, NodeView};

verus! {

/// A volatile file system.
pub struct Memfs {
    pub nodes: SortedMap<Node>,
    pub next_id: u32,
}

/// A file system seen mathematically: its nodes by number, and the next number.
#[verifier::ext_equal]
pub struct MemState {
    pub nodes: Map<u64, NodeView>,
    pub next_id: u32,
}

/// Nodes seen through their views.
pub open spec fn views(m: Map<u64, Node>) -> Map<u64, NodeView> {
    m.map_values(|n: Node| n@)
}

impl View for Memfs {
    type V = MemState;

    open spec fn view(&self) -> MemState {
        MemState { nodes: views(self.nodes@), next_id: self.next_id }
    }
}

/// Whether node `n` may stand under number `k`: it knows its number, the store reaches
/// to the end of the file, and the root is nobody's child.
pub open spec fn sound(n: NodeView, k: u64) -> bool {
    &&& n.id == k
    &&& node::backed(n)
    &&& forall|i: int| 0 <= i < n.childs.len() ==> #[trigger] n.childs[i] != 0
}

/// What holds of a file system: there is a root, numbers are given out once, and every
/// node is sound.
pub open spec fn valid(st: MemState) -> bool {
    &&& st.next_id >= 1
    &&& st.nodes.contains_key(0)
    &&& st.nodes.dom().finite()
    &&& forall|k: u64| #[trigger]
        st.nodes.contains_key(k) ==> k < st.next_id && sound(st.nodes[k], k)
}

/// The position in `childs`, from `i` on, of the child with the given name.
pub open spec fn child_at(st: MemState, childs: Seq<u32>, name: Seq<char>, i: int) -> Result<
    Option<int>,
    Error,
>
    decreases childs.len() - i,
{
    if i >= childs.len() {
        Ok(None)
    } else if !st.nodes.contains_key(childs[i] as u64) {
        Err(Error::Corrupted)
    } else if st.nodes[childs[i] as u64].file.name == name {
        Ok(Some(i))
    } else {
        child_at(st, childs, name, i + 1)
    }
}

/// The number of the node that the components of `cs` from `k` on lead to, starting at
/// node `at`, after `hops` symbolic links; nothing if there is no such node. A link in
/// the middle is followed, one at the end if `follow` is set; either starts over at the
/// root with its target spliced in.
pub open spec fn walk(
    st: MemState,
    cs: Seq<Seq<char>>,
    follow: bool,
    hops: int,
    k: int,
    at: u64,
) -> Result<Option<u64>, Error>
    decreases MAX_SYMLINK_HOPS - hops, cs.len() - k,
{
    if k >= cs.len() {
        Ok(Some(at))
    } else {
        let childs = st.nodes[at].childs;
        match child_at(st, childs, cs[k], 0) {
            Err(e) => Err(e),
            Ok(None) => Ok(None),
            Ok(Some(i)) => {
                let id = childs[i] as u64;
                let n = st.nodes[id];
                if n.file.kind == FileKind::Symlink && (k + 1 < cs.len() || follow) {
                    if hops >= MAX_SYMLINK_HOPS {
                        Err(Error::TooManyLinks)
                    } else if !vstd::utf8::valid_utf8(n.content) {
                        Err(Error::Corrupted)
                    } else {
                        walk(
                            st,
                            path::spliced(
                                cs.take(k),
                                vstd::utf8::decode_utf8(n.content),
                                cs.skip(k + 1),
                            ),
                            follow,
                            hops + 1,
                            0,
                            0,
                        )
                    }
                } else {
                    walk(st, cs, follow, hops, k + 1, id)
                }
            },
        }
    }
}

/// The number of the node a path leads to.
#[verifier::opaque]
pub open spec fn find(st: MemState, cs: Seq<Seq<char>>, follow: bool) -> Result<
    Option<u64>,
    Error,
> {
    walk(st, cs, follow, 0, 0, 0)
}

/// The node a path leads to, which has to be there.
pub open spec fn resolve(st: MemState, cs: Seq<Seq<char>>, follow: bool) -> Result<u64, Error> {
    match find(st, cs, follow) {
        Err(e) => Err(e),
        Ok(None) => Err(Error::FileNotFound),
        Ok(Some(id)) => if st.nodes.contains_key(id) {
            Ok(id)
        } else {
            Err(Error::Corrupted)
        },
    }
}

/// All nodes below node `id`, each followed by those below it. A tree deeper than
/// `fuel` is damaged.
pub open spec fn below(st: MemState, id: u64, fuel: nat) -> Result<Seq<u64>, Error>
    decreases fuel, 1int, 0int,
{
    if !st.nodes.contains_key(id) || fuel == 0 {
        Err(Error::Corrupted)
    } else {
        below_all(st, st.nodes[id].childs, 0, fuel)
    }
}

/// The children from `i` on, each followed by the nodes below it.
pub open spec fn below_all(st: MemState, childs: Seq<u32>, i: int, fuel: nat) -> Result<
    Seq<u64>,
    Error,
>
    decreases fuel, 0int, childs.len() - i,
{
    if i >= childs.len() || fuel == 0 {
        Ok(Seq::empty())
    } else {
        match below(st, childs[i] as u64, (fuel - 1) as nat) {
            Err(e) => Err(e),
            Ok(sub) => put_before(
                seq![childs[i] as u64] + sub,
                below_all(st, childs, i + 1, fuel),
            ),
        }
    }
}

/// `done` followed by what comes after it.
pub open spec fn put_before(done: Seq<u64>, rest: Result<Seq<u64>, Error>) -> Result<
    Seq<u64>,
    Error,
> {
    match rest {
        Err(e) => Err(e),
        Ok(s) => Ok(done + s),
    }
}

proof fn lemma_put(a: Seq<u64>, b: Seq<u64>, rest: Result<Seq<u64>, Error>)
    ensures
        put_before(a, put_before(b, rest)) == put_before(a + b, rest),
{
    match rest {
        Err(_) => {},
        Ok(s) => {
            assert(a + (b + s) =~= (a + b) + s);
        },
    }
}

/// What is found below a node is never the root.
pub proof fn root_is_below_nothing(st: MemState, id: u64, fuel: nat)
    requires
        valid(st),
    ensures
        below(st, id, fuel) matches Ok(s) ==> !s.contains(0),
    decreases fuel, 1int, 0int,
{
    if st.nodes.contains_key(id) && fuel > 0 {
        lemma_below_all(st, st.nodes[id].childs, 0, fuel);
    }
}

proof fn lemma_below_all(st: MemState, childs: Seq<u32>, i: int, fuel: nat)
    requires
        valid(st),
        i >= 0,
        forall|j: int| 0 <= j < childs.len() ==> #[trigger] childs[j] != 0,
    ensures
        below_all(st, childs, i, fuel) matches Ok(s) ==> !s.contains(0),
    decreases fuel, 0int, childs.len() - i,
{
    if i < childs.len() && fuel > 0 {
        root_is_below_nothing(st, childs[i] as u64, (fuel - 1) as nat);
        lemma_below_all(st, childs, i + 1, fuel);
        assert(childs[i] != 0);
    }
}

/// Whether node `k` is a child of node `p`.
pub open spec fn child_of(st: MemState, k: u64, p: u64) -> bool {
    exists|j: int| 0 <= j < st.nodes[p].childs.len() && #[trigger] st.nodes[p].childs[j] == k
}

/// Whether `s` holds every child of the nodes in it.
spec fn closed_downwards(st: MemState, s: Seq<u64>) -> bool {
    forall|k: u64, p: u64| s.contains(p) && #[trigger] child_of(st, k, p) ==> s.contains(k)
}

/// Whether every node in `s` is there and is one of `tops` or a child of a node in `s`.
spec fn hangs_from(st: MemState, s: Seq<u64>, tops: Set<u64>) -> bool {
    forall|k: u64| #[trigger]
        s.contains(k) ==> st.nodes.contains_key(k) && (tops.contains(k) || exists|p: u64|
            s.contains(p) && #[trigger] child_of(st, k, p))
}

/// The children from `i` on.
spec fn tops(childs: Seq<u32>, i: int) -> Set<u64> {
    Set::new(|k: u64| exists|j: int| i <= j < childs.len() && #[trigger] childs[j] == k)
}

proof fn lemma_below(st: MemState, id: u64, fuel: nat)
    ensures
        below(st, id, fuel) matches Ok(s) ==> st.nodes.contains_key(id) && closed_downwards(st, s)
            && hangs_from(st, s, tops(st.nodes[id].childs, 0)) && forall|k: u64| #[trigger]
            child_of(st, k, id) ==> s.contains(k),
    decreases fuel, 1int, 0int,
{
    if st.nodes.contains_key(id) && fuel > 0 {
        let childs = st.nodes[id].childs;
        lemma_all_below(st, childs, 0, fuel);
        if below(st, id, fuel) is Ok {
            let s = below(st, id, fuel)->Ok_0;
            assert forall|k: u64| #[trigger] child_of(st, k, id) implies s.contains(k) by {
                let j = choose|j: int|
                    0 <= j < st.nodes[id].childs.len() && #[trigger] st.nodes[id].childs[j] == k;
                assert(s.contains(childs[j] as u64));
            }
        }
    }
}

proof fn lemma_all_below(st: MemState, childs: Seq<u32>, i: int, fuel: nat)
    requires
        0 <= i,
        fuel > 0,
    ensures
        below_all(st, childs, i, fuel) matches Ok(s) ==> closed_downwards(st, s) && hangs_from(
            st,
            s,
            tops(childs, i),
        ) && forall|j: int| i <= j < childs.len() ==> s.contains(#[trigger] childs[j] as u64),
    decreases fuel, 0int, childs.len() - i,
{
    if i < childs.len() {
        let c = childs[i] as u64;
        lemma_below(st, c, (fuel - 1) as nat);
        lemma_all_below(st, childs, i + 1, fuel);
        if below_all(st, childs, i, fuel) is Ok {
            let sub = below(st, c, (fuel - 1) as nat)->Ok_0;
            let rest = below_all(st, childs, i + 1, fuel)->Ok_0;
            let s = below_all(st, childs, i, fuel)->Ok_0;
            assert(s == seq![c] + sub + rest);
            assert forall|k: u64| #[trigger] s.contains(k) <==> k == c || sub.contains(k)
                || rest.contains(k) by {
                assert(s[0] == c);
                if sub.contains(k) {
                    let j = choose|j: int| 0 <= j < sub.len() && sub[j] == k;
                    assert(s[j + 1] == k);
                }
                if rest.contains(k) {
                    let j = choose|j: int| 0 <= j < rest.len() && rest[j] == k;
                    assert(s[j + 1 + sub.len()] == k);
                }
                if s.contains(k) && k != c && !rest.contains(k) {
                    let j = choose|j: int| 0 <= j < s.len() && s[j] == k;
                    if j >= 1 + sub.len() {
                        assert(rest[j - 1 - sub.len()] == k);
                    }
                    assert(sub[j - 1] == k);
                }
            }
            assert forall|k: u64, p: u64|
                s.contains(p) && #[trigger] child_of(st, k, p) implies s.contains(k) by {}
            assert forall|k: u64| #[trigger] s.contains(k) implies st.nodes.contains_key(k) && (
            tops(childs, i).contains(k) || exists|p: u64|
                s.contains(p) && #[trigger] child_of(st, k, p)) by {
                if k == c {
                    assert(childs[i] == k);
                } else if sub.contains(k) {
                    if tops(st.nodes[c].childs, 0).contains(k) {
                        assert(child_of(st, k, c));
                    }
                } else if tops(childs, i + 1).contains(k) {
                    let j = choose|j: int| i + 1 <= j < childs.len() && #[trigger] childs[j] == k;
                    assert(tops(childs, i).contains(k));
                }
            }
        }
    }
}

/// What is below a node are its children and, of each node below it, the children: all of
/// them, and nothing that does not hang there.
pub proof fn everything_below_is_found(st: MemState, id: u64, fuel: nat, k: u64, p: u64)
    requires
        valid(st),
    ensures
        below(st, id, fuel) matches Ok(s) ==> (child_of(st, k, id) ==> s.contains(k)) && (
        s.contains(p) && child_of(st, k, p) ==> s.contains(k)) && (s.contains(k)
            ==> st.nodes.contains_key(k) && (child_of(st, k, id) || exists|q: u64|
            s.contains(q) && #[trigger] child_of(st, k, q))),
{
    lemma_below(st, id, fuel);
    if below(st, id, fuel) is Ok {
        let s = below(st, id, fuel)->Ok_0;
        if s.contains(k) && tops(st.nodes[id].childs, 0).contains(k) {
            let j = choose|j: int|
                0 <= j < st.nodes[id].childs.len() && #[trigger] st.nodes[id].childs[j] == k;
            assert(child_of(st, k, id));
        }
    }
}

impl Memfs {
    /// What holds between operations.
    pub open spec fn wf(&self) -> bool {
        valid(self@)
    }

    /// Node `id`.
    pub fn get_node(&self, id: u64) -> (r: Result<&Node, Error>)
        ensures
            match r {
                Ok(n) => self@.nodes.contains_key(id) && n@ == self@.nodes[id],
                Err(e) => e == Error::Corrupted && !self@.nodes.contains_key(id),
            },
    {
        match self.nodes.get(id) {
            Some(n) => Ok(n),
            None => Err(Error::Corrupted),
        }
    }

    /// Takes node `id` out, to be changed and put back.
    pub(crate) fn take_node(&mut self, id: u64) -> (r: Option<Node>)
        ensures
            final(self)@ == (MemState { nodes: old(self)@.nodes.remove(id), ..old(self)@ }),
            match r {
                Some(n) => old(self)@.nodes.contains_key(id) && n@ == old(self)@.nodes[id],
                None => !old(self)@.nodes.contains_key(id) && final(self)@ == old(self)@,
            },
    {
        let r = self.nodes.remove(id);
        assert(self@ =~= (MemState { nodes: old(self)@.nodes.remove(id), ..old(self)@ }));
        if r.is_none() {
            assert(self@ =~= old(self)@);
        }
        r
    }

    /// Puts a node under number `id`.
    pub(crate) fn put_node(&mut self, id: u64, n: Node)
        ensures
            final(self)@ == (MemState { nodes: old(self)@.nodes.insert(id, n@), ..old(self)@ }),
    {
        self.nodes.insert(id, n);
        assert(self@ =~= (MemState { nodes: old(self)@.nodes.insert(id, n@), ..old(self)@ }));
    }

    /// The position in a node's children of the one with the given name.
    pub(crate) fn find_child(&self, childs: &Vec<u32>, name: &String) -> (r: Result<
        Option<usize>,
        Error,
    >)
        ensures
            match r {
                Ok(Some(i)) => child_at(self@, childs@, name@, 0) == Ok::<Option<int>, Error>(
                    Some(i as int),
                ) && i < childs@.len() && self@.nodes.contains_key(childs@[i as int] as u64),
                Ok(None) => child_at(self@, childs@, name@, 0) == Ok::<Option<int>, Error>(None),
                Err(e) => child_at(self@, childs@, name@, 0) == Err::<Option<int>, Error>(e),
            },
    {
        let mut i: usize = 0;
        while i < childs.len()
            invariant
                i <= childs@.len(),
                child_at(self@, childs@, name@, 0) == child_at(self@, childs@, name@, i as int),
            decreases childs@.len() - i,
        {
            match self.get_node(childs[i] as u64) {
                Err(e) => {
                    return Err(e);
                },
                Ok(n) => {
                    if n.file.name == *name {
                        return Ok(Some(i));
                    }
                },
            }
            i = i + 1;
        }
        Ok(None)
    }

    /// The node a path leads to, links followed, one at the end only if `follow` is set.
    pub fn walk(&self, p: &Path, follow: bool) -> (r: Result<Option<u64>, Error>)
        requires
            self.wf(),
        ensures
            r == find(self@, p@, follow),
            r matches Ok(Some(id)) ==> self@.nodes.contains_key(id),
    {
        proof {
            reveal(find);
        }
        let comps = p.components();
        let mut cs = copy_names(comps, 0, comps.len());
        assert(path::names(cs@) =~= p@);
        let mut hops: u32 = 0;
        let mut k: usize = 0;
        let mut at: u64 = 0;
        while k < cs.len()
            invariant
                self.wf(),
                hops <= MAX_SYMLINK_HOPS,
                k <= cs@.len(),
                self@.nodes.contains_key(at),
                find(self@, p@, follow) == walk(
                    self@,
                    path::names(cs@),
                    follow,
                    hops as int,
                    k as int,
                    at,
                ),
            decreases MAX_SYMLINK_HOPS - hops, cs@.len() - k,
        {
            let ghost names = path::names(cs@);
            assert(names[k as int] == cs@[k as int]@);
            let n = match self.get_node(at) {
                Ok(n) => n,
                Err(e) => {
                    return Err(e);
                },
            };
            let i: usize = match self.find_child(&n.childs, &cs[k]) {
                Err(e) => {
                    return Err(e);
                },
                Ok(None) => {
                    return Ok(None);
                },
                Ok(Some(i)) => i,
            };
            let id: u64 = n.childs[i] as u64;
            let child = match self.get_node(id) {
                Ok(c) => c,
                Err(e) => {
                    return Err(e);
                },
            };
            if child.file.kind == FileKind::Symlink && (k + 1 < cs.len() || follow) {
                if hops >= MAX_SYMLINK_HOPS {
                    return Err(Error::TooManyLinks);
                }
                let target = match string_from_utf8(copy_vec(child.content.as_slice())) {
                    Some(t) => t,
                    None => {
                        return Err(Error::Corrupted);
                    },
                };
                let front = copy_names(cs.as_slice(), 0, k);
                let rest = copy_names(cs.as_slice(), k + 1, cs.len());
                proof {
                    assert(path::names(front@) =~= names.take(k as int));
                    assert(path::names(rest@) =~= names.skip(k + 1));
                }
                cs = splice_symlink(front.as_slice(), target.as_str(), rest.as_slice());
                hops = hops + 1;
                k = 0;
                at = 0;
            } else {
                at = id;
                k = k + 1;
            }
        }
        Ok(Some(at))
    }

    /// The node a path leads to, which has to be there.
    pub fn find_node(&self, p: &Path) -> (r: Result<u64, Error>)
        requires
            self.wf(),
        ensures
            r == resolve(self@, p@, true),
            r matches Ok(id) ==> self@.nodes.contains_key(id),
    {
        match self.walk(p, true) {
            Ok(Some(id)) => Ok(id),
            Ok(None) => Err(Error::FileNotFound),
            Err(e) => Err(e),
        }
    }

    /// The node a path leads to, a link at the end left unfollowed.
    pub fn find_node_nofollow(&self, p: &Path) -> (r: Result<u64, Error>)
        requires
            self.wf(),
        ensures
            r == resolve(self@, p@, false),
            r matches Ok(id) ==> self@.nodes.contains_key(id),
    {
        match self.walk(p, false) {
            Ok(Some(id)) => Ok(id),
            Ok(None) => Err(Error::FileNotFound),
            Err(e) => Err(e),
        }
    }

    /// All nodes below node `id`.
    pub fn get_all_child_ids(&self, id: u64, fuel: usize) -> (r: Result<Vec<u64>, Error>)
        ensures
            match r {
                Ok(v) => below(self@, id, fuel as nat) == Ok::<Seq<u64>, Error>(v@),
                Err(e) => below(self@, id, fuel as nat) == Err::<Seq<u64>, Error>(e),
            },
        decreases fuel,
    {
        let n = match self.get_node(id) {
            Ok(n) => n,
            Err(e) => {
                return Err(e);
            },
        };
        if fuel == 0 {
            return Err(Error::Corrupted);
        }
        let mut out: Vec<u64> = Vec::new();
        let mut i: usize = 0;
        proof {
            lemma_put_nothing(below_all(self@, n@.childs, 0, fuel as nat));
            assert(out@ =~= Seq::empty());
        }
        while i < n.childs.len()
            invariant
                i <= n.childs@.len(),
                fuel > 0,
                below(self@, id, fuel as nat) == put_before(
                    out@,
                    below_all(self@, n.childs@, i as int, fuel as nat),
                ),
            decreases n.childs@.len() - i,
        {
            let c: u64 = n.childs[i] as u64;
            let ghost before = out@;
            let mut sub = match self.get_all_child_ids(c, fuel - 1) {
                Ok(s) => s,
                Err(e) => {
                    return Err(e);
                },
            };
            let ghost s = sub@;
            out.push(c);
            out.append(&mut sub);
            i = i + 1;
            proof {
                let rest = below_all(self@, n.childs@, i as int, fuel as nat);
                lemma_put(before, seq![c] + s, rest);
                assert(out@ =~= before + (seq![c] + s));
            }
        }
        proof {
            assert(out@ + Seq::<u64>::empty() =~= out@);
        }
        Ok(out)
    }
}

proof fn lemma_put_nothing(rest: Result<Seq<u64>, Error>)
    ensures
        put_before(Seq::empty(), rest) == rest,
{
    match rest {
        Err(_) => {},
        Ok(s) => {
            assert(Seq::<u64>::empty() + s =~= s);
        },
    }
}

} // verus!
