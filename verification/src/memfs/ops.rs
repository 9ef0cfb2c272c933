//! What the file system does.
use vstd::prelude::*;
use crate::bytes;
use crate::bytes::{copy_vec, zero_vec};
use crate::error::Error;
use crate::filesystem::FileSystem;
use crate::page_cache;
use crate::page_cache::{BulkSteps, DirtyPage, PageCacheOps, PageSteps};
use crate::path;
use crate::path::Path;
use crate::sorted::SortedMap;
use crate::text::string_from_utf8;
use crate::types;
use crate::types::{File, FileKind, FileTime, FileView, StatFs};
use super::node;
use super::node::{Node, NodeView};
use super::tree;
use super::tree::{MemState, Memfs};

verus! {

// ---- What the operations do ---------------------------------------------------------

/// The state with node `id` replaced, or the reason why it is not.
pub open spec fn updated(st: MemState, id: u64, r: Result<NodeView, Error>) -> (
    MemState,
    Result<(), Error>,
) {
    match r {
        Err(e) => (st, Err(e)),
        Ok(n) => (MemState { nodes: st.nodes.insert(id, n), ..st }, Ok(())),
    }
}

/// The last component of a path.
pub open spec fn last_name(cs: Seq<Seq<char>>) -> Seq<char> {
    if path::root_path(cs) {
        Seq::empty()
    } else {
        cs.last()
    }
}

/// The files that the children from `i` on are.
pub open spec fn child_files(st: MemState, childs: Seq<u32>, i: int) -> Result<Seq<FileView>, Error>
    decreases childs.len() - i,
{
    if i >= childs.len() {
        Ok(Seq::empty())
    } else if !st.nodes.contains_key(childs[i] as u64) {
        Err(Error::Corrupted)
    } else {
        after(seq![st.nodes[childs[i] as u64].file], child_files(st, childs, i + 1))
    }
}

/// `done` followed by what comes after it.
pub open spec fn after(done: Seq<FileView>, rest: Result<Seq<FileView>, Error>) -> Result<
    Seq<FileView>,
    Error,
> {
    match rest {
        Err(e) => Err(e),
        Ok(s) => Ok(done + s),
    }
}

/// What a directory holds.
pub open spec fn listed(st: MemState, cs: Seq<Seq<char>>) -> Result<Seq<FileView>, Error> {
    match tree::resolve(st, cs, true) {
        Err(e) => Err(e),
        Ok(id) => if st.nodes[id].file.kind != FileKind::Directory {
            Err(Error::NotADir)
        } else {
            child_files(st, st.nodes[id].childs, 0)
        },
    }
}

/// Up to `count` bytes at `offset` of node `id`.
pub open spec fn read_node(st: MemState, id: u64, offset: int, count: int) -> Result<
    Seq<u8>,
    Error,
> {
    if !st.nodes.contains_key(id) {
        Err(Error::Corrupted)
    } else {
        node::read(st.nodes[id], offset, count)
    }
}

/// `d` written at `offset` of node `id`.
pub open spec fn write_node(st: MemState, id: u64, offset: int, d: Seq<u8>) -> (
    MemState,
    Result<u64, Error>,
) {
    if !st.nodes.contains_key(id) {
        (st, Err(Error::Corrupted))
    } else {
        match updated(st, id, node::written(st.nodes[id], offset, d)) {
            (s, Err(e)) => (s, Err(e)),
            (s, Ok(_)) => (s, Ok(d.len() as u64)),
        }
    }
}

/// Node `n` added as the last child of node `parent`.
pub open spec fn adopted(st: MemState, parent: u64, n: NodeView) -> MemState {
    let p = st.nodes[parent];
    MemState {
        nodes: st.nodes.insert(
            parent,
            NodeView { childs: p.childs.push(n.id), ..p },
        ).insert(n.id as u64, n),
        next_id: (st.next_id + 1) as u32,
    }
}

/// An empty file or directory made at a path. Nothing looks whether the name is taken.
pub open spec fn created(st: MemState, cs: Seq<Seq<char>>, kind: FileKind, now: u64) -> (
    MemState,
    Result<(), Error>,
) {
    if cs.len() == 0 {
        (st, Err(Error::IoError))
    } else {
        match tree::resolve(st, cs.drop_last(), true) {
            Err(e) => (st, Err(e)),
            Ok(parent) => if st.next_id == u32::MAX || st.nodes[parent].file.kind
                != FileKind::Directory {
                (st, Err(Error::IoError))
            } else {
                (
                    adopted(st, parent, node::fresh(st.next_id, last_name(cs), kind, now)),
                    Ok(()),
                )
            },
        }
    }
}

/// A symbolic link holding `target`.
pub open spec fn link_node(id: u32, name: Seq<char>, target: Seq<char>, now: u64) -> NodeView {
    let n = node::fresh(id, name, FileKind::Symlink, now);
    let t = vstd::utf8::encode_utf8(target);
    NodeView { content: t, file: FileView { size: t.len() as u64, ..n.file }, ..n }
}

/// A symbolic link made at a path that leads to nothing yet.
pub open spec fn linked(st: MemState, target: Seq<char>, cs: Seq<Seq<char>>, now: u64) -> (
    MemState,
    Result<(), Error>,
) {
    if target.len() == 0 || cs.len() == 0 {
        (st, Err(Error::InvalidArgument))
    } else {
        match tree::resolve(st, cs.drop_last(), true) {
            Err(e) => (st, Err(e)),
            Ok(parent) => if st.nodes[parent].file.kind != FileKind::Directory {
                (st, Err(Error::NotADir))
            } else {
                match tree::find(st, cs, false) {
                    Err(e) => (st, Err(e)),
                    Ok(Some(_)) => (st, Err(Error::InvalidArgument)),
                    Ok(None) => if st.next_id == u32::MAX {
                        (st, Err(Error::IoError))
                    } else {
                        (
                            adopted(st, parent, link_node(st.next_id, last_name(cs), target, now)),
                            Ok(()),
                        )
                    },
                }
            },
        }
    }
}

/// The target of a symbolic link.
pub open spec fn link_target(st: MemState, cs: Seq<Seq<char>>) -> Result<Seq<char>, Error> {
    match tree::resolve(st, cs, false) {
        Err(e) => Err(e),
        Ok(id) => {
            let n = st.nodes[id];
            if n.file.kind != FileKind::Symlink {
                Err(Error::InvalidArgument)
            } else if !vstd::utf8::valid_utf8(n.content) {
                Err(Error::Corrupted)
            } else {
                Ok(vstd::utf8::decode_utf8(n.content))
            }
        },
    }
}

/// Where a path's last component stands: its directory and its position there.
pub open spec fn placed(st: MemState, cs: Seq<Seq<char>>) -> Result<(u64, int), Error> {
    if path::root_path(cs) {
        Err(Error::IoError)
    } else {
        match tree::resolve(st, cs.drop_last(), true) {
            Err(e) => Err(e),
            Ok(parent) => if st.nodes[parent].file.kind != FileKind::Directory {
                Err(Error::IoError)
            } else {
                match tree::child_at(st, st.nodes[parent].childs, last_name(cs), 0) {
                    Err(e) => Err(e),
                    Ok(None) => Err(Error::FileNotFound),
                    Ok(Some(i)) => Ok((parent, i)),
                }
            },
        }
    }
}

/// The state with child `i` of node `parent` detached.
pub open spec fn detached(st: MemState, parent: u64, i: int) -> MemState {
    let p = st.nodes[parent];
    MemState {
        nodes: st.nodes.insert(parent, NodeView { childs: p.childs.remove(i), ..p }),
        ..st
    }
}

/// A directory removed with everything below it.
pub open spec fn dir_removed(st: MemState, cs: Seq<Seq<char>>) -> (MemState, Result<(), Error>) {
    match placed(st, cs) {
        Err(e) => (st, Err(e)),
        Ok((parent, i)) => {
            let id = st.nodes[parent].childs[i] as u64;
            if st.nodes[id].file.kind != FileKind::Directory {
                (st, Err(Error::NotADir))
            } else {
                match tree::below(st, id, st.nodes.dom().len()) {
                    Err(e) => (st, Err(e)),
                    Ok(ids) => (
                        MemState {
                            nodes: detached(st, parent, i).nodes.remove(id).remove_keys(
                                ids.to_set(),
                            ),
                            ..st
                        },
                        Ok(()),
                    ),
                }
            }
        },
    }
}

/// A file or link detached from its directory. The node stays, for those who hold it by
/// number.
pub open spec fn file_removed(st: MemState, cs: Seq<Seq<char>>) -> (MemState, Result<(), Error>) {
    match placed(st, cs) {
        Err(e) => (st, Err(e)),
        Ok((parent, i)) => {
            let k = st.nodes[st.nodes[parent].childs[i] as u64].file.kind;
            if k != FileKind::File && k != FileKind::Symlink {
                (st, Err(Error::NotAFile))
            } else {
                (detached(st, parent, i), Ok(()))
            }
        },
    }
}

/// `childs` without `id`.
pub open spec fn without(childs: Seq<u32>, id: u32) -> Seq<u32>
    decreases childs.len(),
{
    if childs.len() == 0 {
        Seq::empty()
    } else if childs.last() == id {
        without(childs.drop_last(), id)
    } else {
        without(childs.drop_last(), id).push(childs.last())
    }
}

/// Node `id` moved from directory `from` to directory `to`, under the name `name`.
pub open spec fn moved(st: MemState, id: u32, from: u64, to: u64, name: Seq<char>) -> MemState {
    let p = st.nodes[from];
    let m1 = st.nodes.insert(from, NodeView { childs: without(p.childs, id), ..p });
    let n = m1[id as u64];
    let m2 = m1.insert(id as u64, NodeView { file: FileView { name, ..n.file }, ..n });
    let q = m2[to];
    MemState { nodes: m2.insert(to, NodeView { childs: q.childs.push(id), ..q }), ..st }
}

/// A node given another path.
pub open spec fn renamed(st: MemState, a: Seq<Seq<char>>, b: Seq<Seq<char>>) -> (
    MemState,
    Result<(), Error>,
) {
    if path::root_path(a) || path::root_path(b) {
        (st, Err(Error::IoError))
    } else {
        match (
            tree::resolve(st, a.drop_last(), true),
            tree::resolve(st, b.drop_last(), true),
        ) {
            (Err(e), _) => (st, Err(e)),
            (_, Err(e)) => (st, Err(e)),
            (Ok(from), Ok(to)) => match tree::child_at(
                st,
                st.nodes[from].childs,
                last_name(a),
                0,
            ) {
                Err(e) => (st, Err(e)),
                Ok(None) => (st, Err(Error::FileNotFound)),
                Ok(Some(i)) => (
                    moved(st, st.nodes[from].childs[i], from, to, last_name(b)),
                    Ok(()),
                ),
            },
        }
    }
}

/// A node with its times set.
pub open spec fn stamped(n: NodeView, atime: Option<u64>, mtime: Option<u64>) -> NodeView {
    NodeView {
        file: FileView {
            accessed: match atime {
                Some(s) => Some(types::file_time_of(s)),
                None => n.file.accessed,
            },
            modified: match mtime {
                Some(s) => Some(types::file_time_of(s)),
                None => n.file.modified,
            },
            ..n.file
        },
        ..n
    }
}

/// Page `index` of node `id` stored.
pub open spec fn page_flushed(st: MemState, id: u64, index: int, d: Seq<u8>) -> (
    MemState,
    Result<(), Error>,
) {
    if !st.nodes.contains_key(id) {
        (st, Err(Error::Corrupted))
    } else {
        updated(st, id, node::page_stored(st.nodes[id], index, d))
    }
}

/// Node `id` grown to `size` bytes.
pub open spec fn size_raised(st: MemState, id: u64, size: u64) -> (MemState, Result<(), Error>) {
    if !st.nodes.contains_key(id) {
        (st, Err(Error::Corrupted))
    } else {
        updated(st, id, node::raised(st.nodes[id], size))
    }
}

/// The label of every such file system: `tmp`, then zeros.
pub open spec fn label() -> Seq<u8> {
    seq![116u8, 109u8, 112u8] + bytes::zeros(61)
}

// ---- Doing it -----------------------------------------------------------------------

impl Memfs {
    /// An empty file system.
    pub fn new(now: u64) -> (r: Memfs)
        ensures
            r.wf(),
            r@ == (MemState {
                nodes: map![
                    0u64 => node::fresh(0, Seq::empty(), FileKind::Directory, now),
                ],
                next_id: 1,
            }),
    {
        let name = String::new();
        let root = Node::new(0, name, FileKind::Directory, now);
        let mut r = Memfs { nodes: SortedMap::new(), next_id: 1 };
        assert(r@.nodes =~= Map::empty());
        r.put_node(0, root);
        assert(name@ =~= Seq::empty());
        assert(r@.nodes =~= map![
            0u64 => node::fresh(0, Seq::empty(), FileKind::Directory, now),
        ]);
        r
    }

    /// Adds node `n` as the last child of node `parent`.
    fn adopt(&mut self, parent: u64, n: Node)
        requires
            old(self).wf(),
            old(self)@.nodes.contains_key(parent),
            n@.id == old(self)@.next_id,
            old(self)@.next_id < u32::MAX,
            n@.childs.len() == 0,
            node::backed(n@),
        ensures
            final(self).wf(),
            final(self)@ == adopted(old(self)@, parent, n@),
    {
        let id: u32 = n.id;
        match self.take_node(parent) {
            Some(p) => {
                let mut q = p;
                q.childs.push(id);
                assert(q@ =~= (NodeView { childs: p@.childs.push(id), ..p@ }));
                self.put_node(parent, q);
            },
            None => {},
        }
        self.put_node(id as u64, n);
        self.next_id = self.next_id + 1;
        proof {
            let st = old(self)@;
            let p = st.nodes[parent];
            assert(tree::sound(p, parent));
            assert(self@ =~= adopted(st, parent, n@));
            assert(tree::sound(NodeView { childs: p.childs.push(id), ..p }, parent));
        }
    }

    /// Makes an empty file or directory.
    fn create(&mut self, path: &Path, kind: FileKind, now: u64) -> (r: Result<(), Error>)
        requires
            old(self).wf(),
        ensures
            final(self).wf(),
            (final(self)@, r) == created(old(self)@, path::normalized(path@), kind, now),
    {
        let p = path.normalize();
        let parent = match p.parent() {
            Some(q) => q,
            None => {
                return Err(Error::IoError);
            },
        };
        let at: u64 = match self.find_node(&parent) {
            Ok(id) => id,
            Err(e) => {
                return Err(e);
            },
        };
        if self.next_id == u32::MAX {
            return Err(Error::IoError);
        }
        match self.get_node(at) {
            Ok(n) => {
                if n.file.kind != FileKind::Directory {
                    return Err(Error::IoError);
                }
            },
            Err(e) => {
                return Err(e);
            },
        }
        let n = Node::new(self.next_id, p.filename(), kind, now);
        self.adopt(at, n);
        Ok(())
    }

    /// Where a path's last component stands.
    fn place(&self, p: &Path) -> (r: Result<(u64, usize), Error>)
        requires
            self.wf(),
        ensures
            match r {
                Ok((parent, i)) => placed(self@, p@) == Ok::<(u64, int), Error>(
                    (parent, i as int),
                ) && self@.nodes.contains_key(parent) && i < self@.nodes[parent].childs.len()
                    && self@.nodes.contains_key(self@.nodes[parent].childs[i as int] as u64),
                Err(e) => placed(self@, p@) == Err::<(u64, int), Error>(e),
            },
    {
        if p.is_root() {
            return Err(Error::IoError);
        }
        let parent = match p.parent() {
            Some(q) => q,
            None => {
                return Err(Error::IoError);
            },
        };
        let at: u64 = match self.find_node(&parent) {
            Ok(id) => id,
            Err(e) => {
                return Err(e);
            },
        };
        match self.get_node(at) {
            Ok(n) => {
                if n.file.kind != FileKind::Directory {
                    return Err(Error::IoError);
                }
                match self.find_child(&n.childs, &p.filename()) {
                    Ok(Some(i)) => Ok((at, i)),
                    Ok(None) => Err(Error::FileNotFound),
                    Err(e) => Err(e),
                }
            },
            Err(e) => Err(e),
        }
    }

    /// Detaches child `i` of node `parent`.
    fn detach(&mut self, parent: u64, i: usize)
        requires
            old(self).wf(),
            old(self)@.nodes.contains_key(parent),
            i < old(self)@.nodes[parent].childs.len(),
        ensures
            final(self).wf(),
            final(self)@ == detached(old(self)@, parent, i as int),
    {
        match self.take_node(parent) {
            Some(p) => {
                let mut q = p;
                q.childs.remove(i);
                proof {
                    assert(tree::sound(p@, parent));
                    assert(q@ =~= (NodeView { childs: p@.childs.remove(i as int), ..p@ }));
                    assert(tree::sound(q@, parent)) by {
                        assert forall|j: int| 0 <= j < q@.childs.len() implies #[trigger]
                            q@.childs[j] != 0 by {
                            if j < i {
                                assert(q@.childs[j] == p@.childs[j]);
                            } else {
                                assert(q@.childs[j] == p@.childs[j + 1]);
                            }
                        }
                    }
                }
                self.put_node(parent, q);
                assert(self@ =~= detached(old(self)@, parent, i as int));
            },
            None => {},
        }
    }
}

/// Putting a changed node back changes that node alone.
proof fn lemma_back(st: MemState, id: u64, n: NodeView)
    requires
        tree::valid(st),
        st.nodes.contains_key(id),
    ensures
        st.nodes.remove(id).insert(id, n) == st.nodes.insert(id, n),
        st.nodes.insert(id, st.nodes[id]) == st.nodes,
        tree::sound(n, id) ==> tree::valid(
            MemState { nodes: st.nodes.insert(id, n), ..st },
        ),
        tree::sound(st.nodes[id], id),
{
    assert(st.nodes.remove(id).insert(id, n) =~= st.nodes.insert(id, n));
    assert(st.nodes.insert(id, st.nodes[id]) =~= st.nodes);
}

impl Memfs {
    /// Writes `d` at `offset` of node `id`.
    fn write_to(&mut self, id: u64, offset: usize, d: &[u8]) -> (r: Result<u64, Error>)
        requires
            old(self).wf(),
        ensures
            final(self).wf(),
            (final(self)@, r) == write_node(old(self)@, id, offset as int, d@),
    {
        let ghost st = self@;
        let n = match self.take_node(id) {
            Some(n) => n,
            None => {
                return Err(Error::Corrupted);
            },
        };
        let mut m = n;
        proof {
            lemma_back(st, id, n@);
        }
        let r = m.write(offset, d);
        proof {
            lemma_back(st, id, m@);
            if r is Ok {
                node::write_then_read(n@, offset as int, d@);
            }
        }
        self.put_node(id, m);
        match r {
            Ok(_) => Ok(d.len() as u64),
            Err(e) => Err(e),
        }
    }

    /// Gives node `id` another size.
    fn truncate_node(&mut self, id: u64, size: u64) -> (r: Result<(), Error>)
        requires
            old(self).wf(),
            old(self)@.nodes.contains_key(id),
        ensures
            final(self).wf(),
            (final(self)@, r) == updated(
                old(self)@,
                id,
                node::truncated(old(self)@.nodes[id], size),
            ),
    {
        let ghost st = self@;
        let n = match self.take_node(id) {
            Some(n) => n,
            None => {
                return Err(Error::Corrupted);
            },
        };
        let mut m = n;
        proof {
            lemma_back(st, id, n@);
        }
        let r = m.truncate(size);
        proof {
            lemma_back(st, id, m@);
            if r is Ok {
                node::truncate_then_read(n@, size);
            }
        }
        self.put_node(id, m);
        match r {
            Ok(_) => Ok(()),
            Err(e) => Err(e),
        }
    }

    /// The files that a node's children are.
    fn list_childs(&self, childs: &Vec<u32>) -> (r: Result<Vec<File>, Error>)
        ensures
            types::files_of(r) == child_files(self@, childs@, 0),
    {
        let mut out: Vec<File> = Vec::new();
        let mut i: usize = 0;
        proof {
            assert(types::file_views(out@) =~= Seq::empty());
            lemma_after_nothing(child_files(self@, childs@, 0));
        }
        while i < childs.len()
            invariant
                i <= childs@.len(),
                child_files(self@, childs@, 0) == after(
                    types::file_views(out@),
                    child_files(self@, childs@, i as int),
                ),
            decreases childs@.len() - i,
        {
            let ghost before = types::file_views(out@);
            match self.get_node(childs[i] as u64) {
                Ok(n) => {
                    out.push(n.file.duplicate());
                    proof {
                        let f = self@.nodes[childs@[i as int] as u64].file;
                        assert(types::file_views(out@) =~= before + seq![f]);
                        lemma_after(before, seq![f], child_files(self@, childs@, i + 1));
                    }
                },
                Err(e) => {
                    return Err(e);
                },
            }
            i = i + 1;
        }
        assert(types::file_views(out@) + Seq::<FileView>::empty() =~= types::file_views(out@));
        Ok(out)
    }
}

proof fn lemma_after(a: Seq<FileView>, b: Seq<FileView>, rest: Result<Seq<FileView>, Error>)
    ensures
        after(a, after(b, rest)) == after(a + b, rest),
{
    match rest {
        Err(_) => {},
        Ok(s) => {
            assert(a + (b + s) =~= (a + b) + s);
        },
    }
}

proof fn lemma_after_nothing(rest: Result<Seq<FileView>, Error>)
    ensures
        after(Seq::empty(), rest) == rest,
{
    match rest {
        Err(_) => {},
        Ok(s) => {
            assert(Seq::<FileView>::empty() + s =~= s);
        },
    }
}

/// The children other than `id`.
fn drop_child(childs: &Vec<u32>, id: u32) -> (r: Vec<u32>)
    ensures
        r@ == without(childs@, id),
{
    let mut out: Vec<u32> = Vec::new();
    let mut i: usize = 0;
    while i < childs.len()
        invariant
            i <= childs@.len(),
            out@ == without(childs@.take(i as int), id),
        decreases childs@.len() - i,
    {
        proof {
            let t = childs@.take(i + 1);
            assert(t.drop_last() =~= childs@.take(i as int));
            assert(t.last() == childs@[i as int]);
        }
        if childs[i] != id {
            out.push(childs[i]);
        }
        i = i + 1;
    }
    assert(childs@.take(childs@.len() as int) =~= childs@);
    out
}

proof fn lemma_without(childs: Seq<u32>, id: u32)
    requires
        forall|i: int| 0 <= i < childs.len() ==> #[trigger] childs[i] != 0,
    ensures
        forall|i: int| 0 <= i < without(childs, id).len() ==> #[trigger] without(childs, id)[i] != 0,
    decreases childs.len(),
{
    if childs.len() > 0 {
        let t = childs.drop_last();
        assert forall|i: int| 0 <= i < t.len() implies #[trigger] t[i] != 0 by {
            assert(t[i] == childs[i]);
        }
        lemma_without(t, id);
        assert(childs[childs.len() - 1] != 0);
        let w = without(t, id);
        assert forall|i: int| 0 <= i < without(childs, id).len() implies #[trigger] without(
            childs,
            id,
        )[i] != 0 by {
            if i < w.len() {
                assert(w[i] != 0);
                assert(without(childs, id)[i] == w[i]);
            }
        }
    }
}

impl FileSystem for Memfs {
    open spec fn inv(&self) -> bool {
        self.wf()
    }

    fn list_files(&mut self, path: &Path) -> (r: Result<Vec<File>, Error>)
        ensures
            final(self)@ == old(self)@,
            types::files_of(r) == listed(old(self)@, path::normalized(path@)),
    {
        let p = path.normalize();
        let id: u64 = match self.find_node(&p) {
            Ok(id) => id,
            Err(e) => {
                return Err(e);
            },
        };
        match self.get_node(id) {
            Ok(n) => {
                if n.file.kind != FileKind::Directory {
                    return Err(Error::NotADir);
                }
                self.list_childs(&n.childs)
            },
            Err(e) => Err(e),
        }
    }

    fn read_bytes(&mut self, path: &Path, offset: usize, count: usize) -> (r: Result<
        Vec<u8>,
        Error,
    >)
        ensures
            final(self)@ == old(self)@,
            types::bytes_of(r) == (match tree::resolve(
                old(self)@,
                path::normalized(path@),
                true,
            ) {
                Err(e) => Err(e),
                Ok(id) => read_node(old(self)@, id, offset as int, count as int),
            }),
    {
        let p = path.normalize();
        let id: u64 = match self.find_node(&p) {
            Ok(id) => id,
            Err(e) => {
                return Err(e);
            },
        };
        self.read_bytes_ino(id, offset, count)
    }

    fn write_bytes(&mut self, path: &Path, offset: usize, data: &[u8], now: u64) -> (r: Result<
        u64,
        Error,
    >)
        ensures
            (final(self)@, r) == (match tree::resolve(
                old(self)@,
                path::normalized(path@),
                true,
            ) {
                Err(e) => (old(self)@, Err(e)),
                Ok(id) => write_node(old(self)@, id, offset as int, data@),
            }),
    {
        let p = path.normalize();
        let id: u64 = match self.find_node(&p) {
            Ok(id) => id,
            Err(e) => {
                return Err(e);
            },
        };
        self.write_to(id, offset, data)
    }

    fn symlink(&mut self, target: &str, path: &Path, now: u64) -> (r: Result<(), Error>)
        ensures
            (final(self)@, r) == linked(old(self)@, target@, path::normalized(path@), now),
    {
        if target.unicode_len() == 0 {
            return Err(Error::InvalidArgument);
        }
        let p = path.normalize();
        let parent = match p.parent() {
            Some(q) => q,
            None => {
                return Err(Error::InvalidArgument);
            },
        };
        let at: u64 = match self.find_node(&parent) {
            Ok(id) => id,
            Err(e) => {
                return Err(e);
            },
        };
        match self.get_node(at) {
            Ok(n) => {
                if n.file.kind != FileKind::Directory {
                    return Err(Error::NotADir);
                }
            },
            Err(e) => {
                return Err(e);
            },
        }
        match self.walk(&p, false) {
            Ok(Some(_)) => {
                return Err(Error::InvalidArgument);
            },
            Ok(None) => {},
            Err(e) => {
                return Err(e);
            },
        }
        if self.next_id == u32::MAX {
            return Err(Error::IoError);
        }
        let mut n = Node::new(self.next_id, p.filename(), FileKind::Symlink, now);
        n.content = copy_vec(target.as_bytes());
        n.file.size = n.content.len() as u64;
        assert(n@ =~= link_node(self@.next_id, last_name(p@), target@, now));
        self.adopt(at, n);
        Ok(())
    }

    fn read_link(&mut self, path: &Path) -> (r: Result<String, Error>)
        ensures
            final(self)@ == old(self)@,
            types::text_of(r) == link_target(old(self)@, path::normalized(path@)),
    {
        let p = path.normalize();
        let id: u64 = match self.find_node_nofollow(&p) {
            Ok(id) => id,
            Err(e) => {
                return Err(e);
            },
        };
        match self.get_node(id) {
            Ok(n) => {
                if n.file.kind != FileKind::Symlink {
                    return Err(Error::InvalidArgument);
                }
                match string_from_utf8(copy_vec(n.content.as_slice())) {
                    Some(t) => Ok(t),
                    None => Err(Error::Corrupted),
                }
            },
            Err(e) => Err(e),
        }
    }

    fn create_file(&mut self, path: &Path, now: u64) -> (r: Result<(), Error>)
        ensures
            (final(self)@, r) == created(
                old(self)@,
                path::normalized(path@),
                FileKind::File,
                now,
            ),
    {
        self.create(path, FileKind::File, now)
    }

    fn create_dir(&mut self, path: &Path, now: u64) -> (r: Result<(), Error>)
        ensures
            (final(self)@, r) == created(
                old(self)@,
                path::normalized(path@),
                FileKind::Directory,
                now,
            ),
    {
        self.create(path, FileKind::Directory, now)
    }

    fn remove_dir(&mut self, path: &Path, now: u64) -> (r: Result<(), Error>)
        ensures
            (final(self)@, r) == dir_removed(old(self)@, path::normalized(path@)),
    {
        let ghost st = self@;
        let p = path.normalize();
        let (parent, i) = match self.place(&p) {
            Ok(x) => x,
            Err(e) => {
                return Err(e);
            },
        };
        let id: u64 = match self.get_node(parent) {
            Ok(n) => n.childs[i] as u64,
            Err(e) => {
                return Err(e);
            },
        };
        match self.get_node(id) {
            Ok(n) => {
                if n.file.kind != FileKind::Directory {
                    return Err(Error::NotADir);
                }
            },
            Err(e) => {
                return Err(e);
            },
        }
        let count: usize = self.nodes.len();
        assert(st.nodes.dom() =~= self.nodes@.dom());
        let ids = match self.get_all_child_ids(id, count) {
            Ok(v) => v,
            Err(e) => {
                return Err(e);
            },
        };
        proof {
            tree::root_is_below_nothing(st, id, count as nat);
            assert(tree::sound(st.nodes[parent], parent));
            assert(id != 0);
        }
        self.detach(parent, i);
        let _ = self.take_node(id);
        let ghost mid = self@;
        let mut k: usize = 0;
        assert(mid.nodes.remove_keys(ids@.take(0).to_set()) =~= mid.nodes);
        while k < ids.len()
            invariant
                k <= ids@.len(),
                self.wf(),
                !ids@.contains(0),
                self@ == (MemState {
                    nodes: mid.nodes.remove_keys(ids@.take(k as int).to_set()),
                    ..mid
                }),
            decreases ids@.len() - k,
        {
            assert(ids@.contains(ids@[k as int]));
            let _ = self.take_node(ids[k]);
            proof {
                let a = ids@.take(k as int);
                let b = ids@.take(k + 1);
                assert(b =~= a.push(ids@[k as int]));
                assert forall|x: u64| b.to_set().contains(x) <==> a.to_set().contains(x) || x
                    == ids@[k as int] by {
                    if a.contains(x) {
                        let j = choose|j: int| 0 <= j < a.len() && a[j] == x;
                        assert(b[j] == x);
                    }
                    if x == ids@[k as int] {
                        assert(b[k as int] == x);
                    }
                    if b.contains(x) {
                        let j = choose|j: int| 0 <= j < b.len() && b[j] == x;
                        if j < k {
                            assert(a[j] == x);
                        }
                    }
                }
                assert(self@.nodes =~= mid.nodes.remove_keys(b.to_set()));
            }
            k = k + 1;
        }
        assert(ids@.take(ids@.len() as int) =~= ids@);
        Ok(())
    }

    fn remove_file(&mut self, path: &Path, now: u64) -> (r: Result<(), Error>)
        ensures
            (final(self)@, r) == file_removed(old(self)@, path::normalized(path@)),
    {
        let p = path.normalize();
        let (parent, i) = match self.place(&p) {
            Ok(x) => x,
            Err(e) => {
                return Err(e);
            },
        };
        let id: u64 = match self.get_node(parent) {
            Ok(n) => n.childs[i] as u64,
            Err(e) => {
                return Err(e);
            },
        };
        match self.get_node(id) {
            Ok(n) => {
                if n.file.kind != FileKind::File && n.file.kind != FileKind::Symlink {
                    return Err(Error::NotAFile);
                }
            },
            Err(e) => {
                return Err(e);
            },
        }
        self.detach(parent, i);
        Ok(())
    }

    fn file_info(&mut self, path: &Path) -> (r: Result<File, Error>)
        ensures
            final(self)@ == old(self)@,
            types::file_view_of(r) == (match tree::resolve(
                old(self)@,
                path::normalized(path@),
                true,
            ) {
                Err(e) => Err(e),
                Ok(id) => Ok(old(self)@.nodes[id].file),
            }),
    {
        let p = path.normalize();
        let id: u64 = match self.find_node(&p) {
            Ok(id) => id,
            Err(e) => {
                return Err(e);
            },
        };
        match self.get_node(id) {
            Ok(n) => Ok(n.file.duplicate()),
            Err(e) => Err(e),
        }
    }

    fn flush(&mut self) -> (r: Result<(), Error>)
        ensures
            *final(self) == *old(self),
            r == Ok::<(), Error>(()),
    {
        Ok(())
    }

    fn statfs(&mut self) -> (r: Result<StatFs, Error>)
        ensures
            final(self)@ == old(self)@,
            r matches Ok(s) && s.fs_type@ == "memfs"@ && s.block_size == 4096 && s.total_blocks
                == 0 && s.free_blocks == 0 && s.total_inodes == old(self)@.nodes.dom().len()
                && s.free_inodes == 0 && s.volume_name@ == label() && s.version == 0
                && s.block_groups == 0,
    {
        let total: u64 = self.nodes.len() as u64;
        assert(self@.nodes.dom() =~= self.nodes@.dom());
        let mut name: Vec<u8> = vec![116u8, 109u8, 112u8];
        let mut z = zero_vec(61);
        name.append(&mut z);
        assert(name@ =~= label());
        Ok(
            StatFs {
                fs_type: "memfs",
                block_size: 4096,
                total_blocks: 0,
                free_blocks: 0,
                total_inodes: total,
                free_inodes: 0,
                volume_name: name,
                version: 0,
                block_groups: 0,
            },
        )
    }

    fn resolve_inode(&mut self, path: &Path) -> (r: Result<u64, Error>)
        ensures
            final(self)@ == old(self)@,
            r == tree::resolve(old(self)@, path::normalized(path@), true),
    {
        let p = path.normalize();
        self.find_node(&p)
    }

    fn truncate(&mut self, path: &Path, size: u64, now: u64) -> (r: Result<(), Error>)
        ensures
            (final(self)@, r) == (match tree::resolve(
                old(self)@,
                path::normalized(path@),
                true,
            ) {
                Err(e) => (old(self)@, Err(e)),
                Ok(id) => updated(
                    old(self)@,
                    id,
                    node::truncated(old(self)@.nodes[id], size),
                ),
            }),
    {
        let p = path.normalize();
        let id: u64 = match self.find_node(&p) {
            Ok(id) => id,
            Err(e) => {
                return Err(e);
            },
        };
        self.truncate_node(id, size)
    }

    fn set_times(&mut self, path: &Path, atime: Option<u64>, mtime: Option<u64>, now: u64) -> (r:
        Result<(), Error>)
        ensures
            (final(self)@, r) == (match tree::resolve(
                old(self)@,
                path::normalized(path@),
                true,
            ) {
                Err(e) => (old(self)@, Err(e)),
                Ok(id) => updated(
                    old(self)@,
                    id,
                    Ok(stamped(old(self)@.nodes[id], atime, mtime)),
                ),
            }),
    {
        let ghost st = self@;
        let p = path.normalize();
        let id: u64 = match self.find_node(&p) {
            Ok(id) => id,
            Err(e) => {
                return Err(e);
            },
        };
        let n = match self.take_node(id) {
            Some(n) => n,
            None => {
                return Err(Error::Corrupted);
            },
        };
        let mut m = n;
        match atime {
            Some(s) => {
                m.file.accessed = Some(FileTime::from_unix_secs(s));
            },
            None => {},
        }
        match mtime {
            Some(s) => {
                m.file.modified = Some(FileTime::from_unix_secs(s));
            },
            None => {},
        }
        proof {
            assert(m@ =~= stamped(n@, atime, mtime));
            lemma_back(st, id, m@);
        }
        self.put_node(id, m);
        Ok(())
    }

    fn read_bytes_ino(&mut self, ino: u64, offset: usize, count: usize) -> (r: Result<
        Vec<u8>,
        Error,
    >)
        ensures
            final(self)@ == old(self)@,
            types::bytes_of(r) == read_node(old(self)@, ino, offset as int, count as int),
    {
        match self.get_node(ino) {
            Ok(n) => {
                assert(tree::sound(n@, ino));
                n.read(offset, count)
            },
            Err(e) => Err(e),
        }
    }

    fn write_bytes_ino(&mut self, ino: u64, offset: usize, data: &[u8], now: u64) -> (r: Result<
        u64,
        Error,
    >)
        ensures
            (final(self)@, r) == write_node(old(self)@, ino, offset as int, data@),
    {
        self.write_to(ino, offset, data)
    }

    fn file_size_ino(&mut self, ino: u64) -> (r: Result<u64, Error>)
        ensures
            final(self)@ == old(self)@,
            r == (if old(self)@.nodes.contains_key(ino) {
                Ok::<u64, Error>(old(self)@.nodes[ino].file.size)
            } else {
                Err::<u64, Error>(Error::Corrupted)
            }),
    {
        match self.get_node(ino) {
            Ok(n) => Ok(n.file.size),
            Err(e) => Err(e),
        }
    }

    /// Drops the node. Number 0 stands for no file and drops nothing.
    fn evict_inode(&mut self, ino: u64) -> (r: Result<(), Error>)
        ensures
            (final(self)@, r) == (if ino > u32::MAX {
                (old(self)@, Err::<(), Error>(Error::Corrupted))
            } else if ino == 0 {
                (old(self)@, Ok::<(), Error>(()))
            } else {
                (
                    MemState { nodes: old(self)@.nodes.remove(ino), ..old(self)@ },
                    Ok::<(), Error>(()),
                )
            }),
    {
        if ino > u32::MAX as u64 {
            return Err(Error::Corrupted);
        }
        if ino == 0 {
            return Ok(());
        }
        let _ = self.take_node(ino);
        Ok(())
    }

    fn rename(&mut self, old_path: &Path, new_path: &Path, now: u64) -> (r: Result<(), Error>)
        ensures
            (final(self)@, r) == renamed(
                old(self)@,
                path::normalized(old_path@),
                path::normalized(new_path@),
            ),
    {
        let ghost st = self@;
        let a = old_path.normalize();
        let b = new_path.normalize();
        if a.is_root() || b.is_root() {
            return Err(Error::IoError);
        }
        let (pa, pb) = match (a.parent(), b.parent()) {
            (Some(x), Some(y)) => (x, y),
            _ => {
                return Err(Error::IoError);
            },
        };
        let from: u64 = match self.find_node(&pa) {
            Ok(id) => id,
            Err(e) => {
                return Err(e);
            },
        };
        let to: u64 = match self.find_node(&pb) {
            Ok(id) => id,
            Err(e) => {
                return Err(e);
            },
        };
        let id: u32 = match self.get_node(from) {
            Ok(n) => match self.find_child(&n.childs, &a.filename()) {
                Ok(Some(i)) => n.childs[i],
                Ok(None) => {
                    return Err(Error::FileNotFound);
                },
                Err(e) => {
                    return Err(e);
                },
            },
            Err(e) => {
                return Err(e);
            },
        };
        let name = b.filename();
        self.move_node(id, from, to, name);
        Ok(())
    }
}

impl Memfs {
    /// Moves node `id` from directory `from` to directory `to`, under another name.
    fn move_node(&mut self, id: u32, from: u64, to: u64, name: String)
        requires
            old(self).wf(),
            old(self)@.nodes.contains_key(from),
            old(self)@.nodes.contains_key(to),
            old(self)@.nodes.contains_key(id as u64),
            id != 0,
        ensures
            final(self).wf(),
            final(self)@ == moved(old(self)@, id, from, to, name@),
    {
        let ghost st = self@;
        match self.take_node(from) {
            Some(p) => {
                let mut q = p;
                let kept = drop_child(&q.childs, id);
                q.childs = kept;
                proof {
                    assert(q@ =~= (NodeView { childs: without(p@.childs, id), ..p@ }));
                    lemma_back(st, from, q@);
                    lemma_without(p@.childs, id);
                }
                self.put_node(from, q);
            },
            None => {},
        }
        let ghost s1 = self@;
        assert(tree::valid(s1));
        match self.take_node(id as u64) {
            Some(p) => {
                let mut q = p;
                q.file.name = name;
                proof {
                    assert(q@ =~= (NodeView {
                        file: FileView { name: name@, ..p@.file },
                        ..p@
                    }));
                    lemma_back(s1, id as u64, q@);
                }
                self.put_node(id as u64, q);
            },
            None => {},
        }
        let ghost s2 = self@;
        assert(tree::valid(s2));
        match self.take_node(to) {
            Some(p) => {
                let mut q = p;
                q.childs.push(id);
                proof {
                    assert(q@ =~= (NodeView { childs: p@.childs.push(id), ..p@ }));
                    lemma_back(s2, to, q@);
                }
                self.put_node(to, q);
            },
            None => {},
        }
        assert(self@ =~= moved(st, id, from, to, name@));
    }
}

impl PageSteps for Memfs {
    open spec fn ready(&self) -> bool {
        self.wf()
    }

    open spec fn flush_step(
        pre: &Self,
        ino: u64,
        index: u64,
        data: Seq<u8>,
        post: &Self,
        r: Result<(), Error>,
    ) -> bool {
        (post@, r) == page_flushed(pre@, ino, index as int, data)
    }

    open spec fn size_step(
        pre: &Self,
        ino: u64,
        size: u64,
        now: u64,
        post: &Self,
        r: Result<(), Error>,
    ) -> bool {
        (post@, r) == size_raised(pre@, ino, size)
    }
}

impl BulkSteps for Memfs {
    open spec fn bulk_step(
        pre: &Self,
        ino: u64,
        index: Seq<u64>,
        data: Seq<Seq<u8>>,
        size: Option<u64>,
        now: u64,
        post: &Self,
        r: Result<(), Error>,
    ) -> bool {
        page_cache::one_by_one(pre, ino, index, data, size, now, post, r)
    }
}

impl PageCacheOps for Memfs {
    /// Flushes several pages, one by one.
    fn flush_pages_bulk(
        &mut self,
        ino: u64,
        pages: Vec<DirtyPage>,
        size: Option<u64>,
        now: u64,
    ) -> (r: Result<(), Error>) {
        self.flush_one_by_one(ino, pages, size, now)
    }

    fn fill_page(&mut self, ino: u64, page_index: u64) -> (r: Result<(Vec<u8>, usize), Error>)
        ensures
            final(self)@ == old(self)@,
            match r {
                Ok((b, n)) => old(self)@.nodes.contains_key(ino) && node::page(
                    old(self)@.nodes[ino],
                    page_index as int,
                ) == Ok::<(Seq<u8>, int), Error>((b@, n as int)),
                Err(e) => if old(self)@.nodes.contains_key(ino) {
                    node::page(old(self)@.nodes[ino], page_index as int) == Err::<
                        (Seq<u8>, int),
                        Error,
                    >(e)
                } else {
                    e == Error::Corrupted
                },
            },
    {
        match self.get_node(ino) {
            Ok(n) => {
                assert(tree::sound(n@, ino));
                n.fill_page(page_index)
            },
            Err(e) => Err(e),
        }
    }

    fn flush_page(&mut self, ino: u64, page_index: u64, data: &[u8]) -> (r: Result<(), Error>) {
        let ghost st = self@;
        let n = match self.take_node(ino) {
            Some(n) => n,
            None => {
                return Err(Error::Corrupted);
            },
        };
        let mut m = n;
        proof {
            lemma_back(st, ino, n@);
        }
        let r = m.flush_page(page_index, data);
        proof {
            lemma_back(st, ino, m@);
            if r is Ok {
                node::page_then_fill(n@, page_index as int, data@);
            }
        }
        self.put_node(ino, m);
        match r {
            Ok(_) => Ok(()),
            Err(e) => Err(e),
        }
    }

    fn update_size(&mut self, ino: u64, new_size: u64, now: u64) -> (r: Result<(), Error>) {
        let ghost st = self@;
        let n = match self.take_node(ino) {
            Some(n) => n,
            None => {
                return Err(Error::Corrupted);
            },
        };
        let mut m = n;
        proof {
            lemma_back(st, ino, n@);
        }
        let r = m.update_size(new_size);
        proof {
            lemma_back(st, ino, m@);
        }
        self.put_node(ino, m);
        match r {
            Ok(_) => Ok(()),
            Err(e) => Err(e),
        }
    }
}

// ---- What is made is found ----------------------------------------------------------

pub(crate) proof fn lemma_fold_push(acc: Seq<Seq<char>>, cs: Seq<Seq<char>>, name: Seq<char>, i: int)
    requires
        0 <= i <= cs.len(),
        path::plain(name),
    ensures
        path::fold(acc, cs.push(name), i) == path::fold(acc, cs, i).push(name),
    decreases cs.len() - i,
{
    let t = cs.push(name);
    if i < cs.len() {
        assert(t[i] == cs[i]);
        lemma_fold_push(path::fold_one(acc, cs[i]), cs, name, i + 1);
    } else {
        assert(t[i] == name);
        assert(path::fold(path::fold_one(acc, name), t, i + 1) == path::fold_one(acc, name));
    }
}

/// Whether `after` has every node of `before`, the same but for further children at the
/// end of the lists.
pub open spec fn only_adds(before: MemState, after: MemState) -> bool {
    forall|k: u64| #[trigger]
        before.nodes.contains_key(k) ==> after.nodes.contains_key(k) && after.nodes[k].file
            == before.nodes[k].file && after.nodes[k].content == before.nodes[k].content
            && after.nodes[k].childs.len() >= before.nodes[k].childs.len()
            && after.nodes[k].childs.take(before.nodes[k].childs.len() as int)
            == before.nodes[k].childs
}

proof fn lemma_child_stays(
    a: MemState,
    b: MemState,
    xs: Seq<u32>,
    ys: Seq<u32>,
    name: Seq<char>,
    i: int,
)
    requires
        only_adds(a, b),
        0 <= i <= xs.len() <= ys.len(),
        ys.take(xs.len() as int) == xs,
    ensures
        tree::child_at(a, xs, name, i) matches Ok(Some(j)) ==> i <= j < xs.len() && tree::child_at(
            b,
            ys,
            name,
            i,
        ) == Ok::<Option<int>, Error>(Some(j)) && a.nodes.contains_key(xs[j] as u64),
        tree::child_at(a, xs, name, i) == Ok::<Option<int>, Error>(None) ==> tree::child_at(
            b,
            ys,
            name,
            i,
        ) == tree::child_at(b, ys, name, xs.len() as int),
    decreases xs.len() - i,
{
    if i < xs.len() {
        assert(ys[i] == ys.take(xs.len() as int)[i]);
        lemma_child_stays(a, b, xs, ys, name, i + 1);
    }
}

/// A walk that arrives somewhere goes on to what has been added there.
proof fn lemma_walk_on(
    a: MemState,
    b: MemState,
    cs: Seq<Seq<char>>,
    name: Seq<char>,
    follow: bool,
    hops: int,
    k: int,
    at: u64,
    parent: u64,
    id: u32,
)
    requires
        only_adds(a, b),
        a.nodes.contains_key(at),
        a.nodes.contains_key(0),
        path::plain(name),
        0 <= k <= cs.len(),
        hops >= 0,
        tree::walk(a, cs, true, hops, k, at) == Ok::<Option<u64>, Error>(Some(parent)),
        a.nodes.contains_key(parent) ==> tree::child_at(
            a,
            a.nodes[parent].childs,
            name,
            0,
        ) == Ok::<Option<int>, Error>(None),
        a.nodes.contains_key(parent) ==> b.nodes[parent].childs == a.nodes[parent].childs.push(id),
        b.nodes.contains_key(id as u64),
        b.nodes[id as u64].file.name == name,
        b.nodes[id as u64].file.kind != FileKind::Symlink || !follow,
    ensures
        tree::walk(b, cs.push(name), follow, hops, k, at) == Ok::<Option<u64>, Error>(
            Some(id as u64),
        ),
    decreases crate::types::MAX_SYMLINK_HOPS - hops, cs.len() - k,
{
    let t = cs.push(name);
    let xs = a.nodes[at].childs;
    let ys = b.nodes[at].childs;
    if k < cs.len() {
        assert(t[k] == cs[k]);
        lemma_child_stays(a, b, xs, ys, cs[k], 0);
        let i = tree::child_at(a, xs, cs[k], 0)->Ok_0->Some_0;
        let c = xs[i] as u64;
        assert(ys.take(xs.len() as int)[i] == ys[i]);
        let n = a.nodes[c];
        assert(a.nodes.contains_key(c));
        if n.file.kind == FileKind::Symlink {
            let target = vstd::utf8::decode_utf8(n.content);
            let rest = cs.skip(k + 1);
            let start = if target.len() > 0 && target[0] == '/' {
                Seq::empty()
            } else {
                cs.take(k)
            };
            assert(t.take(k) =~= cs.take(k));
            assert(t.skip(k + 1) =~= rest.push(name));
            let x = path::fold(start, path::split(target), 0);
            lemma_fold_push(x, rest, name, 0);
            lemma_walk_on(
                a,
                b,
                path::spliced(cs.take(k), target, rest),
                name,
                follow,
                hops + 1,
                0,
                0,
                parent,
                id,
            );
        } else {
            lemma_walk_on(a, b, cs, name, follow, hops, k + 1, c, parent, id);
        }
    } else {
        assert(at == parent);
        assert(ys.take(xs.len() as int) =~= xs);
        lemma_child_stays(a, b, xs, ys, name, 0);
        let n = xs.len() as int;
        assert(ys[n] == id);
        assert(tree::child_at(b, ys, name, n) == Ok::<Option<int>, Error>(Some(n)));
        assert(t[k] == name);
        assert(tree::walk(b, t, follow, hops, k + 1, id as u64) == Ok::<Option<u64>, Error>(
            Some(id as u64),
        ));
    }
}

proof fn lemma_adopted(st: MemState, parent: u64, n: NodeView)
    requires
        tree::valid(st),
        st.nodes.contains_key(parent),
        n.id == st.next_id,
    ensures
        only_adds(st, adopted(st, parent, n)),
        adopted(st, parent, n).nodes[parent].childs == st.nodes[parent].childs.push(n.id),
        adopted(st, parent, n).nodes[n.id as u64] == n,
{
    let b = adopted(st, parent, n);
    assert forall|k: u64| #[trigger] st.nodes.contains_key(k) implies b.nodes.contains_key(k)
        && b.nodes[k].file == st.nodes[k].file && b.nodes[k].content == st.nodes[k].content
        && b.nodes[k].childs.len() >= st.nodes[k].childs.len() && b.nodes[k].childs.take(
        st.nodes[k].childs.len() as int,
    ) == st.nodes[k].childs by {
        assert(b.nodes[k].childs.take(st.nodes[k].childs.len() as int) =~= st.nodes[k].childs);
    }
}

/// A file or directory just made is found under its path, as an empty node with the next
/// number, as long as its directory had nothing of that name.
pub proof fn created_is_found(st: MemState, cs: Seq<Seq<char>>, kind: FileKind, now: u64)
    requires
        tree::valid(st),
        kind == FileKind::File || kind == FileKind::Directory,
        path::all_plain(cs),
        created(st, cs, kind, now).1 is Ok,
        !path::root_path(cs),
        tree::child_at(
            st,
            st.nodes[tree::resolve(st, cs.drop_last(), true)->Ok_0].childs,
            cs.last(),
            0,
        ) == Ok::<Option<int>, Error>(None),
    ensures
        tree::resolve(created(st, cs, kind, now).0, cs, true) == Ok::<u64, Error>(
            st.next_id as u64,
        ),
        created(st, cs, kind, now).0.nodes[st.next_id as u64] == node::fresh(
            st.next_id,
            cs.last(),
            kind,
            now,
        ),
{
    reveal(tree::find);
    let parent = tree::resolve(st, cs.drop_last(), true)->Ok_0;
    let n = node::fresh(st.next_id, cs.last(), kind, now);
    let b = adopted(st, parent, n);
    lemma_adopted(st, parent, n);
    assert(path::plain(cs[cs.len() - 1]));
    lemma_walk_on(st, b, cs.drop_last(), cs.last(), true, 0, 0, 0, parent, st.next_id);
    assert(cs.drop_last().push(cs.last()) =~= cs);
}

/// A symbolic link just made gives back its target.
pub proof fn link_holds_its_target(
    st: MemState,
    target: Seq<char>,
    cs: Seq<Seq<char>>,
    now: u64,
)
    requires
        tree::valid(st),
        path::all_plain(cs),
        linked(st, target, cs, now).1 is Ok,
        !path::root_path(cs),
        tree::child_at(
            st,
            st.nodes[tree::resolve(st, cs.drop_last(), true)->Ok_0].childs,
            cs.last(),
            0,
        ) == Ok::<Option<int>, Error>(None),
    ensures
        link_target(linked(st, target, cs, now).0, cs) == Ok::<Seq<char>, Error>(target),
{
    reveal(tree::find);
    let parent = tree::resolve(st, cs.drop_last(), true)->Ok_0;
    let n = link_node(st.next_id, cs.last(), target, now);
    let b = adopted(st, parent, n);
    lemma_adopted(st, parent, n);
    assert(path::plain(cs[cs.len() - 1]));
    lemma_walk_on(st, b, cs.drop_last(), cs.last(), false, 0, 0, 0, parent, st.next_id);
    assert(cs.drop_last().push(cs.last()) =~= cs);
    vstd::utf8::encode_utf8_valid_utf8(target);
    vstd::utf8::encode_utf8_decode_utf8(target);
}

// ---- What is removed is gone --------------------------------------------------------

/// Children looked for by name before and after another child has been taken out.
proof fn lemma_child_left(
    a: MemState,
    b: MemState,
    xs: Seq<u32>,
    i: int,
    name: Seq<char>,
    p: int,
)
    requires
        0 <= i < xs.len(),
        0 <= p <= xs.len(),
        forall|k: u64| #[trigger] a.nodes.contains_key(k) <==> b.nodes.contains_key(k),
        forall|k: u64| #[trigger]
            a.nodes.contains_key(k) ==> a.nodes[k].file.name == b.nodes[k].file.name,
    ensures
        ({
            let q = if p <= i {
                p
            } else {
                p - 1
            };
            match tree::child_at(a, xs, name, p) {
                Ok(Some(j)) => p <= j < xs.len() && a.nodes.contains_key(xs[j] as u64) && (j < i
                    ==> tree::child_at(b, xs.remove(i), name, q) == Ok::<Option<int>, Error>(
                    Some(j),
                )) && (j > i ==> tree::child_at(b, xs.remove(i), name, q) == Ok::<
                    Option<int>,
                    Error,
                >(Some(j - 1))) && (j == i ==> tree::child_at(b, xs.remove(i), name, q)
                    == tree::child_at(b, xs.remove(i), name, i)),
                Ok(None) => tree::child_at(b, xs.remove(i), name, q) == Ok::<Option<int>, Error>(
                    None,
                ),
                Err(_) => true,
            }
        }),
    decreases xs.len() - p,
{
    let ys = xs.remove(i);
    if p < xs.len() {
        lemma_child_left(a, b, xs, i, name, p + 1);
        if p < i {
            assert(ys[p] == xs[p]);
        } else if p > i {
            assert(ys[p - 1] == xs[p]);
        }
    }
}

/// A walk to a directory that a file has been taken out of ends there, whatever leads to it.
proof fn lemma_walk_gone(
    a: MemState,
    b: MemState,
    cs: Seq<Seq<char>>,
    name: Seq<char>,
    follow: bool,
    hops: int,
    k: int,
    at: u64,
    parent: u64,
    i: int,
)
    requires
        tree::valid(a),
        a.nodes.contains_key(at),
        a.nodes.contains_key(parent),
        path::plain(name),
        0 <= k <= cs.len(),
        hops >= 0,
        tree::walk(a, cs, true, hops, k, at) == Ok::<Option<u64>, Error>(Some(parent)),
        0 <= i < a.nodes[parent].childs.len(),
        b == detached(a, parent, i),
        tree::child_at(a, a.nodes[parent].childs, name, 0) == Ok::<Option<int>, Error>(Some(i)),
        tree::child_at(a, a.nodes[parent].childs, name, i + 1) == Ok::<Option<int>, Error>(None),
        a.nodes.contains_key(a.nodes[parent].childs[i] as u64),
        a.nodes[a.nodes[parent].childs[i] as u64].file.kind == FileKind::File,
        a.nodes[a.nodes[parent].childs[i] as u64].childs.len() == 0,
    ensures
        tree::walk(b, cs.push(name), follow, hops, k, at) == Ok::<Option<u64>, Error>(None),
    decreases crate::types::MAX_SYMLINK_HOPS - hops, cs.len() - k,
{
    let t = cs.push(name);
    let all = a.nodes[parent].childs;
    let xs = a.nodes[at].childs;
    let ys = b.nodes[at].childs;
    let gone = all[i] as u64;
    lemma_child_left(a, b, all, i, name, 0);
    lemma_child_left(a, b, all, i, name, i + 1);
    if k < cs.len() {
        assert(t[k] == cs[k]);
        lemma_child_left(a, b, all, i, cs[k], 0);
        let j = tree::child_at(a, xs, cs[k], 0)->Ok_0->Some_0;
        lemma_child_there(a, b, xs, cs[k], 0);
        let c = xs[j] as u64;
        assert(!(at == parent && j == i)) by {
            if at == parent && j == i {
                assert(c == gone);
                assert(tree::walk(a, cs, true, hops, k + 1, gone) == Ok::<Option<u64>, Error>(
                    Some(parent),
                ));
            }
        }
        let n = a.nodes[c];
        assert(b.nodes[c].file == n.file && b.nodes[c].content == n.content);
        if n.file.kind == FileKind::Symlink {
            let target = vstd::utf8::decode_utf8(n.content);
            let rest = cs.skip(k + 1);
            let start = if target.len() > 0 && target[0] == '/' {
                Seq::empty()
            } else {
                cs.take(k)
            };
            assert(t.take(k) =~= cs.take(k));
            assert(t.skip(k + 1) =~= rest.push(name));
            let x = path::fold(start, path::split(target), 0);
            lemma_fold_push(x, rest, name, 0);
            lemma_walk_gone(
                a,
                b,
                path::spliced(cs.take(k), target, rest),
                name,
                follow,
                hops + 1,
                0,
                0,
                parent,
                i,
            );
        } else {
            lemma_walk_gone(a, b, cs, name, follow, hops, k + 1, c, parent, i);
        }
    } else {
        assert(at == parent);
        assert(t[k] == name);
    }
}

/// A child that is found is one of the children, and is found again where nothing changed.
proof fn lemma_child_there(a: MemState, b: MemState, xs: Seq<u32>, name: Seq<char>, p: int)
    requires
        0 <= p <= xs.len(),
        forall|k: u64| #[trigger] a.nodes.contains_key(k) <==> b.nodes.contains_key(k),
        forall|k: u64| #[trigger]
            a.nodes.contains_key(k) ==> a.nodes[k].file.name == b.nodes[k].file.name,
    ensures
        tree::child_at(a, xs, name, p) == tree::child_at(b, xs, name, p),
        tree::child_at(a, xs, name, p) matches Ok(Some(j)) ==> p <= j < xs.len()
            && a.nodes.contains_key(xs[j] as u64),
    decreases xs.len() - p,
{
    if p < xs.len() {
        lemma_child_there(a, b, xs, name, p + 1);
    }
}

/// A file that has been removed is not found under its path any more, as long as its directory
/// held the name once.
pub proof fn removed_is_gone(st: MemState, cs: Seq<Seq<char>>, follow: bool)
    requires
        tree::valid(st),
        path::all_plain(cs),
        !path::root_path(cs),
        placed(st, cs) is Ok,
        ({
            let (parent, i) = placed(st, cs)->Ok_0;
            let childs = st.nodes[parent].childs;
            let n = st.nodes[childs[i] as u64];
            &&& n.file.kind == FileKind::File
            &&& n.childs.len() == 0
            &&& tree::child_at(st, childs, last_name(cs), i + 1) == Ok::<Option<int>, Error>(None)
        }),
    ensures
        file_removed(st, cs).1 == Ok::<(), Error>(()),
        tree::resolve(file_removed(st, cs).0, cs, follow) == Err::<u64, Error>(Error::FileNotFound),
{
    reveal(tree::find);
    let (parent, i) = placed(st, cs)->Ok_0;
    let b = detached(st, parent, i);
    lemma_child_there(st, st, st.nodes[parent].childs, last_name(cs), 0);
    assert(path::plain(cs[cs.len() - 1]));
    lemma_walk_gone(st, b, cs.drop_last(), cs.last(), follow, 0, 0, 0, parent, i);
    assert(cs.drop_last().push(cs.last()) =~= cs);
}

/// Whether every child is there, and none but `id` has the name.
spec fn named_alone(st: MemState, xs: Seq<u32>, name: Seq<char>, id: u32, p: int) -> bool {
    forall|k: int|
        p <= k < xs.len() ==> st.nodes.contains_key(#[trigger] xs[k] as u64) && (xs[k] == id
            || st.nodes[xs[k] as u64].file.name != name)
}

/// No child has a name that is not found.
proof fn lemma_none_named(st: MemState, xs: Seq<u32>, name: Seq<char>, id: u32, p: int)
    requires
        0 <= p,
        tree::child_at(st, xs, name, p) == Ok::<Option<int>, Error>(None),
    ensures
        named_alone(st, xs, name, id, p),
        forall|k: int| p <= k < xs.len() ==> st.nodes[#[trigger] xs[k] as u64].file.name != name,
    decreases xs.len() - p,
{
    if p < xs.len() {
        lemma_none_named(st, xs, name, id, p + 1);
    }
}

/// The one child with a name is found, or none if it is not among the children.
proof fn lemma_alone(st: MemState, xs: Seq<u32>, name: Seq<char>, id: u32, p: int)
    requires
        0 <= p <= xs.len(),
        named_alone(st, xs, name, id, p),
    ensures
        match tree::child_at(st, xs, name, p) {
            Ok(Some(j)) => p <= j < xs.len() && xs[j] == id && st.nodes[id as u64].file.name
                == name,
            Ok(None) => forall|k: int|
                p <= k < xs.len() ==> #[trigger] xs[k] != id || st.nodes[id as u64].file.name
                    != name,
            Err(_) => false,
        },
    decreases xs.len() - p,
{
    if p < xs.len() {
        lemma_alone(st, xs, name, id, p + 1);
    }
}

/// What is left of the children without one of them.
proof fn lemma_left_out(xs: Seq<u32>, id: u32)
    ensures
        forall|k: int|
            0 <= k < without(xs, id).len() ==> (#[trigger] without(xs, id)[k]) != id && xs.contains(
                without(xs, id)[k],
            ),
    decreases xs.len(),
{
    if xs.len() > 0 {
        let front = xs.drop_last();
        lemma_left_out(front, id);
        let ys = without(xs, id);
        assert forall|k: int| 0 <= k < ys.len() implies (#[trigger] ys[k]) != id && xs.contains(
            ys[k],
        ) by {
            if k < without(front, id).len() {
                assert(ys[k] == without(front, id)[k]);
                let j = choose|j: int| 0 <= j < front.len() && front[j] == ys[k];
                assert(xs[j] == ys[k]);
            } else {
                assert(xs[xs.len() - 1] == ys[k]);
            }
        }
    }
}

/// What is found in a list of children is one of them, and so is what is left of the list.
proof fn lemma_still_alone(
    a: MemState,
    z: MemState,
    xs: Seq<u32>,
    ys: Seq<u32>,
    name: Seq<char>,
    id: u32,
)
    requires
        named_alone(a, xs, name, id, 0),
        forall|k: int| 0 <= k < ys.len() ==> #[trigger] xs.contains(ys[k]) || ys[k] == id,
        z.nodes.contains_key(id as u64),
        forall|k: u64|
            a.nodes.contains_key(k) ==> #[trigger] z.nodes.contains_key(k) && (k == id
                || z.nodes[k].file.name == a.nodes[k].file.name),
    ensures
        named_alone(z, ys, name, id, 0),
{
    assert forall|k: int| 0 <= k < ys.len() implies z.nodes.contains_key(#[trigger] ys[k] as u64)
        && (ys[k] == id || z.nodes[ys[k] as u64].file.name != name) by {
        if ys[k] != id {
            assert(xs.contains(ys[k]));
            let j = choose|j: int| 0 <= j < xs.len() && xs[j] == ys[k];
            assert(a.nodes.contains_key(xs[j] as u64));
            assert(z.nodes.contains_key(ys[k] as u64));
        }
    }
}

/// A node that is moved is found in the directory it goes to under its new name, and the
/// directory it came from does not hold its old name any more, as long as that held the name
/// once and the other did not hold the new one.
pub proof fn moved_is_held(
    st: MemState,
    i: int,
    from: u64,
    to: u64,
    old_name: Seq<char>,
    new_name: Seq<char>,
)
    requires
        tree::valid(st),
        st.nodes.contains_key(from),
        st.nodes.contains_key(to),
        0 <= i < st.nodes[from].childs.len(),
        tree::child_at(st, st.nodes[from].childs, old_name, i + 1) == Ok::<Option<int>, Error>(
            None,
        ),
        tree::child_at(st, st.nodes[from].childs, old_name, 0) == Ok::<Option<int>, Error>(Some(i)),
        tree::child_at(st, st.nodes[to].childs, new_name, 0) == Ok::<Option<int>, Error>(None),
    ensures
        ({
            let id = st.nodes[from].childs[i];
            let z = moved(st, id, from, to, new_name);
            &&& tree::child_at(z, z.nodes[to].childs, new_name, 0) matches Ok(Some(j))
                && z.nodes[to].childs[j] == id
            &&& old_name != new_name ==> tree::child_at(z, z.nodes[from].childs, old_name, 0)
                == Ok::<Option<int>, Error>(None)
        }),
{
    let xs = st.nodes[from].childs;
    let ws = st.nodes[to].childs;
    let id = xs[i];
    let z = moved(st, id, from, to, new_name);
    lemma_left_out(xs, id);
    lemma_left_out(ws, id);
    lemma_before(st, xs, old_name, 0, i);
    lemma_none_named(st, xs, old_name, id, i + 1);
    lemma_none_named(st, ws, new_name, id, 0);
    assert(named_alone(st, xs, old_name, id, 0)) by {
        assert forall|k: int| 0 <= k < xs.len() implies st.nodes.contains_key(
            #[trigger] xs[k] as u64,
        ) && (xs[k] == id || st.nodes[xs[k] as u64].file.name != old_name) by {}
    }
    let held = z.nodes[to].childs;
    let left = z.nodes[from].childs;
    assert forall|k: int| 0 <= k < held.len() implies #[trigger] ws.contains(held[k]) || held[k]
        == id by {
        if k < held.len() - 1 {
            if from == to {
                assert(held[k] == without(xs, id)[k]);
            } else {
                assert(held[k] == ws[k]);
            }
        }
    }
    lemma_still_alone(st, z, ws, held, new_name, id);
    lemma_alone(z, held, new_name, id, 0);
    assert(held[held.len() - 1] == id);
    if old_name != new_name {
        assert forall|k: int| 0 <= k < left.len() implies #[trigger] xs.contains(left[k])
            || left[k] == id by {
            if k < without(xs, id).len() {
                assert(left[k] == without(xs, id)[k]);
            }
        }
        lemma_still_alone(st, z, xs, left, old_name, id);
        lemma_alone(z, left, old_name, id, 0);
    }
}

/// Every child before the one that is found is there and has another name.
proof fn lemma_before(st: MemState, xs: Seq<u32>, name: Seq<char>, p: int, i: int)
    requires
        0 <= p <= xs.len(),
        tree::child_at(st, xs, name, p) == Ok::<Option<int>, Error>(Some(i)),
    ensures
        p <= i < xs.len(),
        forall|k: int|
            p <= k < i ==> st.nodes.contains_key(#[trigger] xs[k] as u64)
                && st.nodes[xs[k] as u64].file.name != name,
        st.nodes.contains_key(xs[i] as u64),
        st.nodes[xs[i] as u64].file.name == name,
    decreases xs.len() - p,
{
    if p < xs.len() && st.nodes[xs[p] as u64].file.name != name {
        lemma_before(st, xs, name, p + 1, i);
    }
}

// ---- Listing, refusing and times ----------------------------------------------------

proof fn lemma_child_files(st: MemState, childs: Seq<u32>, i: int)
    requires
        0 <= i <= childs.len(),
    ensures
        child_files(st, childs, i) matches Ok(fs) ==> fs.len() == childs.len() - i && forall|k: int|
            0 <= k < fs.len() ==> #[trigger] fs[k] == st.nodes[childs[i + k] as u64].file,
    decreases childs.len() - i,
{
    if i < childs.len() && st.nodes.contains_key(childs[i] as u64) {
        lemma_child_files(st, childs, i + 1);
        if let Ok(rest) = child_files(st, childs, i + 1) {
            let fs = child_files(st, childs, i)->Ok_0;
            assert forall|k: int| 0 <= k < fs.len() implies #[trigger] fs[k] == st.nodes[childs[i
                + k] as u64].file by {
                if k > 0 {
                    assert(fs[k] == rest[k - 1]);
                    assert(rest[k - 1] == st.nodes[childs[i + 1 + (k - 1)] as u64].file);
                }
            }
        }
    }
}

/// A directory lists its children, every one of them and in their order; what is no directory
/// lists nothing.
pub proof fn directory_lists_its_children(st: MemState, cs: Seq<Seq<char>>, id: u64)
    requires
        tree::resolve(st, cs, true) == Ok::<u64, Error>(id),
    ensures
        st.nodes[id].file.kind != FileKind::Directory ==> listed(st, cs) == Err::<
            Seq<FileView>,
            Error,
        >(Error::NotADir),
        listed(st, cs) matches Ok(fs) ==> fs.len() == st.nodes[id].childs.len() && forall|k: int|
            0 <= k < fs.len() ==> #[trigger] fs[k] == st.nodes[st.nodes[id].childs[k] as u64].file,
{
    lemma_child_files(st, st.nodes[id].childs, 0);
}

/// What cannot be removed is refused and stays: a directory as a file and anything else as a
/// directory. A directory goes with everything below it, and the rest stays as it is.
pub proof fn removal_takes_what_was_named(st: MemState, cs: Seq<Seq<char>>, parent: u64, i: int, k: u64)
    requires
        placed(st, cs) == Ok::<(u64, int), Error>((parent, i)),
    ensures
        ({
            let id = st.nodes[parent].childs[i] as u64;
            let kind = st.nodes[id].file.kind;
            &&& kind == FileKind::File || kind == FileKind::Symlink ==> file_removed(st, cs).1 is Ok
            &&& kind == FileKind::Directory ==> file_removed(st, cs) == (
                st,
                Err::<(), Error>(Error::NotAFile),
            )
            &&& kind != FileKind::Directory ==> dir_removed(st, cs) == (
                st,
                Err::<(), Error>(Error::NotADir),
            )
            &&& file_removed(st, cs).1 is Ok ==> (k != parent ==> file_removed(st, cs).0.nodes.contains_key(k) == st.nodes.contains_key(k)
                && file_removed(st, cs).0.nodes[k] == st.nodes[k]) && file_removed(st, cs).0.nodes[parent].childs
                == st.nodes[parent].childs.remove(i)
            &&& dir_removed(st, cs).1 is Ok ==> {
                let z = dir_removed(st, cs).0;
                let under = tree::below(st, id, st.nodes.dom().len())->Ok_0;
                &&& !z.nodes.contains_key(id)
                &&& under.contains(k) ==> !z.nodes.contains_key(k)
                &&& k != id && !under.contains(k) && k != parent ==> z.nodes.contains_key(k)
                    == st.nodes.contains_key(k) && (st.nodes.contains_key(k) ==> z.nodes[k]
                    == st.nodes[k])
                &&& parent != id && !under.contains(parent) ==> z.nodes[parent].childs
                    == st.nodes[parent].childs.remove(i)
            }
        }),
{
}

/// Times that are set are a node's times afterwards, each that was given; everything else stays.
pub proof fn times_are_set(n: NodeView, atime: Option<u64>, mtime: Option<u64>)
    ensures
        ({
            let m = stamped(n, atime, mtime);
            &&& m.file.accessed == (if atime is Some {
                Some(types::file_time_of(atime->Some_0))
            } else {
                n.file.accessed
            })
            &&& m.file.modified == (if mtime is Some {
                Some(types::file_time_of(mtime->Some_0))
            } else {
                n.file.modified
            })
            &&& m.content == n.content
            &&& m.childs == n.childs
            &&& m.file.size == n.file.size
            &&& m.file.name == n.file.name
            &&& m.file.kind == n.file.kind
        }),
{
}

} // verus!
