//! The paths looked up last, with the files they lead to.
use vstd::prelude::*;
use crate::path;
use crate::path::Path;

verus! {

/// How many paths are remembered.
pub const DENTRY_CACHE_MAX: usize = 256;

/// A remembered path of a mount, with the handle of the file it leads to.
pub struct Dentry {
    pub mount_id: usize,
    pub path: Path,
    pub inode: u64,
}

/// A remembered path seen mathematically.
#[verifier::ext_equal]
pub struct DentryView {
    pub mount_id: usize,
    pub path: Seq<Seq<char>>,
    pub inode: u64,
}

impl View for Dentry {
    type V = DentryView;

    open spec fn view(&self) -> DentryView {
        DentryView { mount_id: self.mount_id, path: self.path@, inode: self.inode }
    }
}

/// The remembered paths, oldest first.
pub struct DentryCache {
    pub entries: Vec<Dentry>,
}

impl View for DentryCache {
    type V = Seq<DentryView>;

    open spec fn view(&self) -> Seq<DentryView> {
        self.entries@.map_values(|d: Dentry| d@)
    }
}

/// Where a path is remembered, from `i` on.
pub open spec fn position(s: Seq<DentryView>, m: usize, p: Seq<Seq<char>>, i: int) -> Option<int>
    decreases s.len() - i,
{
    if i >= s.len() {
        None
    } else if s[i].mount_id == m && s[i].path == p {
        Some(i)
    } else {
        position(s, m, p, i + 1)
    }
}

/// The file a path is remembered to lead to.
pub open spec fn found(s: Seq<DentryView>, m: usize, p: Seq<Seq<char>>) -> Option<u64> {
    match position(s, m, p, 0) {
        Some(i) => Some(s[i].inode),
        None => None,
    }
}

/// A path remembered. One that is remembered already stays as it is; the oldest goes if
/// there is no room.
pub open spec fn inserted(s: Seq<DentryView>, d: DentryView) -> Seq<DentryView> {
    if position(s, d.mount_id, d.path, 0) is Some {
        s
    } else if s.len() >= DENTRY_CACHE_MAX {
        s.skip(1).push(d)
    } else {
        s.push(d)
    }
}

/// A path forgotten.
pub open spec fn forgotten(s: Seq<DentryView>, m: usize, p: Seq<Seq<char>>) -> Seq<DentryView> {
    match position(s, m, p, 0) {
        Some(i) => s.remove(i),
        None => s,
    }
}

/// The paths other than those at or below `p`, among the first `n`.
pub open spec fn outside(s: Seq<DentryView>, m: usize, p: Seq<Seq<char>>, n: int) -> Seq<DentryView>
    decreases n,
{
    if n <= 0 {
        Seq::empty()
    } else if s[n - 1].mount_id == m && path::has_prefix(s[n - 1].path, p) {
        outside(s, m, p, n - 1)
    } else {
        outside(s, m, p, n - 1).push(s[n - 1])
    }
}

/// What holds of the remembered paths: no more than there is room for, and each once.
pub open spec fn valid(s: Seq<DentryView>) -> bool {
    &&& s.len() <= DENTRY_CACHE_MAX
    &&& forall|i: int, j: int|
        0 <= i < j < s.len() ==> !((#[trigger] s[i]).mount_id == (#[trigger] s[j]).mount_id
            && s[i].path == s[j].path)
}

proof fn lemma_position(s: Seq<DentryView>, m: usize, p: Seq<Seq<char>>, i: int)
    requires
        i >= 0,
    ensures
        position(s, m, p, i) matches Some(k) ==> i <= k < s.len() && s[k].mount_id == m
            && s[k].path == p,
        position(s, m, p, i) is None ==> forall|j: int|
            i <= j < s.len() ==> !((#[trigger] s[j]).mount_id == m && s[j].path == p),
    decreases s.len() - i,
{
    if i < s.len() {
        lemma_position(s, m, p, i + 1);
    }
}

/// In a valid list, what stands somewhere is found there.
proof fn lemma_found(s: Seq<DentryView>, i: int)
    requires
        valid(s),
        0 <= i < s.len(),
    ensures
        position(s, s[i].mount_id, s[i].path, 0) == Some(i),
        found(s, s[i].mount_id, s[i].path) == Some(s[i].inode),
{
    lemma_position(s, s[i].mount_id, s[i].path, 0);
    let k = position(s, s[i].mount_id, s[i].path, 0);
    assert(k is Some) by {
        if k is None {
            assert(!(s[i].mount_id == s[i].mount_id && s[i].path == s[i].path));
        }
    }
    let x = k->Some_0;
    if x < i {
        assert(!(s[x].mount_id == s[i].mount_id && s[x].path == s[i].path));
    } else if i < x {
        assert(!(s[i].mount_id == s[x].mount_id && s[i].path == s[x].path));
    }
}

/// A path just remembered is found, under the file it was first remembered with, and the
/// list keeps to its bound. Every other path but the oldest is found as before.
pub proof fn insert_then_lookup(s: Seq<DentryView>, d: DentryView)
    requires
        valid(s),
    ensures
        valid(inserted(s, d)),
        found(inserted(s, d), d.mount_id, d.path) == (match found(s, d.mount_id, d.path) {
            Some(x) => Some(x),
            None => Some(d.inode),
        }),
        forall|i: int|
            1 <= i < s.len() ==> found(
                inserted(s, d),
                (#[trigger] s[i]).mount_id,
                s[i].path,
            ) == Some(s[i].inode),
        s.len() < DENTRY_CACHE_MAX ==> forall|i: int|
            0 <= i < s.len() ==> found(
                inserted(s, d),
                (#[trigger] s[i]).mount_id,
                s[i].path,
            ) == Some(s[i].inode),
{
    lemma_position(s, d.mount_id, d.path, 0);
    let t = inserted(s, d);
    if position(s, d.mount_id, d.path, 0) is None {
        let shift: int = if s.len() >= DENTRY_CACHE_MAX {
            1
        } else {
            0
        };
        let n = s.len() - shift;
        assert(t.len() == n + 1);
        assert(t[n] == d);
        assert forall|i: int, j: int| 0 <= i < j < t.len() implies !((
        #[trigger] t[i]).mount_id == (#[trigger] t[j]).mount_id && t[i].path == t[j].path) by {
            assert(t[i] == s[i + shift]);
            if j < n {
                assert(t[j] == s[j + shift]);
            }
        }
        lemma_found(t, n);
        assert forall|i: int| shift <= i < s.len() implies found(
            t,
            (#[trigger] s[i]).mount_id,
            s[i].path,
        ) == Some(s[i].inode) by {
            assert(t[i - shift] == s[i]);
            lemma_found(t, i - shift);
        }
    } else {
        assert forall|i: int| 0 <= i < s.len() implies found(
            t,
            (#[trigger] s[i]).mount_id,
            s[i].path,
        ) == Some(s[i].inode) by {
            lemma_found(s, i);
        }
    }
}

/// A path forgotten is not found; every other is found as before.
pub proof fn forgotten_is_gone(s: Seq<DentryView>, m: usize, p: Seq<Seq<char>>)
    requires
        valid(s),
    ensures
        valid(forgotten(s, m, p)),
        found(forgotten(s, m, p), m, p) is None,
        forall|i: int|
            0 <= i < s.len() && !((#[trigger] s[i]).mount_id == m && s[i].path == p) ==> found(
                forgotten(s, m, p),
                s[i].mount_id,
                s[i].path,
            ) == Some(s[i].inode),
{
    lemma_position(s, m, p, 0);
    let t = forgotten(s, m, p);
    lemma_position(t, m, p, 0);
    match position(s, m, p, 0) {
        Some(k) => {
            assert forall|i: int, j: int| 0 <= i < j < t.len() implies !((
            #[trigger] t[i]).mount_id == (#[trigger] t[j]).mount_id && t[i].path == t[j].path) by {
                assert(t[i] == s[if i < k { i } else { i + 1 }]);
                assert(t[j] == s[if j < k { j } else { j + 1 }]);
            }
            if position(t, m, p, 0) is Some {
                let x = position(t, m, p, 0)->Some_0;
                let y = if x < k {
                    x
                } else {
                    x + 1
                };
                assert(t[x] == s[y]);
                if y < k {
                    assert(!(s[y].mount_id == s[k].mount_id && s[y].path == s[k].path));
                } else {
                    assert(!(s[k].mount_id == s[y].mount_id && s[k].path == s[y].path));
                }
            }
            assert forall|i: int|
                0 <= i < s.len() && !((#[trigger] s[i]).mount_id == m && s[i].path
                    == p) implies found(t, s[i].mount_id, s[i].path) == Some(s[i].inode) by {
                let x = if i < k {
                    i
                } else {
                    i - 1
                };
                assert(t[x] == s[i]);
                lemma_found(t, x);
            }
        },
        None => {
            assert forall|i: int|
                0 <= i < s.len() && !((#[trigger] s[i]).mount_id == m && s[i].path
                    == p) implies found(t, s[i].mount_id, s[i].path) == Some(s[i].inode) by {
                lemma_found(s, i);
            }
        },
    }
}

proof fn lemma_outside(s: Seq<DentryView>, m: usize, p: Seq<Seq<char>>, n: int)
    requires
        valid(s),
        0 <= n <= s.len(),
    ensures
        valid(outside(s, m, p, n)),
        outside(s, m, p, n).len() <= n,
        forall|i: int|
            0 <= i < outside(s, m, p, n).len() ==> s.take(n).contains(
                #[trigger] outside(s, m, p, n)[i],
            ) && !(outside(s, m, p, n)[i].mount_id == m && path::has_prefix(
                outside(s, m, p, n)[i].path,
                p,
            )),
        forall|i: int|
            0 <= i < n && !((#[trigger] s[i]).mount_id == m && path::has_prefix(s[i].path, p))
                ==> outside(s, m, p, n).contains(s[i]),
    decreases n,
{
    if n > 0 {
        lemma_outside(s, m, p, n - 1);
        let a = outside(s, m, p, n - 1);
        let b = outside(s, m, p, n);
        let x = s[n - 1];
        let t = s.take(n - 1);
        assert forall|i: int| 0 <= i < b.len() implies s.take(n).contains(#[trigger] b[i]) && !(
        b[i].mount_id == m && path::has_prefix(b[i].path, p)) by {
            if i < a.len() {
                assert(b[i] == a[i]);
                let j = choose|j: int| 0 <= j < t.len() && t[j] == a[i];
                assert(s.take(n)[j] == b[i]);
            } else {
                assert(s.take(n)[n - 1] == b[i]);
            }
        }
        assert forall|i: int, j: int| 0 <= i < j < b.len() implies !((
        #[trigger] b[i]).mount_id == (#[trigger] b[j]).mount_id && b[i].path == b[j].path) by {
            assert(b[i] == a[i]);
            if j < a.len() {
                assert(b[j] == a[j]);
            } else {
                let y = choose|y: int| 0 <= y < t.len() && t[y] == a[i];
                assert(s[y] == b[i]);
                assert(b[j] == s[n - 1]);
            }
        }
        assert forall|i: int|
            0 <= i < n && !((#[trigger] s[i]).mount_id == m && path::has_prefix(
                s[i].path,
                p,
            )) implies b.contains(s[i]) by {
            if i < n - 1 {
                assert(a.contains(s[i]));
                let y = choose|y: int| 0 <= y < a.len() && a[y] == s[i];
                assert(b[y] == s[i]);
            } else {
                assert(b[b.len() - 1] == s[i]);
            }
        }
    }
}

/// Forgetting what lies below a path forgets exactly that: nothing at or below it is
/// found, everything else is as before.
pub proof fn children_are_gone(
    s: Seq<DentryView>,
    m: usize,
    p: Seq<Seq<char>>,
    q: Seq<Seq<char>>,
)
    requires
        valid(s),
    ensures
        valid(outside(s, m, p, s.len() as int)),
        path::has_prefix(q, p) ==> found(outside(s, m, p, s.len() as int), m, q) is None,
        forall|i: int|
            0 <= i < s.len() && !((#[trigger] s[i]).mount_id == m && path::has_prefix(
                s[i].path,
                p,
            )) ==> found(outside(s, m, p, s.len() as int), s[i].mount_id, s[i].path) == Some(
                s[i].inode,
            ),
{
    let n = s.len() as int;
    lemma_outside(s, m, p, n);
    let t = outside(s, m, p, n);
    lemma_position(t, m, q, 0);
    assert forall|i: int|
        0 <= i < s.len() && !((#[trigger] s[i]).mount_id == m && path::has_prefix(
            s[i].path,
            p,
        )) implies found(t, s[i].mount_id, s[i].path) == Some(s[i].inode) by {
        assert(t.contains(s[i]));
        let x = choose|x: int| 0 <= x < t.len() && t[x] == s[i];
        lemma_found(t, x);
    }
}

impl DentryCache {
    /// What holds between operations.
    pub open spec fn wf(&self) -> bool {
        valid(self@)
    }

    /// Nothing remembered.
    pub fn new() -> (r: DentryCache)
        ensures
            r.wf(),
            r@ == Seq::<DentryView>::empty(),
    {
        let r = DentryCache { entries: Vec::new() };
        assert(r@ =~= Seq::<DentryView>::empty());
        r
    }

    fn find(&self, mount_id: usize, path: &Path) -> (r: Option<usize>)
        ensures
            match r {
                Some(i) => position(self@, mount_id, path@, 0) == Some(i as int) && i
                    < self.entries@.len(),
                None => position(self@, mount_id, path@, 0) is None,
            },
    {
        let mut i: usize = 0;
        while i < self.entries.len()
            invariant
                i <= self.entries@.len(),
                position(self@, mount_id, path@, 0) == position(
                    self@,
                    mount_id,
                    path@,
                    i as int,
                ),
            decreases self.entries@.len() - i,
        {
            if self.entries[i].mount_id == mount_id && self.entries[i].path.same(path) {
                return Some(i);
            }
            i = i + 1;
        }
        None
    }

    /// The file a path is remembered to lead to.
    pub fn lookup(&self, mount_id: usize, path: &Path) -> (r: Option<u64>)
        ensures
            r == found(self@, mount_id, path@),
    {
        match self.find(mount_id, path) {
            Some(i) => Some(self.entries[i].inode),
            None => None,
        }
    }

    /// Remembers a path, unless it is. The oldest goes if there is no room.
    pub fn insert(&mut self, mount_id: usize, path: Path, inode: u64)
        requires
            old(self).wf(),
        ensures
            final(self).wf(),
            final(self)@ == inserted(
                old(self)@,
                (DentryView { mount_id, path: path@, inode }),
            ),
    {
        let ghost s = self@;
        let ghost d = DentryView { mount_id, path: path@, inode };
        proof {
            insert_then_lookup(s, d);
        }
        if self.find(mount_id, &path).is_some() {
            return;
        }
        if self.entries.len() >= DENTRY_CACHE_MAX {
            self.entries.remove(0);
            assert(self@ =~= s.skip(1));
        }
        let ghost t = self@;
        self.entries.push(Dentry { mount_id, path, inode });
        assert(self@ =~= t.push(d));
    }

    /// Forgets a path.
    pub fn invalidate(&mut self, mount_id: usize, path: &Path)
        requires
            old(self).wf(),
        ensures
            final(self).wf(),
            final(self)@ == forgotten(old(self)@, mount_id, path@),
    {
        let ghost s = self@;
        proof {
            forgotten_is_gone(s, mount_id, path@);
        }
        match self.find(mount_id, path) {
            Some(i) => {
                self.entries.remove(i);
                assert(self@ =~= s.remove(i as int));
            },
            None => {},
        }
    }

    /// Forgets every path at or below `parent`.
    pub fn invalidate_children(&mut self, mount_id: usize, parent: &Path)
        requires
            old(self).wf(),
        ensures
            final(self).wf(),
            final(self)@ == outside(old(self)@, mount_id, parent@, old(self)@.len() as int),
    {
        let ghost s = self@;
        proof {
            lemma_outside(s, mount_id, parent@, s.len() as int);
        }
        let mut kept: Vec<Dentry> = Vec::new();
        let mut i: usize = 0;
        assert(kept@.map_values(|d: Dentry| d@) =~= Seq::empty());
        while i < self.entries.len()
            invariant
                i <= self.entries@.len(),
                self@ == s,
                kept@.map_values(|d: Dentry| d@) == outside(s, mount_id, parent@, i as int),
            decreases self.entries@.len() - i,
        {
            let ghost before = kept@.map_values(|d: Dentry| d@);
            let e = &self.entries[i];
            if !(e.mount_id == mount_id && e.path.starts_with(parent)) {
                kept.push(
                    Dentry { mount_id: e.mount_id, path: e.path.duplicate(), inode: e.inode },
                );
                assert(kept@.map_values(|d: Dentry| d@) =~= before.push(s[i as int]));
            }
            i = i + 1;
        }
        self.entries = kept;
    }
}

} // verus!
