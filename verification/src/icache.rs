//! The files in use, each known once.
//!
//! A file's held pages belong to it, so two descriptions of one file in use at once would
//! show different contents. Files without a number are never shared: one number would
//! stand for all of them.
use vstd::prelude::*;
use crate::evict::EvictRequest;
use crate::inode::VfsInode;
use crate::page_cache;
use crate::page_cache::PagesView;
use crate::sorted::SortedMap;
use crate::types::FileKind;

verus! {

/// How many entries the list may have before those of files no longer in use are swept
/// out of it.
pub const SWEEP_THRESHOLD: usize = 512;

/// A file in use, with the number of its users.
pub struct LiveInode {
    pub inode: VfsInode,
    pub users: u64,
}

/// An entry of the list: the file `ino` of mount `mount_id` was last seen under `handle`.
#[derive(Clone, Copy, PartialEq, Eq, Structural)]
pub struct IcacheEntry {
    pub mount_id: usize,
    pub ino: u64,
    pub handle: u64,
}

/// The files in use, by handle, and the list by which they are found.
pub struct InodeCache {
    pub entries: Vec<IcacheEntry>,
    pub live: SortedMap<LiveInode>,
    pub next_handle: u64,
    /// Files that lost their name while in use.
    pub orphans_marked: u64,
    /// Those among them that nobody uses any more.
    pub orphans_dropped: u64,
}

/// A file in use seen mathematically, with the pages of it that are held.
pub struct LiveView {
    pub mount_id: usize,
    pub ino: u64,
    pub kind: FileKind,
    pub pages: PagesView,
    pub orphan: bool,
    pub users: u64,
}

/// The files in use seen mathematically.
#[verifier::ext_equal]
pub struct IcacheState {
    pub entries: Seq<IcacheEntry>,
    pub live: Map<u64, LiveView>,
    pub next_handle: u64,
    pub orphans_marked: u64,
    pub orphans_dropped: u64,
}

impl View for LiveInode {
    type V = LiveView;

    open spec fn view(&self) -> LiveView {
        LiveView {
            mount_id: self.inode.mount_id,
            ino: self.inode.ino,
            kind: self.inode.kind,
            pages: self.inode.pages@,
            orphan: self.inode.orphan,
            users: self.users,
        }
    }
}

impl View for InodeCache {
    type V = IcacheState;

    open spec fn view(&self) -> IcacheState {
        IcacheState {
            entries: self.entries@,
            live: self.live@.map_values(|l: LiveInode| l@),
            next_handle: self.next_handle,
            orphans_marked: self.orphans_marked,
            orphans_dropped: self.orphans_dropped,
        }
    }
}

// ---- What the operations do ---------------------------------------------------------------

/// Where a file stands in the list, from `i` on.
pub open spec fn entry_at(es: Seq<IcacheEntry>, mount_id: usize, ino: u64, i: int) -> Option<int>
    decreases es.len() - i,
{
    if i >= es.len() {
        None
    } else if es[i].mount_id == mount_id && es[i].ino == ino {
        Some(i)
    } else {
        entry_at(es, mount_id, ino, i + 1)
    }
}

/// The entries of files in use, among the first `n`.
pub open spec fn swept(es: Seq<IcacheEntry>, live: Map<u64, LiveView>, n: int) -> Seq<IcacheEntry>
    decreases n,
{
    if n <= 0 {
        Seq::empty()
    } else if live.contains_key(es[n - 1].handle) {
        swept(es, live, n - 1).push(es[n - 1])
    } else {
        swept(es, live, n - 1)
    }
}

/// The list with the file listed under `handle`.
pub open spec fn entered(es: Seq<IcacheEntry>, e: IcacheEntry) -> Seq<IcacheEntry> {
    match entry_at(es, e.mount_id, e.ino, 0) {
        Some(i) => es.update(i, e),
        None => es.push(e),
    }
}

/// The state with one more file in use, under the next handle.
pub open spec fn with_fresh(st: IcacheState, mount_id: usize, ino: u64, kind: FileKind) -> IcacheState {
    IcacheState {
        live: st.live.insert(
            st.next_handle,
            LiveView {
                mount_id,
                ino,
                kind,
                pages: page_cache::no_pages(),
                orphan: false,
                users: 1,
            },
        ),
        next_handle: (st.next_handle + 1) as u64,
        ..st
    }
}

/// One more user of the file `ino` of a mount: of the description in use if there is one,
/// else of a fresh one. Handles and users have to be left.
pub open spec fn gotten(st: IcacheState, mount_id: usize, ino: u64, kind: FileKind) -> (
    IcacheState,
    u64,
) {
    let h = st.next_handle;
    if ino == 0 {
        (with_fresh(st, mount_id, ino, kind), h)
    } else {
        let e = IcacheEntry { mount_id, ino, handle: h };
        match entry_at(st.entries, mount_id, ino, 0) {
            Some(i) if st.live.contains_key(st.entries[i].handle) => {
                let k = st.entries[i].handle;
                let l = st.live[k];
                (
                    IcacheState {
                        live: st.live.insert(
                            k,
                            LiveView { users: (l.users + 1) as u64, ..l },
                        ),
                        ..st
                    },
                    k,
                )
            },
            _ => {
                let es = if st.entries.len() >= SWEEP_THRESHOLD {
                    swept(st.entries, st.live, st.entries.len() as int)
                } else {
                    st.entries
                };
                (
                    IcacheState {
                        entries: entered(es, e),
                        ..with_fresh(st, mount_id, ino, kind)
                    },
                    h,
                )
            },
        }
    }
}

/// One user less. When the last is gone the description is dropped, and what the file
/// holds is to be freed if it has no name.
pub open spec fn released(st: IcacheState, h: u64) -> (IcacheState, Option<EvictRequest>) {
    let l = st.live[h];
    if l.users > 1 {
        (
            IcacheState {
                live: st.live.insert(h, LiveView { users: (l.users - 1) as u64, ..l }),
                ..st
            },
            None,
        )
    } else if l.orphan && l.ino != 0 {
        (
            IcacheState {
                live: st.live.remove(h),
                orphans_dropped: crate::evict::counted(st.orphans_dropped),
                ..st
            },
            Some(EvictRequest { mount_id: l.mount_id, ino: l.ino }),
        )
    } else {
        (IcacheState { live: st.live.remove(h), ..st }, None)
    }
}

// ---- Laws -----------------------------------------------------------------------------------

/// Whether no file is listed twice.
pub open spec fn distinct(es: Seq<IcacheEntry>) -> bool {
    forall|i: int, j: int|
        0 <= i < j < es.len() ==> !((#[trigger] es[i]).mount_id == (#[trigger] es[j]).mount_id
            && es[i].ino == es[j].ino)
}

/// Whether a file in use is listed under its handle.
pub open spec fn listed(es: Seq<IcacheEntry>, l: LiveView, h: u64) -> bool {
    exists|i: int|
        0 <= i < es.len() && #[trigger] es[i] == (IcacheEntry {
            mount_id: l.mount_id,
            ino: l.ino,
            handle: h,
        })
}

/// What holds of the files in use: none is listed twice, every one with a number is
/// listed, what is listed under a handle in use is that file, handles are given out
/// once, and the pages held are sound.
pub open spec fn valid(st: IcacheState) -> bool {
    &&& distinct(st.entries)
    &&& st.live.dom().finite()
    &&& forall|h: u64| #[trigger] st.live.contains_key(h) ==> page_cache::sound(st.live[h].pages)
    &&& forall|h: u64| #[trigger]
        st.live.contains_key(h) ==> h < st.next_handle && st.live[h].users >= 1 && (st.live[h].ino
            != 0 ==> listed(st.entries, st.live[h], h))
    &&& forall|i: int|
        0 <= i < st.entries.len() ==> (#[trigger] st.entries[i]).handle < st.next_handle && (
        st.live.contains_key(st.entries[i].handle) ==> st.live[st.entries[i].handle].mount_id
            == st.entries[i].mount_id && st.live[st.entries[i].handle].ino == st.entries[i].ino)
}

/// There is one description in use of each file that has a number.
pub proof fn one_description_in_use(st: IcacheState, a: u64, b: u64)
    requires
        valid(st),
        st.live.contains_key(a),
        st.live.contains_key(b),
        st.live[a].ino != 0,
        st.live[a].mount_id == st.live[b].mount_id,
        st.live[a].ino == st.live[b].ino,
    ensures
        a == b,
{
    let i = choose|i: int|
        0 <= i < st.entries.len() && #[trigger] st.entries[i] == (IcacheEntry {
            mount_id: st.live[a].mount_id,
            ino: st.live[a].ino,
            handle: a,
        });
    let j = choose|j: int|
        0 <= j < st.entries.len() && #[trigger] st.entries[j] == (IcacheEntry {
            mount_id: st.live[b].mount_id,
            ino: st.live[b].ino,
            handle: b,
        });
    if i < j {
        assert(!(st.entries[i].mount_id == st.entries[j].mount_id && st.entries[i].ino
            == st.entries[j].ino));
    } else if j < i {
        assert(!(st.entries[j].mount_id == st.entries[i].mount_id && st.entries[j].ino
            == st.entries[i].ino));
    }
}

proof fn lemma_entry_at(es: Seq<IcacheEntry>, m: usize, ino: u64, i: int)
    requires
        i >= 0,
    ensures
        entry_at(es, m, ino, i) matches Some(k) ==> i <= k < es.len() && es[k].mount_id == m
            && es[k].ino == ino,
        entry_at(es, m, ino, i) is None ==> forall|j: int|
            i <= j < es.len() ==> !((#[trigger] es[j]).mount_id == m && es[j].ino == ino),
    decreases es.len() - i,
{
    if i < es.len() {
        lemma_entry_at(es, m, ino, i + 1);
    }
}

proof fn lemma_swept(es: Seq<IcacheEntry>, live: Map<u64, LiveView>, n: int)
    requires
        0 <= n <= es.len(),
        distinct(es),
    ensures
        distinct(swept(es, live, n)),
        forall|i: int|
            0 <= i < swept(es, live, n).len() ==> es.take(n).contains(
                #[trigger] swept(es, live, n)[i],
            ),
        forall|i: int|
            0 <= i < n && live.contains_key((#[trigger] es[i]).handle) ==> swept(
                es,
                live,
                n,
            ).contains(es[i]),
    decreases n,
{
    if n > 0 {
        lemma_swept(es, live, n - 1);
        let a = swept(es, live, n - 1);
        let b = swept(es, live, n);
        assert forall|i: int| 0 <= i < b.len() implies es.take(n).contains(#[trigger] b[i]) by {
            if i < a.len() {
                assert(b[i] == a[i]);
                let t = es.take(n - 1);
                let j = choose|j: int| 0 <= j < t.len() && t[j] == a[i];
                assert(es.take(n)[j] == b[i]);
            } else {
                assert(es.take(n)[n - 1] == b[i]);
            }
        }
        assert forall|i: int, j: int| 0 <= i < j < b.len() implies !((
        #[trigger] b[i]).mount_id == (#[trigger] b[j]).mount_id && b[i].ino == b[j].ino) by {
            if j < a.len() {
                assert(b[i] == a[i] && b[j] == a[j]);
            } else {
                assert(b[i] == a[i]);
                let t = es.take(n - 1);
                let x = choose|x: int| 0 <= x < t.len() && t[x] == a[i];
                assert(es[x] == b[i]);
                assert(b[j] == es[n - 1]);
            }
        }
        assert forall|i: int|
            0 <= i < n && live.contains_key((#[trigger] es[i]).handle) implies b.contains(
            es[i],
        ) by {
            if i < n - 1 {
                assert(a.contains(es[i]));
                let x = choose|x: int| 0 <= x < a.len() && a[x] == es[i];
                assert(b[x] == es[i]);
            } else {
                assert(b[b.len() - 1] == es[i]);
            }
        }
    }
}

/// Getting and releasing keep the files in use known once each, and what is got is the
/// file that was asked for.
pub proof fn getting_stays_valid(st: IcacheState, mount_id: usize, ino: u64, kind: FileKind)
    requires
        valid(st),
        st.next_handle < u64::MAX,
        forall|h: u64| #[trigger] st.live.contains_key(h) ==> st.live[h].users < u64::MAX,
    ensures
        valid(gotten(st, mount_id, ino, kind).0),
        ({
            let (s, h) = gotten(st, mount_id, ino, kind);
            &&& s.live.contains_key(h)
            &&& s.live[h].mount_id == mount_id
            &&& s.live[h].ino == ino
        }),
{
    let (s, h) = gotten(st, mount_id, ino, kind);
    let n = st.next_handle;
    if ino == 0 {
        assert forall|k: u64| #[trigger] s.live.contains_key(k) implies k < s.next_handle
            && s.live[k].users >= 1 && (s.live[k].ino != 0 ==> listed(
            s.entries,
            s.live[k],
            k,
        )) by {
            if k != n {
                assert(st.live.contains_key(k));
            }
        }
        assert forall|i: int| 0 <= i < s.entries.len() implies (
        #[trigger] s.entries[i]).handle < s.next_handle && (s.live.contains_key(
            s.entries[i].handle,
        ) ==> s.live[s.entries[i].handle].mount_id == s.entries[i].mount_id
            && s.live[s.entries[i].handle].ino == s.entries[i].ino) by {
            assert(st.entries[i].handle < n);
        }
    } else {
        lemma_entry_at(st.entries, mount_id, ino, 0);
        let at = entry_at(st.entries, mount_id, ino, 0);
        if at is Some && st.live.contains_key(st.entries[at->Some_0].handle) {
            let i = at->Some_0;
            let k = st.entries[i].handle;
            assert forall|x: u64| #[trigger] s.live.contains_key(x) implies x < s.next_handle
                && s.live[x].users >= 1 && (s.live[x].ino != 0 ==> listed(
                s.entries,
                s.live[x],
                x,
            )) by {
                assert(st.live.contains_key(x));
                if s.live[x].ino != 0 {
                    assert(listed(st.entries, st.live[x], x));
                    let y = choose|y: int|
                        0 <= y < st.entries.len() && #[trigger] st.entries[y] == (IcacheEntry {
                            mount_id: st.live[x].mount_id,
                            ino: st.live[x].ino,
                            handle: x,
                        });
                    assert(s.entries[y] == (IcacheEntry {
                        mount_id: s.live[x].mount_id,
                        ino: s.live[x].ino,
                        handle: x,
                    }));
                }
            }
            assert forall|y: int| 0 <= y < s.entries.len() implies (
            #[trigger] s.entries[y]).handle < s.next_handle && (s.live.contains_key(
                s.entries[y].handle,
            ) ==> s.live[s.entries[y].handle].mount_id == s.entries[y].mount_id
                && s.live[s.entries[y].handle].ino == s.entries[y].ino) by {
                assert(st.entries[y].handle < n);
            }
        } else {
            let es = if st.entries.len() >= SWEEP_THRESHOLD {
                swept(st.entries, st.live, st.entries.len() as int)
            } else {
                st.entries
            };
            lemma_swept(st.entries, st.live, st.entries.len() as int);
            assert(st.entries.take(st.entries.len() as int) =~= st.entries);
            assert(distinct(es));
            assert forall|y: int| 0 <= y < es.len() implies st.entries.contains(
                #[trigger] es[y],
            ) by {
                assert(st.entries.contains(es[y]));
            }
            lemma_entry_at(es, mount_id, ino, 0);
            let e = IcacheEntry { mount_id, ino, handle: n };
            lemma_entered(es, e);
            assert forall|x: u64| #[trigger] s.live.contains_key(x) implies x < s.next_handle
                && s.live[x].users >= 1 && (s.live[x].ino != 0 ==> listed(
                s.entries,
                s.live[x],
                x,
            )) by {
                if x == n {
                    let p = choose|p: int| 0 <= p < s.entries.len() && s.entries[p] == e;
                    assert(s.entries[p] == (IcacheEntry {
                        mount_id: s.live[x].mount_id,
                        ino: s.live[x].ino,
                        handle: x,
                    }));
                } else {
                    assert(st.live.contains_key(x));
                    if s.live[x].ino != 0 {
                        lemma_stays_listed(st, es, e, x);
                    }
                }
            }
            assert forall|y: int| 0 <= y < s.entries.len() implies (
            #[trigger] s.entries[y]).handle < s.next_handle && (s.live.contains_key(
                s.entries[y].handle,
            ) ==> s.live[s.entries[y].handle].mount_id == s.entries[y].mount_id
                && s.live[s.entries[y].handle].ino == s.entries[y].ino) by {
                if s.entries[y] != e {
                    assert(es.contains(s.entries[y]));
                    let z = choose|z: int| 0 <= z < es.len() && es[z] == s.entries[y];
                    assert(st.entries.contains(es[z]));
                    let w = choose|w: int| 0 <= w < st.entries.len() && st.entries[w] == es[z];
                    assert(st.entries[w].handle < n);
                }
            }
        }
    }
}

proof fn lemma_entered(es: Seq<IcacheEntry>, e: IcacheEntry)
    requires
        distinct(es),
    ensures
        distinct(entered(es, e)),
        entered(es, e).contains(e),
        forall|y: int|
            0 <= y < entered(es, e).len() ==> #[trigger] entered(es, e)[y] == e || es.contains(
                entered(es, e)[y],
            ),
        forall|x: IcacheEntry| #[trigger]
            es.contains(x) && !(x.mount_id == e.mount_id && x.ino == e.ino) ==> entered(
                es,
                e,
            ).contains(x),
{
    lemma_entry_at(es, e.mount_id, e.ino, 0);
    let t = entered(es, e);
    match entry_at(es, e.mount_id, e.ino, 0) {
        Some(i) => {
            assert(t[i] == e);
            assert forall|a: int, b: int| 0 <= a < b < t.len() implies !((
            #[trigger] t[a]).mount_id == (#[trigger] t[b]).mount_id && t[a].ino == t[b].ino) by {
                assert(es[a].mount_id == t[a].mount_id && es[a].ino == t[a].ino);
                assert(es[b].mount_id == t[b].mount_id && es[b].ino == t[b].ino);
            }
        },
        None => {
            assert(t[es.len() as int] == e);
            assert forall|a: int, b: int| 0 <= a < b < t.len() implies !((
            #[trigger] t[a]).mount_id == (#[trigger] t[b]).mount_id && t[a].ino == t[b].ino) by {
                assert(t[a] == es[a]);
                if b < es.len() {
                    assert(t[b] == es[b]);
                }
            }
        },
    }
    assert forall|y: int| 0 <= y < t.len() implies #[trigger] t[y] == e || es.contains(t[y]) by {
        if y < es.len() && t[y] != e {
            assert(es[y] == t[y]);
        }
    }
    assert forall|x: IcacheEntry| #[trigger]
        es.contains(x) && !(x.mount_id == e.mount_id && x.ino == e.ino) implies t.contains(
        x,
    ) by {
        let y = choose|y: int| 0 <= y < es.len() && es[y] == x;
        assert(t[y] == x);
    }
}

proof fn lemma_stays_listed(st: IcacheState, es: Seq<IcacheEntry>, e: IcacheEntry, h: u64)
    requires
        valid(st),
        st.live.contains_key(h),
        st.live[h].ino != 0,
        distinct(es),
        es == st.entries || es == swept(st.entries, st.live, st.entries.len() as int),
        match entry_at(st.entries, e.mount_id, e.ino, 0) {
            Some(i) => !st.live.contains_key(st.entries[i].handle),
            None => true,
        },
    ensures
        listed(entered(es, e), st.live[h], h),
{
    let x = IcacheEntry { mount_id: st.live[h].mount_id, ino: st.live[h].ino, handle: h };
    let y = choose|y: int| 0 <= y < st.entries.len() && #[trigger] st.entries[y] == x;
    lemma_swept(st.entries, st.live, st.entries.len() as int);
    assert(st.entries[y].handle == h);
    assert(es.contains(x)) by {
        if es == st.entries {
            assert(es[y] == x);
        }
    }
    lemma_entry_at(st.entries, e.mount_id, e.ino, 0);
    if x.mount_id == e.mount_id && x.ino == e.ino {
        let i = entry_at(st.entries, e.mount_id, e.ino, 0)->Some_0;
        assert(st.entries[y].mount_id == e.mount_id);
        if i < y {
            assert(!(st.entries[i].mount_id == st.entries[y].mount_id && st.entries[i].ino
                == st.entries[y].ino));
        } else if y < i {
            assert(!(st.entries[y].mount_id == st.entries[i].mount_id && st.entries[y].ino
                == st.entries[i].ino));
        }
    }
    lemma_entered(es, e);
    assert(entered(es, e).contains(x));
    let p = choose|p: int| 0 <= p < entered(es, e).len() && entered(es, e)[p] == x;
    assert(entered(es, e)[p] == x);
}

/// Getting a file leaves the pages held of every file in use as they are, and so does releasing
/// one that has other users. A file that comes into use has no page held.
pub proof fn held_pages_stay(
    st: IcacheState,
    mount_id: usize,
    ino: u64,
    kind: FileKind,
    h: u64,
    other: u64,
)
    requires
        valid(st),
        st.live.contains_key(h),
        st.live.contains_key(other),
    ensures
        ({
            let (s, k) = gotten(st, mount_id, ino, kind);
            &&& s.live.contains_key(other)
            &&& s.live[other].pages == st.live[other].pages
            &&& !st.live.contains_key(k) ==> s.live[k].pages == page_cache::no_pages()
        }),
        h != other || st.live[h].users > 1 ==> released(st, h).0.live.contains_key(other)
            && released(st, h).0.live[other].pages == st.live[other].pages,
{
    lemma_entry_at(st.entries, mount_id, ino, 0);
}

/// Releasing keeps the files in use known once each.
pub proof fn releasing_stays_valid(st: IcacheState, h: u64)
    requires
        valid(st),
        st.live.contains_key(h),
    ensures
        valid(released(st, h).0),
{
    let s = released(st, h).0;
    assert forall|x: u64| #[trigger] s.live.contains_key(x) implies x < s.next_handle
        && s.live[x].users >= 1 && (s.live[x].ino != 0 ==> listed(s.entries, s.live[x], x)) by {
        assert(st.live.contains_key(x));
        if s.live[x].ino != 0 {
            assert(listed(st.entries, st.live[x], x));
            let y = choose|y: int|
                0 <= y < st.entries.len() && #[trigger] st.entries[y] == (IcacheEntry {
                    mount_id: st.live[x].mount_id,
                    ino: st.live[x].ino,
                    handle: x,
                });
            assert(s.entries[y] == (IcacheEntry {
                mount_id: s.live[x].mount_id,
                ino: s.live[x].ino,
                handle: x,
            }));
        }
    }
    assert forall|y: int| 0 <= y < s.entries.len() implies (
    #[trigger] s.entries[y]).handle < s.next_handle && (s.live.contains_key(s.entries[y].handle)
        ==> s.live[s.entries[y].handle].mount_id == s.entries[y].mount_id
        && s.live[s.entries[y].handle].ino == s.entries[y].ino) by {
        assert(st.entries[y].handle < st.next_handle);
    }
}

// ---- Doing it -------------------------------------------------------------------------------

impl InodeCache {
    /// What holds between operations.
    pub open spec fn wf(&self) -> bool {
        valid(self@)
    }

    /// Whether there are handles and users left.
    pub open spec fn has_room(&self) -> bool {
        &&& self@.next_handle < u64::MAX
        &&& forall|h: u64| #[trigger] self@.live.contains_key(h) ==> self@.live[h].users < u64::MAX
    }

    /// No file in use.
    pub fn new() -> (r: InodeCache)
        ensures
            r.wf(),
            r@ == (IcacheState {
                entries: Seq::empty(),
                live: Map::empty(),
                next_handle: 0,
                orphans_marked: 0,
                orphans_dropped: 0,
            }),
    {
        let r = InodeCache {
            entries: Vec::new(),
            live: SortedMap::new(),
            next_handle: 0,
            orphans_marked: 0,
            orphans_dropped: 0,
        };
        assert(r@.entries =~= Seq::empty());
        assert(r@.live =~= Map::empty());
        r
    }

    fn find(&self, mount_id: usize, ino: u64) -> (r: Option<usize>)
        ensures
            match r {
                Some(i) => entry_at(self@.entries, mount_id, ino, 0) == Some(i as int) && i
                    < self.entries@.len(),
                None => entry_at(self@.entries, mount_id, ino, 0) is None,
            },
    {
        let mut i: usize = 0;
        while i < self.entries.len()
            invariant
                i <= self.entries@.len(),
                entry_at(self@.entries, mount_id, ino, 0) == entry_at(
                    self@.entries,
                    mount_id,
                    ino,
                    i as int,
                ),
            decreases self.entries@.len() - i,
        {
            if self.entries[i].mount_id == mount_id && self.entries[i].ino == ino {
                return Some(i);
            }
            i = i + 1;
        }
        None
    }

    fn sweep(&mut self)
        ensures
            final(self)@ == (IcacheState {
                entries: swept(
                    old(self)@.entries,
                    old(self)@.live,
                    old(self)@.entries.len() as int,
                ),
                ..old(self)@
            }),
    {
        let mut kept: Vec<IcacheEntry> = Vec::new();
        let mut i: usize = 0;
        while i < self.entries.len()
            invariant
                i <= self.entries@.len(),
                *self == *old(self),
                kept@ == swept(self@.entries, self@.live, i as int),
            decreases self.entries@.len() - i,
        {
            if self.live.contains_key(self.entries[i].handle) {
                kept.push(self.entries[i]);
            }
            i = i + 1;
        }
        self.entries = kept;
    }

    fn put(&mut self, h: u64, l: LiveInode)
        ensures
            final(self)@ == (IcacheState { live: old(self)@.live.insert(h, l@), ..old(self)@ }),
    {
        self.live.insert(h, l);
        assert(self@.live =~= old(self)@.live.insert(h, l@));
    }

    fn add_fresh(&mut self, mount_id: usize, ino: u64, kind: FileKind) -> (h: u64)
        requires
            old(self)@.next_handle < u64::MAX,
        ensures
            h == old(self)@.next_handle,
            final(self)@ == with_fresh(old(self)@, mount_id, ino, kind),
    {
        let h: u64 = self.next_handle;
        self.put(h, LiveInode { inode: VfsInode::new(mount_id, ino, kind), users: 1 });
        self.next_handle = h + 1;
        h
    }

    /// One more user of the file `ino` of a mount: of the description in use, or of a
    /// fresh one if there is none. A file without a number always gets a fresh one.
    pub fn get_or_insert(&mut self, mount_id: usize, ino: u64, kind: FileKind) -> (h: u64)
        requires
            old(self).wf(),
            old(self).has_room(),
        ensures
            final(self).wf(),
            (final(self)@, h) == gotten(old(self)@, mount_id, ino, kind),
    {
        let ghost st = self@;
        proof {
            getting_stays_valid(st, mount_id, ino, kind);
        }
        if ino == 0 {
            return self.add_fresh(mount_id, ino, kind);
        }
        match self.find(mount_id, ino) {
            Some(i) => {
                let k: u64 = self.entries[i].handle;
                match self.live.remove(k) {
                    Some(l) => {
                        assert(st.live.contains_key(k));
                        let n: u64 = l.users + 1;
                        let m = LiveInode { inode: l.inode, users: n };
                        self.put(k, m);
                        assert(self@.live =~= st.live.insert(k, m@));
                        assert(self@ =~= gotten(st, mount_id, ino, kind).0);
                        return k;
                    },
                    None => {
                        assert(self@.live =~= st.live);
                    },
                }
            },
            None => {},
        }
        assert(self@ =~= st);
        if self.entries.len() >= SWEEP_THRESHOLD {
            self.sweep();
        }
        let ghost es = self@.entries;
        let h: u64 = self.next_handle;
        let e = IcacheEntry { mount_id, ino, handle: h };
        match self.find(mount_id, ino) {
            Some(i) => {
                self.entries.set(i, e);
            },
            None => {
                self.entries.push(e);
            },
        }
        assert(self@.entries =~= entered(es, e));
        let g: u64 = self.add_fresh(mount_id, ino, kind);
        assert(self@ =~= gotten(st, mount_id, ino, kind).0);
        g
    }

    /// One user less of the file under `h`. When the last is gone, returns what is to be
    /// freed.
    pub fn release(&mut self, h: u64) -> (r: Option<EvictRequest>)
        requires
            old(self).wf(),
            old(self)@.live.contains_key(h),
        ensures
            final(self).wf(),
            (final(self)@, r) == released(old(self)@, h),
    {
        let ghost st = self@;
        proof {
            releasing_stays_valid(st, h);
        }
        match self.live.remove(h) {
            Some(l) => {
                if l.users > 1 {
                    let n: u64 = l.users - 1;
                    let m = LiveInode { inode: l.inode, users: n };
                    self.put(h, m);
                    assert(self@.live =~= st.live.insert(h, m@));
                    assert(self@ =~= released(st, h).0);
                    None
                } else {
                    let r = l.inode.on_release();
                    if r.is_some() {
                        self.orphans_dropped = self.orphans_dropped.wrapping_add(1);
                    }
                    assert(self@.live =~= st.live.remove(h));
                    assert(self@ =~= released(st, h).0);
                    r
                }
            },
            None => None,
        }
    }

    /// Notes that the file under `h` has lost its name.
    pub fn mark_orphan(&mut self, h: u64)
        requires
            old(self).wf(),
            old(self)@.live.contains_key(h),
        ensures
            final(self).wf(),
            final(self)@ == (IcacheState {
                live: old(self)@.live.insert(
                    h,
                    LiveView { orphan: true, ..old(self)@.live[h] },
                ),
                orphans_marked: crate::evict::counted(old(self)@.orphans_marked),
                ..old(self)@
            }),
    {
        let ghost st = self@;
        match self.live.remove(h) {
            Some(l) => {
                let mut m = l;
                m.inode.mark_orphan();
                self.put(h, m);
                self.orphans_marked = self.orphans_marked.wrapping_add(1);
                proof {
                    let v = LiveView { orphan: true, ..st.live[h] };
                    assert(self@.live =~= st.live.insert(h, v));
                    let s = self@;
                    assert forall|x: u64| #[trigger] s.live.contains_key(x) implies x
                        < s.next_handle && s.live[x].users >= 1 && (s.live[x].ino != 0 ==> listed(
                        s.entries,
                        s.live[x],
                        x,
                    )) by {
                        assert(st.live.contains_key(x));
                        if s.live[x].ino != 0 {
                            assert(listed(st.entries, st.live[x], x));
                            let y = choose|y: int|
                                0 <= y < st.entries.len() && #[trigger] st.entries[y] == (
                                IcacheEntry {
                                    mount_id: st.live[x].mount_id,
                                    ino: st.live[x].ino,
                                    handle: x,
                                });
                            assert(s.entries[y] == (IcacheEntry {
                                mount_id: s.live[x].mount_id,
                                ino: s.live[x].ino,
                                handle: x,
                            }));
                        }
                    }
                    assert forall|y: int| 0 <= y < s.entries.len() implies (
                    #[trigger] s.entries[y]).handle < s.next_handle && (s.live.contains_key(
                        s.entries[y].handle,
                    ) ==> s.live[s.entries[y].handle].mount_id == s.entries[y].mount_id
                        && s.live[s.entries[y].handle].ino == s.entries[y].ino) by {
                        assert(st.entries[y].handle < st.next_handle);
                    }
                }
            },
            None => {},
        }
    }
}

} // verus!
