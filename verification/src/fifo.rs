//! Named pipes: how their two ends meet.
//!
//! Opening for reading waits until a writer arrives, and opening for writing until a
//! reader does. What counts is that the peer has arrived, not that it is still there: one
//! that opened and closed again in the meantime has been met.
use vstd::prelude::*;
use crate::sorted::SortedMap;

verus! {

/// How a pipe is opened.
#[derive(Debug, Clone, Copy, PartialEq, Eq, Structural)]
pub enum OpenMode {
    ReadOnly,
    WriteOnly,
    ReadWrite,
}

impl OpenMode {
    /// Whether it reads.
    pub open spec fn reads(self) -> bool {
        !(self is WriteOnly)
    }

    /// Whether it writes.
    pub open spec fn writes(self) -> bool {
        !(self is ReadOnly)
    }

    /// Whether it reads.
    pub fn readable(&self) -> (r: bool)
        ensures
            r == self.reads(),
    {
        match self {
            OpenMode::WriteOnly => false,
            _ => true,
        }
    }

    /// Whether it writes.
    pub fn writable(&self) -> (r: bool)
        ensures
            r == self.writes(),
    {
        match self {
            OpenMode::ReadOnly => false,
            _ => true,
        }
    }
}

/// One incarnation of a named pipe: its open ends, whether the last writer has gone, and
/// whether each end has ever been opened.
#[derive(Debug, Clone, Copy, PartialEq, Eq, Structural)]
pub struct Fifo {
    pub readers: u64,
    pub writers: u64,
    pub closed: bool,
    pub reader_seen: bool,
    pub writer_seen: bool,
}

/// The pipe that belongs to a name: the mount, the file's number there, and the pipe. A
/// path would not do, since renaming moves the name and not the pipe.
#[derive(Debug, Clone, Copy, PartialEq, Eq, Structural)]
pub struct FifoEntry {
    pub mount_id: usize,
    pub ino: u64,
    pub pipe: u64,
}

/// The named pipes.
pub struct FifoRegistry {
    pub entries: Vec<FifoEntry>,
    pub pipes: SortedMap<Fifo>,
    pub next_pipe: u64,
}

/// The named pipes seen mathematically.
#[verifier::ext_equal]
pub struct FifoState {
    pub entries: Seq<FifoEntry>,
    pub pipes: Map<u64, Fifo>,
    pub next_pipe: u64,
}

impl View for FifoRegistry {
    type V = FifoState;

    open spec fn view(&self) -> FifoState {
        FifoState { entries: self.entries@, pipes: self.pipes@, next_pipe: self.next_pipe }
    }
}

/// Where an open stands.
#[derive(Debug, Clone, Copy, PartialEq, Eq, Structural)]
pub enum OpenStep {
    /// It is done.
    Open,
    /// It waits for its peer.
    Wait,
    /// Nobody reads, and it was not to wait.
    NoReader,
    /// Its thread was killed while it waited.
    Interrupted,
}

// ---- What the operations do ---------------------------------------------------------------

/// A pipe nobody has opened.
pub open spec fn unopened() -> Fifo {
    Fifo { readers: 0, writers: 0, closed: false, reader_seen: false, writer_seen: false }
}

/// Whether no end is open.
pub open spec fn idle(f: Fifo) -> bool {
    f.readers == 0 && f.writers == 0
}

/// One more end open. A writer ends the end-of-file that the one before left behind.
pub open spec fn attached(f: Fifo, mode: OpenMode) -> Fifo {
    Fifo {
        readers: if mode.reads() {
            (f.readers + 1) as u64
        } else {
            f.readers
        },
        writers: if mode.writes() {
            (f.writers + 1) as u64
        } else {
            f.writers
        },
        closed: f.closed && !mode.writes(),
        reader_seen: f.reader_seen || mode.reads(),
        writer_seen: f.writer_seen || mode.writes(),
    }
}

/// One less, not below 0.
pub open spec fn less(n: u64) -> u64 {
    if n == 0 {
        0
    } else {
        (n - 1) as u64
    }
}

/// One end less open. With the last writer comes the end-of-file.
pub open spec fn detached(f: Fifo, mode: OpenMode) -> Fifo {
    Fifo {
        readers: if mode.reads() {
            less(f.readers)
        } else {
            f.readers
        },
        writers: if mode.writes() {
            less(f.writers)
        } else {
            f.writers
        },
        closed: f.closed || mode.writes() && less(f.writers) == 0,
        ..f
    }
}

/// Whether the peer that an open waits for has arrived. Whoever opens both ends waits for
/// nobody.
pub open spec fn peer_seen(f: Fifo, mode: OpenMode) -> bool {
    match mode {
        OpenMode::ReadOnly => f.writer_seen,
        OpenMode::WriteOnly => f.reader_seen,
        OpenMode::ReadWrite => true,
    }
}

/// Where a name stands, from `i` on.
pub open spec fn entry_at(es: Seq<FifoEntry>, mount_id: usize, ino: u64, i: int) -> Option<int>
    decreases es.len() - i,
{
    if i >= es.len() {
        None
    } else if es[i].mount_id == mount_id && es[i].ino == ino {
        Some(i)
    } else {
        entry_at(es, mount_id, ino, i + 1)
    }
}

/// The pipe of a name: the one in use, or a fresh one if nobody has it open.
pub open spec fn incarnated(st: FifoState, mount_id: usize, ino: u64) -> (FifoState, u64) {
    let at = entry_at(st.entries, mount_id, ino, 0);
    let fresh = FifoEntry { mount_id, ino, pipe: st.next_pipe };
    let pipes = st.pipes.insert(st.next_pipe, unopened());
    let next_pipe = (st.next_pipe + 1) as u64;
    match at {
        Some(i) => if st.pipes.contains_key(st.entries[i].pipe) && !idle(
            st.pipes[st.entries[i].pipe],
        ) {
            (st, st.entries[i].pipe)
        } else {
            (
                FifoState { entries: st.entries.update(i, fresh), pipes, next_pipe },
                st.next_pipe,
            )
        },
        None => (
            FifoState { entries: st.entries.push(fresh), pipes, next_pipe },
            st.next_pipe,
        ),
    }
}

/// The state with a pipe changed.
pub open spec fn with_pipe(st: FifoState, id: u64, f: Fifo) -> FifoState {
    FifoState { pipes: st.pipes.insert(id, f), ..st }
}

/// An open begun: the pipe, and where it stands. One that is not to wait fails only if
/// its bytes would have nowhere to go.
pub open spec fn begun(
    st: FifoState,
    mount_id: usize,
    ino: u64,
    mode: OpenMode,
    nonblock: bool,
) -> (FifoState, u64, OpenStep) {
    let (s, id) = incarnated(st, mount_id, ino);
    let f = attached(s.pipes[id], mode);
    if peer_seen(f, mode) || nonblock && !mode.writes() {
        (with_pipe(s, id, f), id, OpenStep::Open)
    } else if nonblock {
        (with_pipe(s, id, detached(f, mode)), id, OpenStep::NoReader)
    } else {
        (with_pipe(s, id, f), id, OpenStep::Wait)
    }
}

/// An open that waited, woken.
pub open spec fn woken(st: FifoState, id: u64, mode: OpenMode, killed: bool) -> (
    FifoState,
    OpenStep,
) {
    if killed {
        (with_pipe(st, id, detached(st.pipes[id], mode)), OpenStep::Interrupted)
    } else if peer_seen(st.pipes[id], mode) {
        (st, OpenStep::Open)
    } else {
        (st, OpenStep::Wait)
    }
}

// ---- Laws -----------------------------------------------------------------------------------

/// What holds of the named pipes: pipe numbers are given out once, names stand once, and
/// every name has its pipe.
pub open spec fn valid(st: FifoState) -> bool {
    &&& forall|k: u64| #[trigger] st.pipes.contains_key(k) ==> k < st.next_pipe
    &&& forall|i: int|
        0 <= i < st.entries.len() ==> st.pipes.contains_key((#[trigger] st.entries[i]).pipe)
    &&& forall|i: int, j: int|
        0 <= i < j < st.entries.len() ==> !((#[trigger] st.entries[i]).mount_id == (
        #[trigger] st.entries[j]).mount_id && st.entries[i].ino == st.entries[j].ino)
}

/// Whether no pipe has as many ends open as can be counted, and there are pipe numbers
/// left.
pub open spec fn has_room(st: FifoState) -> bool {
    &&& st.next_pipe < u64::MAX
    &&& forall|k: u64| #[trigger]
        st.pipes.contains_key(k) ==> st.pipes[k].readers < u64::MAX && st.pipes[k].writers
            < u64::MAX
}

proof fn lemma_entry_at(es: Seq<FifoEntry>, m: usize, ino: u64, i: int)
    requires
        i >= 0,
    ensures
        entry_at(es, m, ino, i) matches Some(k) ==> i <= k < es.len() && es[k].mount_id == m
            && es[k].ino == ino,
        entry_at(es, m, ino, i) is None ==> forall|j: int|
            i <= j < es.len() ==> !((#[trigger] es[j]).mount_id == m && es[j].ino == ino),
    decreases es.len() - i,
{
    if i < es.len() {
        lemma_entry_at(es, m, ino, i + 1);
    }
}

/// A name leads to its pipe, and to the same one as long as somebody has it open.
pub proof fn name_keeps_its_pipe(st: FifoState, mount_id: usize, ino: u64)
    requires
        valid(st),
        st.next_pipe < u64::MAX,
    ensures
        ({
            let (s, id) = incarnated(st, mount_id, ino);
            &&& valid(s)
            &&& s.pipes.contains_key(id)
            &&& entry_at(s.entries, mount_id, ino, 0) is Some
            &&& s.entries[entry_at(s.entries, mount_id, ino, 0)->Some_0].pipe == id
            &&& forall|f: Fifo|
                !idle(f) ==> #[trigger] incarnated(with_pipe(s, id, f), mount_id, ino) == (
                    with_pipe(s, id, f),
                    id,
                )
        }),
{
    lemma_entry_at(st.entries, mount_id, ino, 0);
    let (s, id) = incarnated(st, mount_id, ino);
    lemma_entry_at(s.entries, mount_id, ino, 0);
    let at = entry_at(st.entries, mount_id, ino, 0);
    match at {
        Some(i) => {
            let k = entry_at(s.entries, mount_id, ino, 0);
            assert(s.entries[i].mount_id == mount_id && s.entries[i].ino == ino);
            assert(k is Some);
            let x = k->Some_0;
            assert(st.entries[x].mount_id == mount_id && st.entries[x].ino == ino);
            if x < i {
                assert(!(st.entries[x].mount_id == st.entries[i].mount_id && st.entries[x].ino
                    == st.entries[i].ino));
            } else if i < x {
                assert(!(st.entries[i].mount_id == st.entries[x].mount_id && st.entries[i].ino
                    == st.entries[x].ino));
            }
            assert forall|a: int, b: int| 0 <= a < b < s.entries.len() implies !((
            #[trigger] s.entries[a]).mount_id == (#[trigger] s.entries[b]).mount_id
                && s.entries[a].ino == s.entries[b].ino) by {
                assert(s.entries[a].mount_id == st.entries[a].mount_id && s.entries[a].ino
                    == st.entries[a].ino);
                assert(s.entries[b].mount_id == st.entries[b].mount_id && s.entries[b].ino
                    == st.entries[b].ino);
            }
            assert forall|a: int| 0 <= a < s.entries.len() implies s.pipes.contains_key(
                (#[trigger] s.entries[a]).pipe,
            ) by {
                assert(st.pipes.contains_key(st.entries[a].pipe));
            }
        },
        None => {
            let n = st.entries.len() as int;
            assert(s.entries[n].mount_id == mount_id && s.entries[n].ino == ino);
            let k = entry_at(s.entries, mount_id, ino, 0);
            assert(k is Some);
            let x = k->Some_0;
            if x < n {
                assert(s.entries[x] == st.entries[x]);
            }
            assert forall|a: int, b: int| 0 <= a < b < s.entries.len() implies !((
            #[trigger] s.entries[a]).mount_id == (#[trigger] s.entries[b]).mount_id
                && s.entries[a].ino == s.entries[b].ino) by {
                assert(s.entries[a] == st.entries[a]);
                if b < n {
                    assert(s.entries[b] == st.entries[b]);
                }
            }
            assert forall|a: int| 0 <= a < s.entries.len() implies s.pipes.contains_key(
                (#[trigger] s.entries[a]).pipe,
            ) by {
                if a < n {
                    assert(s.entries[a] == st.entries[a]);
                    assert(st.pipes.contains_key(st.entries[a].pipe));
                }
            }
        },
    }
}

/// A reader that waits is let through by the next writer, which does not wait itself; and
/// the same the other way round.
pub proof fn ends_meet(st: FifoState, mount_id: usize, ino: u64, writer_first: bool)
    requires
        valid(st),
        has_room(st),
        begun(
            st,
            mount_id,
            ino,
            if writer_first {
                OpenMode::WriteOnly
            } else {
                OpenMode::ReadOnly
            },
            false,
        ).2 == OpenStep::Wait,
    ensures
        ({
            let first = if writer_first {
                OpenMode::WriteOnly
            } else {
                OpenMode::ReadOnly
            };
            let second = if writer_first {
                OpenMode::ReadOnly
            } else {
                OpenMode::WriteOnly
            };
            let (s1, id1, _) = begun(st, mount_id, ino, first, false);
            let (s2, id2, step) = begun(s1, mount_id, ino, second, false);
            &&& id2 == id1
            &&& step == OpenStep::Open
            &&& woken(s2, id1, first, false).1 == OpenStep::Open
        }),
{
    let first = if writer_first {
        OpenMode::WriteOnly
    } else {
        OpenMode::ReadOnly
    };
    name_keeps_its_pipe(st, mount_id, ino);
    let (s, id) = incarnated(st, mount_id, ino);
    let f = attached(s.pipes[id], first);
    if st.pipes.contains_key(id) {
        assert(id < st.next_pipe);
    }
    assert(!idle(f));
    assert(incarnated(with_pipe(s, id, f), mount_id, ino) == (with_pipe(s, id, f), id));
}

/// A peer that came and went while an open waited has been met all the same.
pub proof fn peer_that_left_was_met(f: Fifo, mode: OpenMode, peer: OpenMode)
    ensures
        peer_seen(f, mode) ==> peer_seen(detached(f, peer), mode),
        mode != peer ==> peer_seen(detached(attached(f, peer), peer), mode),
{
}

// ---- Doing it -------------------------------------------------------------------------------

impl FifoRegistry {
    /// What holds between operations.
    pub open spec fn wf(&self) -> bool {
        valid(self@)
    }

    /// No named pipes.
    pub fn new() -> (r: FifoRegistry)
        ensures
            r.wf(),
            r@ == (FifoState { entries: Seq::empty(), pipes: Map::empty(), next_pipe: 0 }),
    {
        let r = FifoRegistry { entries: Vec::new(), pipes: SortedMap::new(), next_pipe: 0 };
        assert(r@.entries =~= Seq::empty());
        r
    }

    fn find(&self, mount_id: usize, ino: u64) -> (r: Option<usize>)
        ensures
            match r {
                Some(i) => entry_at(self@.entries, mount_id, ino, 0) == Some(i as int) && i
                    < self.entries@.len(),
                None => entry_at(self@.entries, mount_id, ino, 0) is None,
            },
    {
        let mut i: usize = 0;
        while i < self.entries.len()
            invariant
                i <= self.entries@.len(),
                entry_at(self@.entries, mount_id, ino, 0) == entry_at(
                    self@.entries,
                    mount_id,
                    ino,
                    i as int,
                ),
            decreases self.entries@.len() - i,
        {
            if self.entries[i].mount_id == mount_id && self.entries[i].ino == ino {
                return Some(i);
            }
            i = i + 1;
        }
        None
    }

    /// The pipe of a name, a fresh one if nobody has it open: its contents go with the
    /// last who closes it.
    pub fn incarnation(&mut self, mount_id: usize, ino: u64) -> (id: u64)
        requires
            old(self).wf(),
            old(self)@.next_pipe < u64::MAX,
        ensures
            final(self).wf(),
            final(self)@.pipes.contains_key(id),
            (final(self)@, id) == incarnated(old(self)@, mount_id, ino),
    {
        let ghost st = self@;
        proof {
            name_keeps_its_pipe(st, mount_id, ino);
        }
        let at = self.find(mount_id, ino);
        match at {
            Some(i) => {
                let k: u64 = self.entries[i].pipe;
                let used: bool = match self.pipes.get(k) {
                    Some(f) => !(f.readers == 0 && f.writers == 0),
                    None => false,
                };
                if used {
                    return k;
                }
            },
            None => {},
        }
        let id: u64 = self.next_pipe;
        self.pipes.insert(
            id,
            Fifo {
                readers: 0,
                writers: 0,
                closed: false,
                reader_seen: false,
                writer_seen: false,
            },
        );
        let e = FifoEntry { mount_id, ino, pipe: id };
        match at {
            Some(i) => {
                self.entries.set(i, e);
            },
            None => {
                self.entries.push(e);
            },
        }
        self.next_pipe = id + 1;
        assert(self@ =~= incarnated(st, mount_id, ino).0);
        id
    }

    /// Forgets a name. Whoever has the pipe open keeps it.
    pub fn forget(&mut self, mount_id: usize, ino: u64)
        requires
            old(self).wf(),
        ensures
            final(self).wf(),
            final(self)@ == (match entry_at(old(self)@.entries, mount_id, ino, 0) {
                Some(i) => FifoState { entries: old(self)@.entries.remove(i), ..old(self)@ },
                None => old(self)@,
            }),
    {
        let ghost st = self@;
        match self.find(mount_id, ino) {
            Some(i) => {
                self.entries.remove(i);
                proof {
                    let s = self@;
                    assert(s.entries =~= st.entries.remove(i as int));
                    assert forall|a: int, b: int| 0 <= a < b < s.entries.len() implies !((
                    #[trigger] s.entries[a]).mount_id == (#[trigger] s.entries[b]).mount_id
                        && s.entries[a].ino == s.entries[b].ino) by {
                        assert(s.entries[a] == st.entries[if a < i { a } else { a + 1 }]);
                        assert(s.entries[b] == st.entries[if b < i { b } else { b + 1 }]);
                    }
                    assert forall|a: int| 0 <= a < s.entries.len() implies s.pipes.contains_key(
                        (#[trigger] s.entries[a]).pipe,
                    ) by {
                        let x = if a < i {
                            a
                        } else {
                            a + 1
                        };
                        assert(s.entries[a] == st.entries[x]);
                    }
                }
            },
            None => {},
        }
    }

    fn put(&mut self, id: u64, f: Fifo)
        requires
            old(self).wf(),
            old(self)@.pipes.contains_key(id),
        ensures
            final(self).wf(),
            final(self)@ == with_pipe(old(self)@, id, f),
    {
        self.pipes.insert(id, f);
        assert(self@ =~= with_pipe(old(self)@, id, f));
        assert forall|a: int| 0 <= a < self@.entries.len() implies self@.pipes.contains_key(
            (#[trigger] self@.entries[a]).pipe,
        ) by {
            assert(old(self)@.pipes.contains_key(old(self)@.entries[a].pipe));
        }
    }

    fn attach(f: Fifo, mode: OpenMode) -> (r: Fifo)
        requires
            f.readers < u64::MAX,
            f.writers < u64::MAX,
        ensures
            r == attached(f, mode),
    {
        let mut g = f;
        if mode.readable() {
            g.readers = g.readers + 1;
            g.reader_seen = true;
        }
        if mode.writable() {
            g.writers = g.writers + 1;
            g.closed = false;
            g.writer_seen = true;
        }
        g
    }

    fn detach(f: Fifo, mode: OpenMode) -> (r: Fifo)
        ensures
            r == detached(f, mode),
    {
        let mut g = f;
        if mode.readable() && g.readers > 0 {
            g.readers = g.readers - 1;
        }
        if mode.writable() {
            if g.writers > 0 {
                g.writers = g.writers - 1;
            }
            if g.writers == 0 {
                g.closed = true;
            }
        }
        g
    }

    fn has_peer(f: &Fifo, mode: OpenMode) -> (r: bool)
        ensures
            r == peer_seen(*f, mode),
    {
        match mode {
            OpenMode::ReadOnly => f.writer_seen,
            OpenMode::WriteOnly => f.reader_seen,
            OpenMode::ReadWrite => true,
        }
    }

    /// Begins to open the pipe of a name. Returns the pipe and whether the open is done,
    /// waits for its peer or is refused.
    pub fn open(&mut self, mount_id: usize, ino: u64, mode: OpenMode, nonblock: bool) -> (r: (
        u64,
        OpenStep,
    ))
        requires
            old(self).wf(),
            has_room(old(self)@),
        ensures
            final(self).wf(),
            (final(self)@, r.0, r.1) == begun(old(self)@, mount_id, ino, mode, nonblock),
    {
        let ghost st = self@;
        let id: u64 = self.incarnation(mount_id, ino);
        let f: Fifo = match self.pipes.get(id) {
            Some(f) => *f,
            None => {
                return (id, OpenStep::Open);
            },
        };
        proof {
            if st.pipes.contains_key(id) {
                assert(id < st.next_pipe);
            }
        }
        let g = Self::attach(f, mode);
        if Self::has_peer(&g, mode) {
            self.put(id, g);
            return (id, OpenStep::Open);
        }
        if nonblock {
            if mode.writable() {
                let h = Self::detach(g, mode);
                self.put(id, h);
                return (id, OpenStep::NoReader);
            }
            self.put(id, g);
            return (id, OpenStep::Open);
        }
        self.put(id, g);
        (id, OpenStep::Wait)
    }

    /// Takes in that a waiting open was woken, or that its thread was killed.
    pub fn resume(&mut self, id: u64, mode: OpenMode, killed: bool) -> (r: OpenStep)
        requires
            old(self).wf(),
            old(self)@.pipes.contains_key(id),
        ensures
            final(self).wf(),
            (final(self)@, r) == woken(old(self)@, id, mode, killed),
    {
        let f: Fifo = match self.pipes.get(id) {
            Some(f) => *f,
            None => {
                return OpenStep::Wait;
            },
        };
        if killed {
            let g = Self::detach(f, mode);
            self.put(id, g);
            return OpenStep::Interrupted;
        }
        if Self::has_peer(&f, mode) {
            OpenStep::Open
        } else {
            OpenStep::Wait
        }
    }

    /// Closes an end.
    pub fn close(&mut self, id: u64, mode: OpenMode)
        requires
            old(self).wf(),
            old(self)@.pipes.contains_key(id),
        ensures
            final(self).wf(),
            final(self)@ == with_pipe(old(self)@, id, detached(old(self)@.pipes[id], mode)),
    {
        match self.pipes.get(id) {
            Some(f) => {
                let g = Self::detach(*f, mode);
                self.put(id, g);
            },
            None => {},
        }
    }
}

} // verus!
