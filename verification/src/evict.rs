//! Freeing what nameless files hold, later and elsewhere.
//!
//! Whoever releases the last reference to a nameless file posts a request here; one
//! thread of its own carries the requests out. The queue is bounded. When it is full, a
//! request of the reaper, which must not block, goes to a list without bound, and any
//! other thread has to carry its request out itself.
use vstd::prelude::*;
use crossbeam_queue::ArrayQueue;

verus! {

/// How many requests the queue holds.
pub const EVICT_QUEUE_CAP: usize = 256;

/// One in how many requests carried out by their posters is worth a line in the log.
pub const EVICT_FALLBACK_LOG_INTERVAL: u64 = 512;

// ---- The queue --------------------------------------------------------------------------

/// The bounded queue of `crossbeam_queue`.
#[verifier::external_type_specification]
#[verifier::external_body]
#[verifier::reject_recursive_types(T)]
pub struct ExArrayQueue<T>(ArrayQueue<T>);

/// What a queue holds, oldest first.
pub uninterp spec fn queue_items(q: ArrayQueue<(u64, u64)>) -> Seq<(u64, u64)>;

/// How many items a queue can hold.
pub uninterp spec fn queue_capacity(q: ArrayQueue<(u64, u64)>) -> nat;

/// Wraps `ArrayQueue::new`: an empty queue for `cap` items. A capacity of zero, or one
/// that does not fit in memory, is not for it.
#[verifier::external_body]
fn queue_new(cap: usize) -> (r: ArrayQueue<(u64, u64)>)
    requires
        0 < cap <= 65536,
    ensures
        queue_items(r) == Seq::<(u64, u64)>::empty(),
        queue_capacity(r) == cap,
{
    ArrayQueue::new(cap)
}

/// Wraps `ArrayQueue::push`, called by the queue's only user: the item goes to the end,
/// unless the queue is full, which leaves it as it was.
#[verifier::external_body]
fn queue_push(q: &mut ArrayQueue<(u64, u64)>, item: (u64, u64)) -> (r: bool)
    ensures
        queue_capacity(*final(q)) == queue_capacity(*old(q)),
        r == (queue_items(*old(q)).len() < queue_capacity(*old(q))),
        queue_items(*final(q)) == (if r {
            queue_items(*old(q)).push(item)
        } else {
            queue_items(*old(q))
        }),
{
    q.push(item).is_ok()
}

/// Wraps `ArrayQueue::pop`, called by the queue's only user: takes the oldest item out,
/// if there is one.
#[verifier::external_body]
fn queue_pop(q: &mut ArrayQueue<(u64, u64)>) -> (r: Option<(u64, u64)>)
    ensures
        queue_capacity(*final(q)) == queue_capacity(*old(q)),
        match r {
            Some(x) => queue_items(*old(q)).len() > 0 && x == queue_items(*old(q))[0]
                && queue_items(*final(q)) == queue_items(*old(q)).skip(1),
            None => queue_items(*old(q)).len() == 0 && queue_items(*final(q)) == queue_items(
                *old(q),
            ),
        },
{
    q.pop()
}

/// Wraps `ArrayQueue::is_empty`: whether the queue holds nothing.
#[verifier::external_body]
fn queue_is_empty(q: &ArrayQueue<(u64, u64)>) -> (r: bool)
    ensures
        r == (queue_items(*q).len() == 0),
{
    q.is_empty()
}

/// Wraps `ArrayQueue::is_full`: whether the queue holds all it can.
#[verifier::external_body]
fn queue_is_full(q: &ArrayQueue<(u64, u64)>) -> (r: bool)
    ensures
        r == (queue_items(*q).len() >= queue_capacity(*q)),
{
    q.is_full()
}

// ---- Requests ---------------------------------------------------------------------------

/// A file to free: the mount it lives on and its number there.
#[derive(Debug, Clone, Copy, PartialEq, Eq, Structural)]
pub struct EvictRequest {
    pub mount_id: usize,
    pub ino: u64,
}

/// The requests that wait, and what has become of others.
pub struct Evictor {
    ring: ArrayQueue<(u64, u64)>,
    overflow: Vec<EvictRequest>,
    /// The thread that carries requests out, 0 before it starts.
    thread: u64,
    /// Requests that thread carried out.
    drained: u64,
    /// Requests that went to the list without bound.
    deferred: u64,
    /// Requests their posters carried out.
    fallbacks: u64,
}

/// The requests that wait and what has become of others, seen mathematically.
#[verifier::ext_equal]
pub struct EvictState {
    pub ring: Seq<EvictRequest>,
    pub overflow: Seq<EvictRequest>,
    /// The thread that carries requests out, 0 before it starts.
    pub thread: u64,
    /// Requests that thread carried out.
    pub drained: u64,
    /// Requests that went to the list without bound.
    pub deferred: u64,
    /// Requests their posters carried out.
    pub fallbacks: u64,
}

/// The requests that the queue's items stand for.
pub open spec fn requests(items: Seq<(u64, u64)>) -> Seq<EvictRequest> {
    items.map_values(|x: (u64, u64)| EvictRequest { mount_id: x.0 as usize, ino: x.1 })
}

impl View for Evictor {
    type V = EvictState;

    closed spec fn view(&self) -> EvictState {
        EvictState {
            ring: requests(queue_items(self.ring)),
            overflow: self.overflow@,
            thread: self.thread,
            drained: self.drained,
            deferred: self.deferred,
            fallbacks: self.fallbacks,
        }
    }
}

/// What the poster of a request is to do.
#[derive(Debug, Clone, Copy, PartialEq, Eq, Structural)]
pub enum EvictAction {
    /// Wake the thread that carries requests out.
    Wake,
    /// Carry the request out.
    EvictNow,
}

/// One more, 0 after the largest number.
pub open spec fn counted(n: u64) -> u64 {
    if n == u64::MAX {
        0
    } else {
        (n + 1) as u64
    }
}

/// Whether the queue is full.
pub open spec fn full(st: EvictState) -> bool {
    st.ring.len() >= EVICT_QUEUE_CAP
}

/// A request posted: to the queue, to the list if the queue is full and the poster is the
/// reaper, else back to the poster.
pub open spec fn posted(st: EvictState, req: EvictRequest, reaper: bool) -> (
    EvictState,
    EvictAction,
) {
    if !full(st) {
        (EvictState { ring: st.ring.push(req), ..st }, EvictAction::Wake)
    } else if reaper {
        (
            EvictState {
                overflow: st.overflow.push(req),
                deferred: counted(st.deferred),
                ..st
            },
            EvictAction::Wake,
        )
    } else {
        (st, EvictAction::EvictNow)
    }
}

/// Whether a request waits.
pub open spec fn waits(st: EvictState, req: EvictRequest) -> bool {
    st.ring.contains(req) || st.overflow.contains(req)
}

/// No request is lost: it waits or its poster carries it out, and what waited before
/// still waits.
pub proof fn posting_loses_nothing(st: EvictState, req: EvictRequest, reaper: bool)
    ensures
        posted(st, req, reaper).1 == EvictAction::EvictNow || waits(posted(st, req, reaper).0, req),
        forall|x: EvictRequest| #[trigger] waits(st, x) ==> waits(posted(st, req, reaper).0, x),
        reaper ==> posted(st, req, reaper).1 == EvictAction::Wake,
{
    let s = posted(st, req, reaper).0;
    if !full(st) {
        assert(s.ring[st.ring.len() as int] == req);
    } else if reaper {
        assert(s.overflow[st.overflow.len() as int] == req);
    }
    assert forall|x: EvictRequest| #[trigger] waits(st, x) implies waits(s, x) by {
        if st.ring.contains(x) {
            let i = choose|i: int| 0 <= i < st.ring.len() && st.ring[i] == x;
            assert(s.ring[i] == x);
        } else {
            let i = choose|i: int| 0 <= i < st.overflow.len() && st.overflow[i] == x;
            assert(s.overflow[i] == x);
        }
    }
}

impl Evictor {
    /// What holds between operations.
    pub closed spec fn wf(&self) -> bool {
        queue_capacity(self.ring) == EVICT_QUEUE_CAP
    }

    /// Nothing to do, and nobody to do it yet.
    pub fn new() -> (r: Evictor)
        ensures
            r.wf(),
            r@ == (EvictState {
                ring: Seq::empty(),
                overflow: Seq::empty(),
                thread: 0,
                drained: 0,
                deferred: 0,
                fallbacks: 0,
            }),
    {
        let r = Evictor {
            ring: queue_new(EVICT_QUEUE_CAP),
            overflow: Vec::new(),
            thread: 0,
            drained: 0,
            deferred: 0,
            fallbacks: 0,
        };
        assert(r@.ring =~= Seq::empty());
        assert(r@.overflow =~= Seq::empty());
        r
    }

    /// Says which thread carries requests out.
    pub fn started(&mut self, thread: u64)
        requires
            old(self).wf(),
        ensures
            final(self).wf(),
            final(self)@ == (EvictState { thread, ..old(self)@ }),
    {
        self.thread = thread;
    }

    /// Whether a thread is the one that carries requests out. No thread has number 0.
    pub fn current_thread_is_evict_kthread(&self, current: u64) -> (r: bool)
        ensures
            r == (current != 0 && current == self@.thread),
    {
        current != 0 && current == self.thread
    }

    /// Posts a request. The thread that carries requests out cannot post to a full queue:
    /// it would have to wait for itself.
    pub fn post_evict(&mut self, req: EvictRequest, current: u64, reaper: bool) -> (r: EvictAction)
        requires
            old(self).wf(),
            full(old(self)@) ==> current == 0 || current != old(self)@.thread,
        ensures
            final(self).wf(),
            (final(self)@, r) == posted(old(self)@, req, reaper),
    {
        let ghost st = self@;
        if queue_push(&mut self.ring, (req.mount_id as u64, req.ino)) {
            assert(self@ =~= (EvictState { ring: st.ring.push(req), ..st }));
            return EvictAction::Wake;
        }
        if reaper {
            self.deferred = self.deferred.wrapping_add(1);
            self.overflow.push(req);
            assert(self@ =~= posted(st, req, reaper).0);
            return EvictAction::Wake;
        }
        EvictAction::EvictNow
    }

    /// Whether the queue is full, which the thread that carries requests out has to know
    /// before it posts.
    pub fn is_full(&self) -> (r: bool)
        requires
            self.wf(),
        ensures
            r == full(self@),
    {
        queue_is_full(&self.ring)
    }

    /// Counts a request that its poster carries out. Returns how many there were before.
    pub fn note_fallback(&mut self) -> (n: u64)
        requires
            old(self).wf(),
        ensures
            final(self).wf(),
            n == old(self)@.fallbacks,
            final(self)@ == (EvictState {
                fallbacks: counted(old(self)@.fallbacks),
                ..old(self)@
            }),
    {
        let n: u64 = self.fallbacks;
        self.fallbacks = self.fallbacks.wrapping_add(1);
        n
    }

    /// Whether nothing waits.
    pub fn is_idle(&self) -> (r: bool)
        ensures
            r == (self@.ring.len() == 0 && self@.overflow.len() == 0),
    {
        queue_is_empty(&self.ring) && self.overflow.len() == 0
    }

    /// Takes the whole list without bound, which is older than the queue.
    pub fn take_overflow(&mut self) -> (r: Vec<EvictRequest>)
        requires
            old(self).wf(),
        ensures
            final(self).wf(),
            r@ == old(self)@.overflow,
            final(self)@ == (EvictState { overflow: Seq::empty(), ..old(self)@ }),
    {
        let mut taken: Vec<EvictRequest> = Vec::new();
        std::mem::swap(&mut taken, &mut self.overflow);
        assert(self@ =~= (EvictState { overflow: Seq::empty(), ..old(self)@ }));
        taken
    }

    /// Takes the oldest request out of the queue.
    pub fn pop(&mut self) -> (r: Option<EvictRequest>)
        requires
            old(self).wf(),
        ensures
            final(self).wf(),
            match r {
                Some(x) => old(self)@.ring.len() > 0 && x == old(self)@.ring[0] && final(self)@
                    == (EvictState { ring: old(self)@.ring.skip(1), ..old(self)@ }),
                None => old(self)@.ring.len() == 0 && final(self)@ == old(self)@,
            },
    {
        let ghost st = self@;
        match queue_pop(&mut self.ring) {
            Some(x) => {
                assert(self@ =~= (EvictState { ring: st.ring.skip(1), ..st }));
                Some(EvictRequest { mount_id: x.0 as usize, ino: x.1 })
            },
            None => {
                assert(self@ =~= st);
                None
            },
        }
    }

    /// Everything that waits, in the order in which it is carried out: the list without
    /// bound, then the queue.
    pub fn drain(&mut self) -> (r: Vec<EvictRequest>)
        requires
            old(self).wf(),
        ensures
            final(self).wf(),
            r@ == old(self)@.overflow + old(self)@.ring,
            final(self)@ == (EvictState {
                ring: Seq::empty(),
                overflow: Seq::empty(),
                ..old(self)@
            }),
    {
        let ghost st = self@;
        let mut out = self.take_overflow();
        let mut more: bool = true;
        while more
            invariant
                self.wf(),
                self@ == (EvictState { ring: self@.ring, overflow: Seq::empty(), ..st }),
                out@ + self@.ring == st.overflow + st.ring,
                !more ==> self@.ring.len() == 0,
            decreases self@.ring.len() + (if more { 1int } else { 0int }),
        {
            let ghost ring = self@.ring;
            let ghost before = out@;
            match self.pop() {
                Some(x) => {
                    out.push(x);
                    assert(out@ + self@.ring =~= before + ring);
                },
                None => {
                    more = false;
                },
            }
        }
        assert(self@ =~= (EvictState { ring: Seq::empty(), overflow: Seq::empty(), ..st }));
        assert(out@ =~= st.overflow + st.ring);
        out
    }

    /// Takes in whether a request could be carried out; counts it if so.
    pub fn evicted(&mut self, ok: bool)
        requires
            old(self).wf(),
        ensures
            final(self).wf(),
            final(self)@ == (if ok {
                EvictState { drained: counted(old(self)@.drained), ..old(self)@ }
            } else {
                old(self)@
            }),
    {
        if ok {
            self.drained = self.drained.wrapping_add(1);
        }
    }

    /// How many requests have been carried out.
    pub fn evict_kthread_drain_count(&self) -> (r: u64)
        ensures
            r == self@.drained,
    {
        self.drained
    }
}

/// Whether a request that its poster carried out is worth a line in the log: always if it
/// failed, else now and then.
pub fn log_fallback(n: u64, failed: bool) -> (r: bool)
    ensures
        r == (failed || n % EVICT_FALLBACK_LOG_INTERVAL == 0),
{
    failed || n % EVICT_FALLBACK_LOG_INTERVAL == 0
}

} // verus!
