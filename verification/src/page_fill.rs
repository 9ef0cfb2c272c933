//! Filling a page once, however many readers want it.
//!
//! The first reader that misses a page publishes a fill for it; those that come while it
//! is under way wait for it. A fill is marked as over before it is taken out of the list
//! of fills under way.
use vstd::prelude::*;
use crate::block_device::PAGE_SIZE;
use crate::error::Error;
use crate::page_cache;
use crate::page_cache::{CachedPage, CachedView, InodePages, PagesView};
use crate::sorted::SortedMap;

verus! {

/// The fill is under way; readers wait.
pub const FILL_PENDING: u8 = 0;

/// The fill worked; the page is held.
pub const FILL_SUCCESS: u8 = 1;

/// The fill did not work; the next reader tries again.
pub const FILL_FAILED: u8 = 2;

/// A fill of the pages from `page_idx` to `page_idx + len`.
pub struct PageFillHandle {
    pub page_idx: u64,
    pub len: u32,
    pub state: u8,
    /// The threads that wait for the end of it.
    pub waiters: Vec<u64>,
}

/// A fill seen mathematically.
#[verifier::ext_equal]
pub struct HandleView {
    pub page_idx: u64,
    pub len: u32,
    pub state: u8,
    pub waiters: Seq<u64>,
}

impl View for PageFillHandle {
    type V = HandleView;

    open spec fn view(&self) -> HandleView {
        HandleView {
            page_idx: self.page_idx,
            len: self.len,
            state: self.state,
            waiters: self.waiters@,
        }
    }
}

/// The fill ended in `state`, its waiters woken.
pub open spec fn ended(h: HandleView, state: u8) -> HandleView {
    HandleView { state, waiters: Seq::empty(), ..h }
}

impl PageFillHandle {
    /// A fill under way.
    pub fn new(page_idx: u64, len: u32) -> (r: PageFillHandle)
        ensures
            r@ == (HandleView { page_idx, len, state: FILL_PENDING, waiters: Seq::empty() }),
    {
        let r = PageFillHandle { page_idx, len, state: FILL_PENDING, waiters: Vec::new() };
        assert(r@ =~= (HandleView {
            page_idx,
            len,
            state: FILL_PENDING,
            waiters: Seq::empty(),
        }));
        r
    }

    fn wake_all(&mut self) -> (r: Vec<u64>)
        ensures
            r@ == old(self)@.waiters,
            final(self)@ == (HandleView { waiters: Seq::empty(), ..old(self)@ }),
    {
        let mut woken: Vec<u64> = Vec::new();
        std::mem::swap(&mut woken, &mut self.waiters);
        assert(self@ =~= (HandleView { waiters: Seq::empty(), ..old(self)@ }));
        woken
    }

    /// Marks the fill as done. Returns the threads to wake.
    pub fn finish_success(&mut self) -> (r: Vec<u64>)
        ensures
            final(self)@ == ended(old(self)@, FILL_SUCCESS),
            r@ == old(self)@.waiters,
    {
        self.state = FILL_SUCCESS;
        self.wake_all()
    }

    /// Marks the fill as failed. Returns the threads to wake.
    pub fn finish_failed(&mut self) -> (r: Vec<u64>)
        ensures
            final(self)@ == ended(old(self)@, FILL_FAILED),
            r@ == old(self)@.waiters,
    {
        self.state = FILL_FAILED;
        self.wake_all()
    }

    /// How far the fill has got.
    pub fn load_state(&self) -> (r: u8)
        ensures
            r == self.state,
    {
        self.state
    }

    /// Marks the fill as failed, unless it is over already. Returns the threads to wake.
    pub fn cancel(&mut self) -> (r: Vec<u64>)
        ensures
            final(self)@ == ended(
                old(self)@,
                if old(self).state == FILL_PENDING {
                    FILL_FAILED
                } else {
                    old(self).state
                },
            ),
            r@ == old(self)@.waiters,
    {
        if self.state == FILL_PENDING {
            self.state = FILL_FAILED;
        }
        self.wake_all()
    }
}

/// The fills of a file's pages, by number.
pub struct Fills {
    pub handles: SortedMap<PageFillHandle>,
    pub next_handle: u64,
}

/// Fills seen mathematically.
#[verifier::ext_equal]
pub struct FillsView {
    pub handles: Map<u64, HandleView>,
    pub next_handle: u64,
}

impl View for Fills {
    type V = FillsView;

    open spec fn view(&self) -> FillsView {
        FillsView {
            handles: self.handles@.map_values(|h: PageFillHandle| h@),
            next_handle: self.next_handle,
        }
    }
}

/// What is in flight once fill `h` over `len` pages from `page_idx` on is taken out. Only
/// its own entries go: a later fill of the same page stays.
pub open spec fn taken_out(m: Map<u64, u64>, h: u64, page_idx: int, len: int) -> Map<u64, u64> {
    m.remove_keys(
        Set::new(|k: u64| m.contains_key(k) && m[k] == h && page_idx <= k < page_idx + len),
    )
}

/// Takes fill `h` out of what is in flight.
pub fn in_flight_remove_all(pages: &mut InodePages, h: u64, page_idx: u64, len: u32)
    ensures
        final(pages)@ == (PagesView {
            in_flight: taken_out(old(pages)@.in_flight, h, page_idx as int, len as int),
            ..old(pages)@
        }),
{
    let ghost m = pages@.in_flight;
    let mut i: u32 = 0;
    assert(taken_out(m, h, page_idx as int, 0) =~= m);
    while i < len && i as u64 <= u64::MAX - page_idx
        invariant
            i <= len,
            m == old(pages)@.in_flight,
            pages@ == (PagesView {
                in_flight: taken_out(m, h, page_idx as int, i as int),
                ..old(pages)@
            }),
        decreases len - i,
    {
        let k: u64 = page_idx + i as u64;
        let own: bool = match pages.in_flight.get(k) {
            Some(x) => *x == h,
            None => false,
        };
        if own {
            pages.in_flight.remove(k);
        }
        i = i + 1;
        assert(pages@.in_flight =~= taken_out(m, h, page_idx as int, i as int));
        assert(pages@ =~= (PagesView {
            in_flight: taken_out(m, h, page_idx as int, i as int),
            ..old(pages)@
        }));
    }
    assert(taken_out(m, h, page_idx as int, i as int) =~= taken_out(
        m,
        h,
        page_idx as int,
        len as int,
    ));
}

// ---- The steps of a reader ------------------------------------------------------------

/// Where a reader of a page stands.
#[derive(Clone, Copy, PartialEq, Eq, Structural)]
pub enum FillStage {
    /// It has not looked yet.
    Start,
    /// It waits for somebody else's fill.
    Waiting(u64),
    /// It published a fill and has it registered with its thread, so that the fill is
    /// cancelled should the thread die.
    Registering(u64),
    /// It wants memory for its fill.
    Allocating(u64),
    /// It fills.
    Filling(u64),
    /// It wants memory for a fill that nobody knows of.
    AllocatingInline,
    /// It fills without anybody knowing.
    FillingInline,
    /// It is through.
    Over,
}

/// What a reader learns.
pub enum FillEvent {
    Begin,
    /// The fill it waited for is over.
    Woken,
    /// Whether the fill could be registered.
    Registered(bool),
    /// Whether there was memory.
    Allocated(bool),
    /// What the file system put into the page.
    Filled(Result<Vec<u8>, Error>),
}

/// What a reader is to do.
#[derive(Clone, Copy, PartialEq, Eq, Structural)]
pub enum FillAction {
    /// Use the page, which is held.
    UsePage,
    /// Wait until the fill is over.
    Wait(u64),
    /// Register the fill.
    Register(u64),
    /// Get memory for a page.
    Allocate,
    /// Have the page filled.
    Fill,
    /// Report the error.
    Fail(Error),
}

/// Whether an event can come at a stage.
pub open spec fn expected(stage: FillStage, event: FillEvent) -> bool {
    match (stage, event) {
        (FillStage::Start, FillEvent::Begin) => true,
        (FillStage::Waiting(_), FillEvent::Woken) => true,
        (FillStage::Registering(_), FillEvent::Registered(_)) => true,
        (FillStage::Allocating(_), FillEvent::Allocated(_)) => true,
        (FillStage::AllocatingInline, FillEvent::Allocated(_)) => true,
        (FillStage::Filling(_), FillEvent::Filled(r)) => r matches Ok(v) ==> v@.len()
            == PAGE_SIZE,
        (FillStage::FillingInline, FillEvent::Filled(r)) => r matches Ok(v) ==> v@.len()
            == PAGE_SIZE,
        _ => false,
    }
}

/// The held pages, the fills, the reader's stage and what it does next.
#[verifier::ext_equal]
pub struct Outcome {
    pub pages: PagesView,
    pub fills: FillsView,
    pub stage: FillStage,
    pub action: FillAction,
}

/// A reader looks for the page: it uses it if it is held, waits if it is being filled,
/// and publishes a fill otherwise.
pub open spec fn looked(p: PagesView, f: FillsView, idx: u64) -> Outcome {
    if p.pages.contains_key(idx) {
        Outcome { pages: p, fills: f, stage: FillStage::Over, action: FillAction::UsePage }
    } else if p.in_flight.contains_key(idx) {
        let h = p.in_flight[idx];
        Outcome { pages: p, fills: f, stage: FillStage::Waiting(h), action: FillAction::Wait(h) }
    } else if f.next_handle == u64::MAX {
        Outcome {
            pages: p,
            fills: f,
            stage: FillStage::AllocatingInline,
            action: FillAction::Allocate,
        }
    } else {
        let h = f.next_handle;
        Outcome {
            pages: PagesView { in_flight: p.in_flight.insert(idx, h), ..p },
            fills: FillsView {
                handles: f.handles.insert(
                    h,
                    HandleView {
                        page_idx: idx,
                        len: 1,
                        state: FILL_PENDING,
                        waiters: Seq::empty(),
                    },
                ),
                next_handle: (h + 1) as u64,
            },
            stage: FillStage::Registering(h),
            action: FillAction::Register(h),
        }
    }
}

/// The fills with `h` over in `state`.
pub open spec fn over(f: FillsView, h: u64, state: u8) -> FillsView {
    FillsView {
        handles: if f.handles.contains_key(h) {
            f.handles.insert(h, ended(f.handles[h], state))
        } else {
            f.handles
        },
        ..f
    }
}

/// Fill `h` over in `state` and taken out.
pub open spec fn settled(p: PagesView, f: FillsView, h: u64, idx: u64, state: u8) -> (
    PagesView,
    FillsView,
) {
    (
        PagesView { in_flight: taken_out(p.in_flight, h, idx as int, 1), ..p },
        over(f, h, state),
    )
}

/// The page held, unless it was already.
pub open spec fn held(p: PagesView, idx: u64, data: Seq<u8>) -> PagesView {
    if p.pages.contains_key(idx) {
        p
    } else {
        PagesView {
            pages: p.pages.insert(idx, CachedView { data, dirty: false, pin_count: 0 }),
            ..p
        }
    }
}

/// What an event leads to.
pub open spec fn next(
    p: PagesView,
    f: FillsView,
    idx: u64,
    stage: FillStage,
    event: FillEvent,
) -> Outcome {
    match (stage, event) {
        (FillStage::Registering(h), FillEvent::Registered(ok)) => if ok {
            Outcome {
                pages: p,
                fills: f,
                stage: FillStage::Allocating(h),
                action: FillAction::Allocate,
            }
        } else {
            Outcome {
                pages: PagesView { in_flight: taken_out(p.in_flight, h, idx as int, 1), ..p },
                fills: f,
                stage: FillStage::AllocatingInline,
                action: FillAction::Allocate,
            }
        },
        (FillStage::Allocating(h), FillEvent::Allocated(ok)) => if ok {
            Outcome {
                pages: p,
                fills: f,
                stage: FillStage::Filling(h),
                action: FillAction::Fill,
            }
        } else {
            let (q, g) = settled(p, f, h, idx, FILL_FAILED);
            Outcome {
                pages: q,
                fills: g,
                stage: FillStage::Over,
                action: FillAction::Fail(Error::IoError),
            }
        },
        (FillStage::AllocatingInline, FillEvent::Allocated(ok)) => Outcome {
            pages: p,
            fills: f,
            stage: if ok {
                FillStage::FillingInline
            } else {
                FillStage::Over
            },
            action: if ok {
                FillAction::Fill
            } else {
                FillAction::Fail(Error::IoError)
            },
        },
        (FillStage::Filling(h), FillEvent::Filled(r)) => match r {
            Ok(v) => {
                let (q, g) = settled(held(p, idx, v@), f, h, idx, FILL_SUCCESS);
                Outcome {
                    pages: q,
                    fills: g,
                    stage: FillStage::Over,
                    action: FillAction::UsePage,
                }
            },
            Err(e) => {
                let (q, g) = settled(p, f, h, idx, FILL_FAILED);
                Outcome {
                    pages: q,
                    fills: g,
                    stage: FillStage::Over,
                    action: FillAction::Fail(e),
                }
            },
        },
        (FillStage::FillingInline, FillEvent::Filled(r)) => match r {
            Ok(v) => Outcome {
                pages: held(p, idx, v@),
                fills: f,
                stage: FillStage::Over,
                action: FillAction::UsePage,
            },
            Err(e) => Outcome {
                pages: p,
                fills: f,
                stage: FillStage::Over,
                action: FillAction::Fail(e),
            },
        },
        _ => looked(p, f, idx),
    }
}

// ---- Laws -----------------------------------------------------------------------------

/// What holds of fills and pages: what is in flight is under way and covers its page, and
/// numbers are given out once.
pub open spec fn orderly(p: PagesView, f: FillsView) -> bool {
    &&& forall|k: u64| #[trigger]
        p.in_flight.contains_key(k) ==> f.handles.contains_key(p.in_flight[k])
            && f.handles[p.in_flight[k]].state == FILL_PENDING
            && f.handles[p.in_flight[k]].page_idx <= k < f.handles[p.in_flight[k]].page_idx
            + f.handles[p.in_flight[k]].len
    &&& forall|h: u64| #[trigger] f.handles.contains_key(h) ==> h < f.next_handle
}

/// Whether a reader of page `idx` may be at a stage: a fill it published is its own, of
/// that page alone.
pub open spec fn may_be_at(f: FillsView, idx: u64, stage: FillStage) -> bool {
    match stage {
        FillStage::Registering(h) | FillStage::Allocating(h) | FillStage::Filling(h) => {
            &&& f.handles.contains_key(h)
            &&& f.handles[h].page_idx == idx
            &&& f.handles[h].len == 1
        },
        _ => true,
    }
}

/// No step leaves a fill in flight that is over: a fill ends before it is taken out, and
/// with it everything that waits for it. Held pages stay whole and listed.
pub proof fn steps_stay_orderly(
    p: PagesView,
    f: FillsView,
    idx: u64,
    stage: FillStage,
    event: FillEvent,
)
    requires
        page_cache::sound(p),
        orderly(p, f),
        expected(stage, event),
        may_be_at(f, idx, stage),
    ensures
        ({
            let o = next(p, f, idx, stage, event);
            &&& page_cache::sound(o.pages)
            &&& orderly(o.pages, o.fills)
            &&& may_be_at(o.fills, idx, o.stage)
            &&& o.action == FillAction::UsePage ==> o.pages.pages.contains_key(idx)
        }),
{
    let o = next(p, f, idx, stage, event);
    assert(page_cache::sound(o.pages)) by {
        assert forall|k: u64| #[trigger] o.pages.pages.contains_key(
            k,
        ) implies o.pages.pages[k].data.len() == PAGE_SIZE && (o.pages.pages[k].dirty
            ==> o.pages.dirty.contains(k)) by {
            if k != idx {
                assert(p.pages.contains_key(k));
            }
        }
    }
    assert(orderly(o.pages, o.fills)) by {
        assert forall|k: u64| #[trigger] o.pages.in_flight.contains_key(k) implies {
            let h = o.pages.in_flight[k];
            o.fills.handles.contains_key(h) && o.fills.handles[h].state == FILL_PENDING
                && o.fills.handles[h].page_idx <= k < o.fills.handles[h].page_idx
                + o.fills.handles[h].len
        } by {
            if p.in_flight.contains_key(k) {
                assert(f.handles.contains_key(p.in_flight[k]));
            }
        }
    }
}

/// Once a fill is published, every other reader waits for it rather than filling too.
pub proof fn one_fill_at_a_time(p: PagesView, f: FillsView, idx: u64)
    requires
        looked(p, f, idx).stage is Registering,
    ensures
        ({
            let o = looked(p, f, idx);
            looked(o.pages, o.fills, idx).action == FillAction::Wait(f.next_handle)
        }),
{
}

// ---- Doing it -------------------------------------------------------------------------

impl Fills {
    /// No fills.
    pub fn new() -> (r: Fills)
        ensures
            r@ == (FillsView { handles: Map::empty(), next_handle: 0 }),
    {
        let r = Fills { handles: SortedMap::new(), next_handle: 0 };
        assert(r@ =~= (FillsView { handles: Map::empty(), next_handle: 0 }));
        r
    }

    /// Puts a fill under number `h`.
    fn put(&mut self, h: u64, x: PageFillHandle)
        ensures
            final(self)@ == (FillsView { handles: old(self)@.handles.insert(h, x@), ..old(self)@ }),
    {
        self.handles.insert(h, x);
        assert(self@ =~= (FillsView {
            handles: old(self)@.handles.insert(h, x@),
            ..old(self)@
        }));
    }

    /// Has a thread wait for a fill.
    pub fn join(&mut self, h: u64, thread: u64)
        ensures
            final(self)@ == (if old(self)@.handles.contains_key(h) {
                FillsView {
                    handles: old(self)@.handles.insert(
                        h,
                        HandleView {
                            waiters: old(self)@.handles[h].waiters.push(thread),
                            ..old(self)@.handles[h]
                        },
                    ),
                    ..old(self)@
                }
            } else {
                old(self)@
            }),
    {
        let ghost st = self@;
        match self.handles.remove(h) {
            Some(x) => {
                let mut y = x;
                y.waiters.push(thread);
                self.put(h, y);
                assert(self@.handles =~= st.handles.insert(
                    h,
                    HandleView { waiters: st.handles[h].waiters.push(thread), ..st.handles[h] },
                ));
            },
            None => {
                assert(self@ =~= st);
            },
        }
    }

    /// Ends fill `h`. Returns the threads to wake.
    fn end(&mut self, h: u64, ok: bool) -> (r: Vec<u64>)
        ensures
            final(self)@ == over(
                old(self)@,
                h,
                if ok {
                    FILL_SUCCESS
                } else {
                    FILL_FAILED
                },
            ),
            r@ == (if old(self)@.handles.contains_key(h) {
                old(self)@.handles[h].waiters
            } else {
                Seq::empty()
            }),
    {
        let ghost st = self@;
        match self.handles.remove(h) {
            Some(x) => {
                let mut y = x;
                let woken = if ok {
                    y.finish_success()
                } else {
                    y.finish_failed()
                };
                self.put(h, y);
                assert(self@.handles =~= st.handles.insert(h, y@));
                woken
            },
            None => {
                assert(self@ =~= st);
                let none: Vec<u64> = Vec::new();
                assert(none@ =~= Seq::empty());
                none
            },
        }
    }
}

/// Looks for a page.
fn look(pages: &mut InodePages, fills: &mut Fills, idx: u64) -> (r: (FillStage, FillAction))
    ensures
        (Outcome { pages: final(pages)@, fills: final(fills)@, stage: r.0, action: r.1 })
            == looked(old(pages)@, old(fills)@, idx),
{
    if pages.pages.contains_key(idx) {
        return (FillStage::Over, FillAction::UsePage);
    }
    let other: Option<u64> = match pages.in_flight.get(idx) {
        Some(h) => Some(*h),
        None => None,
    };
    match other {
        Some(h) => {
            return (FillStage::Waiting(h), FillAction::Wait(h));
        },
        None => {},
    }
    if fills.next_handle == u64::MAX {
        return (FillStage::AllocatingInline, FillAction::Allocate);
    }
    let h: u64 = fills.next_handle;
    fills.put(h, PageFillHandle::new(idx, 1));
    fills.next_handle = h + 1;
    pages.in_flight.insert(idx, h);
    proof {
        let o = looked(old(pages)@, old(fills)@, idx);
        assert(pages@ =~= o.pages);
        assert(fills@ =~= o.fills);
    }
    (FillStage::Registering(h), FillAction::Register(h))
}

/// Holds a page, unless it is held already.
fn hold(pages: &mut InodePages, idx: u64, data: Vec<u8>)
    ensures
        final(pages)@ == held(old(pages)@, idx, data@),
{
    if !pages.pages.contains_key(idx) {
        pages.put(idx, CachedPage::new(data));
    }
}

/// Takes a reader of page `page_idx` one step further: it uses the page if it is held,
/// waits for a fill under way, and otherwise publishes a fill of its own, which it ends
/// before taking it out. Returns its next stage, what it is to do, and the threads to
/// wake.
pub fn get_or_fill_async_sync(
    pages: &mut InodePages,
    fills: &mut Fills,
    page_idx: u64,
    stage: FillStage,
    event: FillEvent,
) -> (r: (FillStage, FillAction, Vec<u64>))
    requires
        old(pages).wf(),
        orderly(old(pages)@, old(fills)@),
        expected(stage, event),
        may_be_at(old(fills)@, page_idx, stage),
    ensures
        final(pages).wf(),
        orderly(final(pages)@, final(fills)@),
        may_be_at(final(fills)@, page_idx, r.0),
        (Outcome { pages: final(pages)@, fills: final(fills)@, stage: r.0, action: r.1 }) == next(
            old(pages)@,
            old(fills)@,
            page_idx,
            stage,
            event,
        ),
        r.2@ == (match (stage, event) {
            (FillStage::Allocating(h), FillEvent::Allocated(false)) => old(
                fills,
            )@.handles[h].waiters,
            (FillStage::Filling(h), FillEvent::Filled(_)) => old(fills)@.handles[h].waiters,
            _ => Seq::<u64>::empty(),
        }),
{
    proof {
        steps_stay_orderly(pages@, fills@, page_idx, stage, event);
    }
    let none: Vec<u64> = Vec::new();
    assert(none@ =~= Seq::<u64>::empty());
    match (stage, event) {
        (FillStage::Registering(h), FillEvent::Registered(ok)) => {
            if ok {
                (FillStage::Allocating(h), FillAction::Allocate, none)
            } else {
                in_flight_remove_all(pages, h, page_idx, 1);
                (FillStage::AllocatingInline, FillAction::Allocate, none)
            }
        },
        (FillStage::Allocating(h), FillEvent::Allocated(ok)) => {
            if ok {
                (FillStage::Filling(h), FillAction::Fill, none)
            } else {
                let woken = fills.end(h, false);
                in_flight_remove_all(pages, h, page_idx, 1);
                (FillStage::Over, FillAction::Fail(Error::IoError), woken)
            }
        },
        (FillStage::AllocatingInline, FillEvent::Allocated(ok)) => {
            if ok {
                (FillStage::FillingInline, FillAction::Fill, none)
            } else {
                (FillStage::Over, FillAction::Fail(Error::IoError), none)
            }
        },
        (FillStage::Filling(h), FillEvent::Filled(reply)) => {
            match reply {
                Ok(v) => {
                    hold(pages, page_idx, v);
                    let woken = fills.end(h, true);
                    in_flight_remove_all(pages, h, page_idx, 1);
                    (FillStage::Over, FillAction::UsePage, woken)
                },
                Err(e) => {
                    let woken = fills.end(h, false);
                    in_flight_remove_all(pages, h, page_idx, 1);
                    (FillStage::Over, FillAction::Fail(e), woken)
                },
            }
        },
        (FillStage::FillingInline, FillEvent::Filled(reply)) => {
            match inline_fill_no_handle(pages, page_idx, reply) {
                Ok(_) => (FillStage::Over, FillAction::UsePage, none),
                Err(e) => (FillStage::Over, FillAction::Fail(e), none),
            }
        },
        _ => {
            let (s, a) = look(pages, fills, page_idx);
            (s, a, none)
        },
    }
}

/// Takes in what a fill that nobody knows of came to. A page that somebody else brought in
/// the meantime stays.
pub fn inline_fill_no_handle(
    pages: &mut InodePages,
    page_idx: u64,
    reply: Result<Vec<u8>, Error>,
) -> (r: Result<(), Error>)
    ensures
        match reply {
            Ok(v) => r is Ok && final(pages)@ == held(old(pages)@, page_idx, v@),
            Err(e) => r == Err::<(), Error>(e) && *final(pages) == *old(pages),
        },
{
    match reply {
        Ok(v) => {
            hold(pages, page_idx, v);
            Ok(())
        },
        Err(e) => Err(e),
    }
}

/// Cancels fill `h`, as when the thread that published it dies. It counts as failed
/// unless it is over, and is taken out. Returns the threads to wake.
pub fn cancel_fill(pages: &mut InodePages, fills: &mut Fills, h: u64) -> (r: Vec<u64>)
    requires
        old(pages).wf(),
        orderly(old(pages)@, old(fills)@),
        old(fills)@.handles.contains_key(h),
    ensures
        final(pages).wf(),
        orderly(final(pages)@, final(fills)@),
        final(pages)@ == (PagesView {
            in_flight: taken_out(
                old(pages)@.in_flight,
                h,
                old(fills)@.handles[h].page_idx as int,
                old(fills)@.handles[h].len as int,
            ),
            ..old(pages)@
        }),
        final(fills)@ == (FillsView {
            handles: old(fills)@.handles.insert(
                h,
                ended(
                    old(fills)@.handles[h],
                    if old(fills)@.handles[h].state == FILL_PENDING {
                        FILL_FAILED
                    } else {
                        old(fills)@.handles[h].state
                    },
                ),
            ),
            ..old(fills)@
        }),
        r@ == old(fills)@.handles[h].waiters,
{
    let ghost p = pages@;
    let ghost f = fills@;
    match fills.handles.remove(h) {
        Some(x) => {
            let mut y = x;
            let page_idx: u64 = y.page_idx;
            let len: u32 = y.len;
            let woken = y.cancel();
            fills.put(h, y);
            assert(fills@.handles =~= f.handles.insert(h, y@));
            in_flight_remove_all(pages, h, page_idx, len);
            proof {
                assert forall|k: u64| #[trigger] pages@.in_flight.contains_key(k) implies {
                    let g = pages@.in_flight[k];
                    fills@.handles.contains_key(g) && fills@.handles[g].state == FILL_PENDING
                        && fills@.handles[g].page_idx <= k < fills@.handles[g].page_idx
                        + fills@.handles[g].len
                } by {
                    assert(p.in_flight.contains_key(k));
                    assert(f.handles.contains_key(p.in_flight[k]));
                }
                assert(page_cache::sound(pages@));
            }
            woken
        },
        None => Vec::new(),
    }
}

} // verus!
