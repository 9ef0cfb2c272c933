//! Waiting for readiness.
use vstd::prelude::*;
use crate::types;
use crate::types::PollState;

verus! {

/// What names a registration with a device.
pub type PollKey = u64;

/// One descriptor of a poll call: what the caller wants to know of, and what the device
/// said last, as bits.
#[derive(Debug, Clone, Copy, PartialEq, Eq, Structural)]
pub struct PollSlot {
    pub interests: PollState,
    pub state: u8,
}

/// Every descriptor of one poll call, in the caller's order, and whether something the
/// caller waits for has happened since it last looked.
pub struct PollSet {
    pub pending: bool,
    pub slots: Vec<PollSlot>,
}

/// A slot that nothing has been said of.
pub open spec fn quiet(interests: PollState) -> PollSlot {
    PollSlot { interests, state: 0 }
}

/// Whether a state is one that somebody with these interests waits for.
pub open spec fn relevant(state: PollState, interests: PollState) -> bool {
    if types::no_interest(interests) {
        !types::no_interest(state)
    } else {
        types::overlap(state, interests)
    }
}

impl PollSet {
    /// A set with one slot for each descriptor.
    pub fn new(interests: &[PollState]) -> (r: PollSet)
        ensures
            !r.pending,
            r.slots@ == interests@.map_values(|i: PollState| quiet(i)),
    {
        let mut slots: Vec<PollSlot> = Vec::new();
        let mut i: usize = 0;
        while i < interests.len()
            invariant
                i <= interests@.len(),
                slots@.len() == i,
                forall|j: int| 0 <= j < i ==> slots@[j] == quiet(interests@[j]),
            decreases interests@.len() - i,
        {
            slots.push(PollSlot { interests: interests[i], state: 0 });
            i = i + 1;
        }
        assert(slots@ =~= interests@.map_values(|i: PollState| quiet(i)));
        PollSet { pending: false, slots }
    }

    /// What the device of a slot said last.
    pub fn state(&self, slot: usize) -> (r: PollState)
        requires
            slot < self.slots@.len(),
        ensures
            r == types::poll_flags(self.slots@[slot as int].state),
    {
        PollState::from_bits(self.slots[slot].state)
    }

    /// Starts waiting anew. Returns whether something had happened.
    pub fn arm(&mut self) -> (r: bool)
        ensures
            r == old(self).pending,
            !final(self).pending,
            final(self).slots == old(self).slots,
    {
        let was: bool = self.pending;
        self.pending = false;
        was
    }
}

/// A device's hold on one descriptor of a poll call.
#[derive(Debug, Clone, Copy, PartialEq, Eq, Structural)]
pub struct PollRef {
    pub slot: usize,
}

/// The set after a device has said `state` of a slot: the caller is notified if it waits
/// for that.
pub open spec fn told(pending: bool, slots: Seq<PollSlot>, slot: int, state: PollState) -> (
    bool,
    Seq<PollSlot>,
) {
    (
        pending || relevant(state, slots[slot].interests),
        slots.update(slot, PollSlot { state: types::poll_bits(state), ..slots[slot] }),
    )
}

/// What a device says of a slot is what the slot then shows; no other slot changes.
pub proof fn told_is_shown(pending: bool, slots: Seq<PollSlot>, slot: int, state: PollState)
    requires
        0 <= slot < slots.len(),
    ensures
        types::poll_flags(told(pending, slots, slot, state).1[slot].state) == state,
        forall|i: int|
            0 <= i < slots.len() && i != slot ==> told(pending, slots, slot, state).1[i]
                == slots[i],
        told(pending, slots, slot, state).1[slot].interests == slots[slot].interests,
{
    types::poll_bits_round_trip(state, 0);
}

impl PollRef {
    /// A hold on a slot.
    pub fn new(slot: usize) -> (r: PollRef)
        ensures
            r.slot == slot,
    {
        PollRef { slot }
    }

    /// What the caller wants to know of.
    pub fn interests(&self, set: &PollSet) -> (r: PollState)
        requires
            self.slot < set.slots@.len(),
        ensures
            r == set.slots@[self.slot as int].interests,
    {
        set.slots[self.slot].interests
    }

    /// Says what the device is ready for, and notifies the caller if it waits for that.
    pub fn update(&self, set: &mut PollSet, state: PollState)
        requires
            self.slot < old(set).slots@.len(),
        ensures
            (final(set).pending, final(set).slots@) == told(
                old(set).pending,
                old(set).slots@,
                self.slot as int,
                state,
            ),
    {
        let interests: PollState = set.slots[self.slot].interests;
        set.slots.set(self.slot, PollSlot { interests, state: state.to_bits() });
        if state.matches(interests) {
            set.pending = true;
        }
    }
}

/// What a device answers to a registration. Without a key its readiness never changes
/// and there is nothing to take back.
#[derive(Debug, Clone, Copy, PartialEq, Eq, Structural)]
pub struct PollRegistration {
    pub initial: PollState,
    pub key: Option<PollKey>,
}

/// Something whose readiness can be waited for.
pub trait Pollable: Sized {
    /// What holds between calls.
    spec fn poll_inv(&self) -> bool;

    /// Takes in one more hold, and says what the device is ready for now.
    fn register(&mut self, set: &mut PollSet, entry: PollRef) -> (r: PollRegistration)
        requires
            old(self).poll_inv(),
            entry.slot < old(set).slots@.len(),
        ensures
            final(self).poll_inv(),
            final(set).slots@.len() == old(set).slots@.len(),
    ;

    /// Gives a hold back.
    fn unregister(&mut self, key: PollKey)
        requires
            old(self).poll_inv(),
        ensures
            final(self).poll_inv(),
        default_ensures
            *final(self) == *old(self),
    {
    }
}

/// Something that never blocks: its readiness is fixed.
pub struct StaticPoll {
    pub state: PollState,
}

impl StaticPoll {
    /// Always ready for `state`.
    pub fn new(state: PollState) -> (r: StaticPoll)
        ensures
            r.state == state,
    {
        StaticPoll { state }
    }

    /// Always ready in both directions, as a regular file is.
    pub fn ready() -> (r: StaticPoll)
        ensures
            r.state == (PollState {
                readable: true,
                writable: true,
                error: false,
                hangup: false,
                invalid: false,
            }),
    {
        StaticPoll {
            state: PollState {
                readable: true,
                writable: true,
                error: false,
                hangup: false,
                invalid: false,
            },
        }
    }
}

impl Pollable for StaticPoll {
    open spec fn poll_inv(&self) -> bool {
        true
    }

    fn register(&mut self, set: &mut PollSet, entry: PollRef) -> (r: PollRegistration)
        ensures
            *final(self) == *old(self),
            r == (PollRegistration { initial: old(self).state, key: None }),
            (final(set).pending, final(set).slots@) == told(
                old(set).pending,
                old(set).slots@,
                entry.slot as int,
                old(self).state,
            ),
    {
        entry.update(set, self.state);
        PollRegistration { initial: self.state, key: None }
    }
}

} // verus!
