//! Bounded fan-out over the chunks of one operation: which chunk to request
//! next, how many requests are in flight, and where each result goes.
//!
//! Every chunk has a slot at its position. Results are put into the slot of
//! their chunk, so the order of the results is the order of the chunks
//! whatever the order in which the requests complete.

use crate::error::Error;
use vstd::prelude::*;
use vstd::slice::slice_to_vec;

verus! {

/// The most requests a session keeps in flight unless told otherwise.
pub const DEFAULT_FAN_OUT: usize = 16;

/// Where one chunk stands.
#[derive(Debug, PartialEq, Eq)]
pub enum Slot {
    /// Not requested yet, or to be requested again.
    Waiting,
    /// Requested, not answered yet.
    InFlight,
    /// Answered with these bytes.
    Done(Vec<u8>),
    /// Given up.
    Failed,
}

/// The mathematical content of a [`Slot`].
pub enum SlotView {
    Waiting,
    InFlight,
    Done(Seq<u8>),
    Failed,
}

impl View for Slot {
    type V = SlotView;

    open spec fn view(&self) -> SlotView {
        match self {
            Slot::Waiting => SlotView::Waiting,
            Slot::InFlight => SlotView::InFlight,
            Slot::Done(bytes) => SlotView::Done(bytes@),
            Slot::Failed => SlotView::Failed,
        }
    }
}

/// The mathematical content of a [`FanOut`].
pub struct FanOutView {
    /// The slots, by position.
    pub slots: Seq<SlotView>,
    /// The most requests that may be in flight.
    pub limit: usize,
    /// The first failure that was reported, if any.
    pub failure: Option<Error>,
}

/// Number of slots in flight.
pub open spec fn in_flight(slots: Seq<SlotView>) -> nat
    decreases slots.len(),
{
    if slots.len() == 0 {
        0
    } else {
        in_flight(slots.drop_last()) + if slots.last() is InFlight {
            1nat
        } else {
            0nat
        }
    }
}

/// Whether every slot is done.
pub open spec fn all_done(slots: Seq<SlotView>) -> bool {
    forall|i: int| 0 <= i < slots.len() ==> (#[trigger] slots[i]) is Done
}

/// Changing one slot changes the number in flight by that slot alone.
pub proof fn lemma_in_flight_update(slots: Seq<SlotView>, i: int, slot: SlotView)
    requires
        0 <= i < slots.len(),
    ensures
        in_flight(slots.update(i, slot)) + (if slots[i] is InFlight {
            1nat
        } else {
            0nat
        }) == in_flight(slots) + (if slot is InFlight {
            1nat
        } else {
            0nat
        }),
    decreases slots.len(),
{
    let changed = slots.update(i, slot);
    if i == slots.len() - 1 {
        assert(changed.drop_last() =~= slots.drop_last());
    } else {
        lemma_in_flight_update(slots.drop_last(), i, slot);
        assert(changed.drop_last() =~= slots.drop_last().update(i, slot));
    }
}

/// How far an operation is.
#[derive(Clone, Copy, Debug, PartialEq, Eq, Structural)]
pub enum Progress {
    /// Some chunk is neither done nor given up.
    Pending,
    /// Every chunk is done.
    Finished,
    /// A chunk was given up, with this failure first.
    Failed(Error),
}

/// The requests of one operation.
#[derive(Debug)]
pub struct FanOut {
    slots: Vec<Slot>,
    limit: usize,
    busy: usize,
    failure: Option<Error>,
}

/// The contents of a sequence of slots.
spec fn slot_views(slots: Seq<Slot>) -> Seq<SlotView> {
    Seq::new(slots.len(), |i: int| slots[i]@)
}

impl View for FanOut {
    type V = FanOutView;

    closed spec fn view(&self) -> FanOutView {
        FanOutView { slots: slot_views(self.slots@), limit: self.limit, failure: self.failure }
    }
}

impl FanOut {
    #[verifier::type_invariant]
    spec fn counted(&self) -> bool {
        self.busy == in_flight(slot_views(self.slots@)) && self.busy <= self.limit
    }

    /// The fan-out over `count` chunks with at most `limit` requests in
    /// flight; every chunk waits.
    pub fn new(count: usize, limit: usize) -> (fan: FanOut)
        ensures
            fan@.slots == Seq::new(count as nat, |i: int| SlotView::Waiting),
            fan@.limit == limit,
            fan@.failure is None,
    {
        let mut slots: Vec<Slot> = Vec::new();
        let mut i: usize = 0;
        while i < count
            invariant
                i <= count,
                slots@.len() == i,
                forall|k: int| 0 <= k < i ==> (#[trigger] slots@[k])@ is Waiting,
                in_flight(slot_views(slots@)) == 0,
            decreases count - i,
        {
            let ghost before = slot_views(slots@);
            slots.push(Slot::Waiting);
            proof {
                assert(slot_views(slots@).drop_last() =~= before);
            }
            i += 1;
        }
        proof {
            assert(slot_views(slots@) =~= Seq::new(count as nat, |i: int| SlotView::Waiting));
        }
        FanOut { slots, limit, busy: 0, failure: None }
    }

    /// Number of chunks.
    pub fn len(&self) -> (n: usize)
        ensures
            n == self@.slots.len(),
    {
        self.slots.len()
    }

    /// The first chunk that waits.
    fn first_waiting(&self) -> (pick: Option<usize>)
        ensures
            match pick {
                Some(i) => i < self@.slots.len() && self@.slots[i as int] is Waiting && forall|
                    j: int,
                | 0 <= j < i ==> !((#[trigger] self@.slots[j]) is Waiting),
                None => forall|j: int|
                    0 <= j < self@.slots.len() ==> !((#[trigger] self@.slots[j]) is Waiting),
            },
    {
        let mut i: usize = 0;
        while i < self.slots.len()
            invariant
                i <= self.slots@.len(),
                forall|j: int| 0 <= j < i ==> !((#[trigger] self@.slots[j]) is Waiting),
            decreases self.slots@.len() - i,
        {
            assert(self@.slots[i as int] == self.slots@[i as int]@);
            match &self.slots[i] {
                Slot::Waiting => {
                    return Some(i);
                },
                _ => {},
            }
            i += 1;
        }
        None
    }

    /// Whether chunk `i` is in flight.
    fn is_in_flight(&self, i: usize) -> (b: bool)
        ensures
            b == (i < self@.slots.len() && self@.slots[i as int] is InFlight),
    {
        if i >= self.slots.len() {
            return false;
        }
        assert(self@.slots[i as int] == self.slots@[i as int]@);
        match &self.slots[i] {
            Slot::InFlight => true,
            _ => false,
        }
    }

    /// Puts `slot` at position `i` and keeps the count of requests in
    /// flight.
    fn set_slot(&mut self, i: usize, slot: Slot, failure: Option<Error>)
        requires
            i < old(self)@.slots.len(),
            in_flight(old(self)@.slots.update(i as int, slot@)) <= old(self)@.limit,
        ensures
            final(self)@.slots == old(self)@.slots.update(i as int, slot@),
            final(self)@.limit == old(self)@.limit,
            final(self)@.failure == failure,
    {
        proof {
            use_type_invariant(&*self);
        }
        let mut taken = FanOut::new(0, 0);
        core::mem::swap(self, &mut taken);
        let FanOut { slots, limit, busy, failure: _ } = taken;
        let mut slots = slots;
        let ghost before = slot_views(slots@);
        let ghost put = slot@;
        let flew = match &slots[i] {
            Slot::InFlight => true,
            _ => false,
        };
        let flies = match &slot {
            Slot::InFlight => true,
            _ => false,
        };
        assert(before[i as int] == slots@[i as int]@);
        slots[i] = slot;
        proof {
            assert(slot_views(slots@) =~= before.update(i as int, put));
            lemma_in_flight_update(before, i as int, put);
        }
        let busy: usize = if flew && !flies {
            busy - 1
        } else if !flew && flies {
            busy + 1
        } else {
            busy
        };
        *self = FanOut { slots, limit, busy, failure };
    }

    /// The chunk to request next: the first that waits, unless the limit is
    /// reached or a chunk was given up. The chunk is then in flight. The
    /// requests in flight never exceed the limit.
    pub fn next(&mut self) -> (pick: Option<usize>)
        ensures
            in_flight(final(self)@.slots) <= final(self)@.limit,
            final(self)@.limit == old(self)@.limit,
            final(self)@.failure == old(self)@.failure,
            match pick {
                Some(i) => {
                    &&& i < old(self)@.slots.len()
                    &&& old(self)@.slots[i as int] is Waiting
                    &&& forall|j: int| 0 <= j < i ==> !((#[trigger] old(self)@.slots[j]) is Waiting)
                    &&& in_flight(old(self)@.slots) < old(self)@.limit
                    &&& old(self)@.failure is None
                    &&& final(self)@.slots == old(self)@.slots.update(i as int, SlotView::InFlight)
                },
                None => {
                    &&& final(self)@.slots == old(self)@.slots
                    &&& (old(self)@.failure is Some || in_flight(old(self)@.slots)
                        >= old(self)@.limit || forall|j: int|
                        0 <= j < old(self)@.slots.len() ==> !((#[trigger] old(self)@.slots[j])
                            is Waiting))
                },
            },
    {
        proof {
            use_type_invariant(&*self);
        }
        if self.failure.is_some() || self.busy >= self.limit {
            return None;
        }
        match self.first_waiting() {
            None => None,
            Some(i) => {
                proof {
                    lemma_in_flight_update(self@.slots, i as int, SlotView::InFlight);
                }
                self.set_slot(i, Slot::InFlight, None);
                Some(i)
            },
        }
    }

    /// Puts the answer to the request of chunk `i` into its slot. Returns
    /// whether chunk `i` was in flight; if not, nothing changes.
    pub fn complete(&mut self, i: usize, bytes: Vec<u8>) -> (taken: bool)
        ensures
            final(self)@.limit == old(self)@.limit,
            final(self)@.failure == old(self)@.failure,
            taken == (i < old(self)@.slots.len() && old(self)@.slots[i as int] is InFlight),
            taken ==> final(self)@.slots == old(self)@.slots.update(
                i as int,
                SlotView::Done(bytes@),
            ),
            !taken ==> final(self)@.slots == old(self)@.slots,
    {
        proof {
            use_type_invariant(&*self);
        }
        if !self.is_in_flight(i) {
            return false;
        }
        proof {
            lemma_in_flight_update(self@.slots, i as int, SlotView::Done(bytes@));
        }
        let failure = self.failure;
        self.set_slot(i, Slot::Done(bytes), failure);
        true
    }

    /// Gives chunk `i` up with `error`; the first failure reported is the
    /// failure of the operation. Returns whether chunk `i` was in flight;
    /// if not, nothing changes.
    pub fn fail(&mut self, i: usize, error: Error) -> (taken: bool)
        ensures
            final(self)@.limit == old(self)@.limit,
            taken == (i < old(self)@.slots.len() && old(self)@.slots[i as int] is InFlight),
            taken ==> final(self)@.slots == old(self)@.slots.update(i as int, SlotView::Failed)
                && final(self)@.failure == if old(self)@.failure is Some {
                old(self)@.failure
            } else {
                Some(error)
            },
            !taken ==> final(self)@.slots == old(self)@.slots && final(self)@.failure == old(self)@.failure,
    {
        proof {
            use_type_invariant(&*self);
        }
        if !self.is_in_flight(i) {
            return false;
        }
        proof {
            lemma_in_flight_update(self@.slots, i as int, SlotView::Failed);
        }
        let failure = match self.failure {
            Some(first) => Some(first),
            None => Some(error),
        };
        self.set_slot(i, Slot::Failed, failure);
        true
    }

    /// Lets chunk `i` wait again, to be requested from another node.
    /// Returns whether chunk `i` was in flight; if not, nothing changes.
    pub fn requeue(&mut self, i: usize) -> (taken: bool)
        ensures
            final(self)@.limit == old(self)@.limit,
            final(self)@.failure == old(self)@.failure,
            taken == (i < old(self)@.slots.len() && old(self)@.slots[i as int] is InFlight),
            taken ==> final(self)@.slots == old(self)@.slots.update(i as int, SlotView::Waiting),
            !taken ==> final(self)@.slots == old(self)@.slots,
    {
        proof {
            use_type_invariant(&*self);
        }
        if !self.is_in_flight(i) {
            return false;
        }
        proof {
            lemma_in_flight_update(self@.slots, i as int, SlotView::Waiting);
        }
        let failure = self.failure;
        self.set_slot(i, Slot::Waiting, failure);
        true
    }

    /// How far the operation is: failed as soon as a chunk was given up,
    /// finished when every chunk is done.
    pub fn progress(&self) -> (p: Progress)
        ensures
            p == match self@.failure {
                Some(e) => Progress::Failed(e),
                None => if all_done(self@.slots) {
                    Progress::Finished
                } else {
                    Progress::Pending
                },
            },
    {
        match self.failure {
            Some(e) => {
                return Progress::Failed(e);
            },
            None => {},
        }
        let mut i: usize = 0;
        while i < self.slots.len()
            invariant
                i <= self.slots@.len(),
                self.failure is None,
                forall|k: int| 0 <= k < i ==> (#[trigger] self@.slots[k]) is Done,
            decreases self.slots@.len() - i,
        {
            assert(self@.slots[i as int] == self.slots@[i as int]@);
            match &self.slots[i] {
                Slot::Done(_) => {},
                _ => {
                    assert(!(self@.slots[i as int] is Done));
                    return Progress::Pending;
                },
            }
            i += 1;
        }
        Progress::Finished
    }

    /// The results, by position, if every chunk is done.
    pub fn results(&self) -> (pieces: Option<Vec<Vec<u8>>>)
        ensures
            pieces is Some <==> all_done(self@.slots),
            pieces is Some ==> pieces->Some_0@.len() == self@.slots.len() && forall|i: int|
                0 <= i < self@.slots.len() ==> self@.slots[i] == SlotView::Done(
                    (#[trigger] pieces->Some_0@[i])@,
                ),
    {
        let mut pieces: Vec<Vec<u8>> = Vec::new();
        let mut i: usize = 0;
        while i < self.slots.len()
            invariant
                i <= self.slots@.len(),
                pieces@.len() == i,
                forall|k: int|
                    0 <= k < i ==> self@.slots[k] == SlotView::Done((#[trigger] pieces@[k])@),
            decreases self.slots@.len() - i,
        {
            assert(self@.slots[i as int] == self.slots@[i as int]@);
            match &self.slots[i] {
                Slot::Done(bytes) => {
                    pieces.push(slice_to_vec(bytes.as_slice()));
                },
                _ => {
                    assert(!(self@.slots[i as int] is Done));
                    return None;
                },
            }
            i += 1;
        }
        proof {
            assert forall|k: int| 0 <= k < self@.slots.len() implies (#[trigger] self@.slots[k])
                is Done by {
                assert(self@.slots[k] == SlotView::Done(pieces@[k]@));
            }
        }
        Some(pieces)
    }
}

} // verus!
