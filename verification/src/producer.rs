//! The producer's side: claiming a slot, waiting for room, publishing.

use crate::graph;
use crate::protocol::System;
use crate::sequence;
use vstd::prelude::*;

verus! {

/// Where a publication stands.
pub enum ProducerPhase {
    /// Nothing is being published.
    Open,
    /// The slot is still in use as far as the producer knows; `attempt` counts how
    /// often it has idled.
    Gated { attempt: int },
    /// The slot of the next sequence belongs to the producer.
    Claimed,
}

/// The state of the producer.
pub struct ProducerState {
    /// The number of slots.
    pub capacity: int,
    /// The sequence of the next event.
    pub next_seq: int,
    /// Every stage had consumed at least up to here when last looked.
    pub cached_gate: int,
    pub phase: ProducerPhase,
}

impl ProducerState {
    pub open spec fn initial(capacity: int) -> ProducerState {
        ProducerState {
            capacity,
            next_seq: 0,
            cached_gate: sequence::INITIAL as int,
            phase: ProducerPhase::Open,
        }
    }

    pub open spec fn wf(self) -> bool {
        &&& 1 <= self.capacity <= i64::MAX
        &&& 0 <= self.next_seq <= i64::MAX
        &&& i64::MIN <= self.cached_gate <= i64::MAX
        &&& self.phase is Gated ==> 0 <= self.phase->attempt <= u32::MAX
        &&& self.phase is Claimed ==> self.next_seq < i64::MAX && self.cached_gate
            >= self.wrap_point()
    }

    /// The last event that the slot of the next one may have held.
    pub open spec fn wrap_point(self) -> int {
        self.next_seq - self.capacity
    }

    /// The event that the producer is writing.
    pub open spec fn holds(self) -> Option<int> {
        if self.phase is Claimed {
            Some(self.next_seq)
        } else {
            None
        }
    }

    /// The state after a publication has begun.
    pub open spec fn begun(self, alerted: bool) -> ProducerState {
        let phase = if alerted {
            ProducerPhase::Open
        } else if self.cached_gate < self.wrap_point() {
            ProducerPhase::Gated { attempt: 0 }
        } else {
            ProducerPhase::Claimed
        };
        ProducerState { phase, ..self }
    }

    pub open spec fn begin(self, alerted: bool) -> Claim {
        if alerted {
            Claim::Shutdown
        } else if self.cached_gate < self.wrap_point() {
            Claim::Gated
        } else {
            Claim::Claimed(self.next_seq as i64)
        }
    }

    /// The state after the gating cursors have been looked at.
    pub open spec fn gate_checked(self, observed: Seq<int>) -> ProducerState {
        if sequence::least(observed) < self.wrap_point() {
            self
        } else {
            ProducerState {
                cached_gate: sequence::least(observed),
                phase: ProducerPhase::Claimed,
                ..self
            }
        }
    }

    pub open spec fn check_gate(self, observed: Seq<int>) -> Claim {
        if sequence::least(observed) < self.wrap_point() {
            Claim::Gated
        } else {
            Claim::Claimed(self.next_seq as i64)
        }
    }

    /// The state after a vain look at the gating cursors.
    pub open spec fn stalled(self, alerted: bool) -> ProducerState {
        let attempt = self.phase->attempt;
        let phase = if alerted {
            ProducerPhase::Open
        } else if attempt < u32::MAX {
            ProducerPhase::Gated { attempt: attempt + 1 }
        } else {
            ProducerPhase::Gated { attempt }
        };
        ProducerState { phase, ..self }
    }

    pub open spec fn stall(self, alerted: bool) -> Stall {
        if alerted {
            Stall::Shutdown
        } else {
            Stall::Idle(self.phase->attempt as u32)
        }
    }

    /// The state after the claimed slot was given back unpublished.
    pub open spec fn abandoned(self) -> ProducerState {
        ProducerState { phase: ProducerPhase::Open, ..self }
    }

    /// The state after the claimed event has been published.
    pub open spec fn committed(self) -> ProducerState {
        ProducerState { next_seq: self.next_seq + 1, phase: ProducerPhase::Open, ..self }
    }
}

impl ProducerState {
    /// The state after the producer has idled `n` times.
    pub open spec fn stalled_times(self, n: nat) -> ProducerState
        decreases n,
    {
        if n == 0 {
            self
        } else {
            self.stalled_times((n - 1) as nat).stalled(false)
        }
    }
}

/// Attempts are counted from zero for each publication, and the count saturates.
pub proof fn law_stalls_are_counted(state: ProducerState, n: nat)
    requires
        state.wf(),
        state.phase is Open,
        state.begin(false) is Gated,
    ensures
        state.begun(false).stalled_times(n).stall(false) == Stall::Idle(
            if n < u32::MAX {
                n as u32
            } else {
                u32::MAX
            },
        ),
        state.begun(false).stalled_times(n).phase == (ProducerPhase::Gated {
            attempt: if n < u32::MAX {
                n as int
            } else {
                u32::MAX as int
            },
        }),
    decreases n,
{
    if n > 0 {
        law_stalls_are_counted(state, (n - 1) as nat);
    }
}

/// A producer starts with the first event, before any of which nothing was consumed.
pub proof fn law_producers_start_with_the_first_event(capacity: int)
    ensures
        ProducerState::initial(capacity).capacity == capacity,
        ProducerState::initial(capacity).next_seq == 0,
        ProducerState::initial(capacity).cached_gate == -1,
        ProducerState::initial(capacity).phase is Open,
{
}

/// A producer waits only while the ring is full. As long as every gating cursor stands
/// within as many events of the next one as there are slots, the slot is claimed, be it on
/// what the producer remembers of the cursors or on a look at them.
pub proof fn law_producers_wait_only_for_a_full_ring(state: ProducerState, observed: Seq<int>)
    requires
        state.wf(),
    ensures
        state.cached_gate >= state.next_seq - state.capacity ==> state.begin(false)
            == Claim::Claimed(state.next_seq as i64) && state.begun(false).phase is Claimed,
        (forall|k: int|
            0 <= k < observed.len() ==> #[trigger] observed[k] >= state.next_seq - state.capacity)
            ==> state.check_gate(observed) == Claim::Claimed(state.next_seq as i64)
            && state.gate_checked(observed).phase is Claimed,
{
    sequence::lemma_least(observed);
    if observed.contains(sequence::least(observed)) {
        let k = choose|k: int|
            0 <= k < observed.len() && observed[k] == sequence::least(observed);
        assert(observed[k] == sequence::least(observed));
    }
}

/// A producer does wait while the ring is full, so that it never gets a slot that a stage
/// still needs: where what it remembers lies further back than there are slots it looks at
/// the cursors, and where one of these does it keeps waiting as it was.
pub proof fn law_producers_never_claim_a_full_ring(state: ProducerState, observed: Seq<int>, k: int)
    requires
        state.wf(),
        0 <= k < observed.len(),
        observed[k] < state.next_seq - state.capacity,
    ensures
        state.cached_gate < state.next_seq - state.capacity ==> state.begin(false) is Gated
            && state.begun(false).phase == (ProducerPhase::Gated { attempt: 0 }),
        state.check_gate(observed) is Gated,
        state.gate_checked(observed) == state,
{
    sequence::lemma_least(observed);
}

/// What a producer remembers of a look at the cursors is where the slowest of them stood.
pub proof fn law_producers_remember_the_slowest_cursor(state: ProducerState, observed: Seq<int>)
    requires
        observed.len() > 0,
        forall|k: int| 0 <= k < observed.len() ==> #[trigger] observed[k] <= i64::MAX,
        state.check_gate(observed) is Claimed,
    ensures
        observed.contains(state.gate_checked(observed).cached_gate),
        forall|k: int|
            0 <= k < observed.len() ==> state.gate_checked(observed).cached_gate
                <= #[trigger] observed[k],
{
    sequence::law_the_least_is_reached(observed);
}

/// What a step of the producer leaves alone. The number of slots never changes, and the
/// next event has the same sequence until it is published, when it is the one after it.
pub proof fn law_only_publications_count(state: ProducerState, alerted: bool, observed: Seq<int>)
    ensures
        state.begin(true) is Shutdown,
        state.begun(true) == (ProducerState { phase: ProducerPhase::Open, ..state }),
        state.begun(alerted) == (ProducerState { phase: state.begun(alerted).phase, ..state }),
        state.gate_checked(observed).capacity == state.capacity,
        state.gate_checked(observed).next_seq == state.next_seq,
        state.stalled(alerted) == (ProducerState { phase: state.stalled(alerted).phase, ..state }),
        state.stalled(true).phase is Open,
        state.stall(true) is Shutdown,
        state.abandoned() == (ProducerState { phase: ProducerPhase::Open, ..state }),
        state.committed().next_seq == state.next_seq + 1,
        state.committed().capacity == state.capacity,
        state.committed().cached_gate == state.cached_gate,
        state.committed().phase is Open,
        state.phase is Claimed ==> state.holds() == Some(state.next_seq),
        !(state.phase is Claimed) ==> state.holds() is None,
{
}

/// An attempt to get hold of the next slot.
#[derive(Debug, Clone, Copy, PartialEq, Eq)]
pub enum Claim {
    /// The disruptor has been alerted; nothing is published.
    Shutdown,
    /// The slot of this sequence belongs to the producer: write the event, then commit.
    Claimed(i64),
    /// The gating cursors have to be looked at.
    Gated,
}

/// What to do while there is no room in the ring.
#[derive(Debug, Clone, Copy, PartialEq, Eq)]
pub enum Stall {
    /// The disruptor has been alerted; nothing is published.
    Shutdown,
    /// Idle after this many attempts, then look at the gating cursors again.
    Idle(u32),
}

enum Phase {
    Open,
    Gated { attempt: u32 },
    Claimed,
}

/// The one writer of the ring.
pub struct SingleProducer {
    gating: Vec<usize>,
    next_seq: i64,
    cached_gate: i64,
    capacity: i64,
    phase: Phase,
}

impl View for SingleProducer {
    type V = ProducerState;

    closed spec fn view(&self) -> ProducerState {
        ProducerState {
            capacity: self.capacity as int,
            next_seq: self.next_seq as int,
            cached_gate: self.cached_gate as int,
            phase: match self.phase {
                Phase::Open => ProducerPhase::Open,
                Phase::Gated { attempt } => ProducerPhase::Gated { attempt: attempt as int },
                Phase::Claimed => ProducerPhase::Claimed,
            },
        }
    }
}

impl SingleProducer {
    /// The stages whose cursors keep the producer from overtaking.
    pub closed spec fn gates(&self) -> Seq<int> {
        graph::ints(self.gating@)
    }

    /// The producer is the one that this system speaks of.
    pub open spec fn belongs_to(&self, system: System) -> bool {
        self@ == system.producer && self.gates() == system.leaves
    }

    /// A producer for a ring of `capacity` slots that waits for the stages `gating`.
    pub fn new(capacity: i64, gating: Vec<usize>) -> (r: SingleProducer)
        requires
            capacity >= 1,
        ensures
            r@ == ProducerState::initial(capacity as int),
            r@.wf(),
            r.gates() == graph::ints(gating@),
    {
        SingleProducer {
            gating,
            next_seq: 0,
            cached_gate: sequence::INITIAL,
            capacity,
            phase: Phase::Open,
        }
    }

    /// The stages whose cursors keep the producer from overtaking.
    pub fn gating(&self) -> (r: &[usize])
        ensures
            graph::ints(r@) == self.gates(),
    {
        self.gating.as_slice()
    }

    /// The sequence of the next event.
    pub fn next_seq(&self) -> (r: i64)
        ensures
            r == self@.next_seq,
    {
        self.next_seq
    }

    /// The least of the gating cursors, or `i64::MAX` where there are none.
    pub fn min_gate(observed: &[i64]) -> (r: i64)
        ensures
            r == sequence::least(sequence::sequences(observed@)),
            forall|k: int| 0 <= k < observed@.len() ==> r <= #[trigger] observed@[k],
            observed@.len() == 0 ==> r == i64::MAX,
            observed@.len() > 0 ==> observed@.contains(r),
    {
        sequence::least_of(observed)
    }

    /// Begins a publication; `alerted` is what the alert flag was seen to hold.
    pub fn begin(&mut self, alerted: bool) -> (r: Claim)
        requires
            old(self)@.wf(),
            old(self)@.phase is Open,
            old(self)@.next_seq < i64::MAX,
        ensures
            final(self)@ == old(self)@.begun(alerted),
            final(self).gates() == old(self).gates(),
            final(self)@.wf(),
            r == old(self)@.begin(alerted),
            r is Shutdown <==> alerted,
            r is Gated <==> !alerted && old(self)@.cached_gate < old(self)@.next_seq - old(
                self,
            )@.capacity,
            r matches Claim::Claimed(seq) ==> seq == old(self)@.next_seq,
    {
        if alerted {
            return Claim::Shutdown;
        }
        let wrap_point: i64 = self.next_seq - self.capacity;
        if self.cached_gate < wrap_point {
            self.phase = Phase::Gated { attempt: 0 };
            Claim::Gated
        } else {
            self.phase = Phase::Claimed;
            Claim::Claimed(self.next_seq)
        }
    }

    /// Claims the slot if the gating cursors, seen to hold `observed`, have passed the
    /// event that it held before.
    pub fn check_gate(&mut self, observed: &[i64]) -> (r: Claim)
        requires
            old(self)@.wf(),
            old(self)@.phase is Gated,
            old(self)@.next_seq < i64::MAX,
        ensures
            final(self)@ == old(self)@.gate_checked(sequence::sequences(observed@)),
            final(self).gates() == old(self).gates(),
            final(self)@.wf(),
            r == old(self)@.check_gate(sequence::sequences(observed@)),
            r is Gated <==> exists|k: int|
                0 <= k < observed@.len() && #[trigger] observed@[k] < old(self)@.next_seq - old(
                    self,
                )@.capacity,
            r is Gated || r == Claim::Claimed(old(self)@.next_seq as i64),
    {
        let wrap_point: i64 = self.next_seq - self.capacity;
        let min: i64 = Self::min_gate(observed);
        assert(min < wrap_point ==> observed@.contains(min));
        if min < wrap_point {
            Claim::Gated
        } else {
            self.cached_gate = min;
            self.phase = Phase::Claimed;
            Claim::Claimed(self.next_seq)
        }
    }

    /// Decides what to do after the slot was found to be in use; `alerted` is what the
    /// alert flag was seen to hold.
    pub fn stall(&mut self, alerted: bool) -> (r: Stall)
        requires
            old(self)@.wf(),
            old(self)@.phase is Gated,
        ensures
            final(self)@ == old(self)@.stalled(alerted),
            final(self).gates() == old(self).gates(),
            final(self)@.wf(),
            r == old(self)@.stall(alerted),
    {
        let tries: u32 = match self.phase {
            Phase::Gated { attempt } => attempt,
            _ => 0,
        };
        if alerted {
            self.phase = Phase::Open;
            Stall::Shutdown
        } else {
            self.phase = Phase::Gated { attempt: tries.saturating_add(1) };
            Stall::Idle(tries)
        }
    }

    /// Gives the claimed slot back, where the event could not be written. The next
    /// publication gets the same sequence.
    pub fn abandon(&mut self)
        requires
            old(self)@.wf(),
            old(self)@.phase is Claimed,
        ensures
            final(self)@ == old(self)@.abandoned(),
            final(self).gates() == old(self).gates(),
            final(self)@.wf(),
    {
        self.phase = Phase::Open;
    }

    /// Ends the publication of the claimed event and gives its sequence, to which the
    /// producer's cursor moves.
    pub fn commit(&mut self) -> (r: i64)
        requires
            old(self)@.wf(),
            old(self)@.phase is Claimed,
        ensures
            final(self)@ == old(self)@.committed(),
            final(self).gates() == old(self).gates(),
            final(self)@.wf(),
            r == old(self)@.next_seq,
    {
        let seq: i64 = self.next_seq;
        self.next_seq = seq + 1;
        self.phase = Phase::Open;
        seq
    }
}

} // verus!
