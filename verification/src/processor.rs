//! The loop of one stage, as a machine that is told what it observes and answers what
//! to do.

use crate::barrier::SequenceBarrier;
use crate::sequence;
use crate::wait::WaitResult;
use vstd::prelude::*;

verus! {

/// Where the loop of a stage stands.
pub enum StagePhase {
    /// `on_start` has not been called.
    Starting,
    /// The next event has been looked for `attempt` times in vain.
    Waiting { attempt: int },
    /// A batch up to `batch_end` is available, and `seq` is its next event.
    Delivering { seq: int, batch_end: int },
    /// The loop has ended.
    Stopped,
}

/// The state of the loop of a stage.
pub struct StageState {
    /// The most events in one batch.
    pub max_batch_size: int,
    /// The first event that no completed batch has covered.
    pub next: int,
    pub phase: StagePhase,
}

impl StageState {
    /// The state before the first step.
    pub open spec fn initial(max_batch_size: int) -> StageState {
        StageState { max_batch_size, next: 0, phase: StagePhase::Starting }
    }

    pub open spec fn wf(self) -> bool {
        &&& 1 <= self.max_batch_size <= i64::MAX
        &&& 0 <= self.next <= i64::MAX
        &&& match self.phase {
            StagePhase::Waiting { attempt } => 0 <= attempt <= u32::MAX,
            StagePhase::Delivering {
                seq,
                batch_end,
            } => self.next <= batch_end < i64::MAX && batch_end < self.next + self.max_batch_size
                && self.next <= seq <= batch_end + 1,
            _ => true,
        }
    }

    /// The event that the stage is working on.
    pub open spec fn holds(self) -> Option<int> {
        match self.phase {
            StagePhase::Delivering { seq, batch_end } => if seq > self.next {
                Some(seq - 1)
            } else {
                None
            },
            _ => None,
        }
    }

    /// The last event that was handed to the stage.
    pub open spec fn delivered(self) -> int {
        match self.phase {
            StagePhase::Delivering { seq, batch_end } => seq - 1,
            _ => self.next - 1,
        }
    }

    /// The end of the batch that starts at `next` where everything up to `available`
    /// can be read.
    pub open spec fn batch_end(self, available: int) -> int {
        if available < self.next + (self.max_batch_size - 1) {
            available
        } else {
            self.next + (self.max_batch_size - 1)
        }
    }

    pub open spec fn started(self) -> StageState {
        StageState { phase: StagePhase::Waiting { attempt: 0 }, ..self }
    }

    /// The state after an availability check.
    pub open spec fn polled(self, alerted: bool, observed: Seq<int>) -> StageState {
        match self.phase {
            StagePhase::Waiting { attempt } => {
                let phase = if alerted {
                    StagePhase::Stopped
                } else if sequence::least(observed) >= self.next {
                    StagePhase::Delivering {
                        seq: self.next,
                        batch_end: self.batch_end(sequence::least(observed)),
                    }
                } else if attempt < u32::MAX {
                    StagePhase::Waiting { attempt: attempt + 1 }
                } else {
                    StagePhase::Waiting { attempt }
                };
                StageState { phase, ..self }
            },
            _ => self,
        }
    }

    /// What an availability check tells to do.
    pub open spec fn poll(self, alerted: bool, observed: Seq<int>) -> Poll {
        if alerted {
            Poll::Stop
        } else if sequence::least(observed) >= self.next {
            Poll::Ready(self.batch_end(sequence::least(observed)) as i64)
        } else {
            Poll::Idle(self.phase->attempt as u32)
        }
    }

    /// The state after a step within a batch.
    pub open spec fn advanced(self, alerted: bool) -> StageState {
        match self.phase {
            StagePhase::Delivering { seq, batch_end } => if seq > batch_end {
                StageState {
                    next: batch_end + 1,
                    phase: StagePhase::Waiting { attempt: 0 },
                    ..self
                }
            } else if alerted {
                StageState { next: seq, phase: StagePhase::Stopped, ..self }
            } else {
                StageState { phase: StagePhase::Delivering { seq: seq + 1, batch_end }, ..self }
            },
            _ => self,
        }
    }

    /// What a step within a batch tells to do.
    pub open spec fn delivery(self, alerted: bool) -> Delivery {
        let seq = self.phase->seq;
        let batch_end = self.phase->batch_end;
        if seq > batch_end {
            Delivery::Done(batch_end as i64)
        } else if alerted {
            Delivery::Interrupted((seq - 1) as i64)
        } else {
            Delivery::Event { sequence: seq as i64, end_of_batch: seq == batch_end }
        }
    }
}

impl StageState {
    /// The state after `n` checks that found nothing.
    pub open spec fn polled_in_vain(self, n: nat) -> StageState
        decreases n,
    {
        if n == 0 {
            self
        } else {
            self.polled_in_vain((n - 1) as nat).polled(false, seq![self.next - 1])
        }
    }

    /// The state after one more step of the loop, with the alert up.
    pub open spec fn alerted(self) -> StageState {
        match self.phase {
            StagePhase::Starting => self.started(),
            StagePhase::Waiting { attempt } => self.polled(true, Seq::empty()),
            StagePhase::Delivering { seq, batch_end } => self.advanced(true),
            StagePhase::Stopped => self,
        }
    }
}

/// Attempts are counted from zero for each wait, and the count saturates.
pub proof fn law_attempts_are_counted(state: StageState, n: nat)
    requires
        state.wf(),
        state.phase == (StagePhase::Waiting { attempt: 0 }),
    ensures
        state.polled_in_vain(n) == (StageState {
            phase: StagePhase::Waiting {
                attempt: if n < u32::MAX {
                    n as int
                } else {
                    u32::MAX as int
                },
            },
            ..state
        }),
        state.polled_in_vain(n).poll(false, seq![state.next - 1]) == Poll::Idle(
            if n < u32::MAX {
                n as u32
            } else {
                u32::MAX
            },
        ),
    decreases n,
{
    let up = seq![state.next - 1];
    assert(up.drop_last() =~= Seq::<int>::empty());
    assert(sequence::least(up.drop_last()) == i64::MAX);
    assert(sequence::least(up) == state.next - 1);
    if n > 0 {
        law_attempts_are_counted(state, (n - 1) as nat);
    }
}

/// Wherever the loop of a stage stands, it ends within three steps of the alert.
pub proof fn law_alerted_stages_end(state: StageState)
    ensures
        state.alerted().alerted().alerted().phase is Stopped,
{
}

/// A stage starts before the first event, with the limit that it is given.
pub proof fn law_stages_start_before_the_first_event(max_batch_size: int)
    ensures
        StageState::initial(max_batch_size).max_batch_size == max_batch_size,
        StageState::initial(max_batch_size).next == 0,
        StageState::initial(max_batch_size).phase is Starting,
        StageState::initial(max_batch_size).started().phase == (StagePhase::Waiting {
            attempt: 0,
        }),
        StageState::initial(max_batch_size).started().next == 0,
        StageState::initial(max_batch_size).started().max_batch_size == max_batch_size,
{
}

/// What a waiting stage does when it looks. With the alert up it stops. Otherwise it gets
/// a batch exactly if every cursor that it waits for has reached its next event, and the
/// batch is as long as it can be: it ends where the slowest of the cursors stands, or where
/// the limit is reached, whichever comes first.
pub proof fn law_batches_are_as_long_as_they_can_be(
    state: StageState,
    attempt: int,
    alerted: bool,
    observed: Seq<int>,
)
    requires
        state.wf(),
        state.phase == (StagePhase::Waiting { attempt }),
        observed.len() > 0,
        forall|k: int|
            0 <= k < observed.len() ==> -1 <= #[trigger] observed[k] < i64::MAX,
    ensures
        state.poll(alerted, observed) is Stop <==> alerted,
        state.polled(alerted, observed).phase is Stopped <==> alerted,
        state.poll(alerted, observed) is Idle <==> !alerted && exists|k: int|
            0 <= k < observed.len() && #[trigger] observed[k] < state.next,
        state.poll(alerted, observed) matches Poll::Idle(tries) ==> tries == attempt
            && state.polled(alerted, observed).phase == (StagePhase::Waiting {
            attempt: if attempt < u32::MAX {
                attempt + 1
            } else {
                attempt
            },
        }),
        state.poll(alerted, observed) matches Poll::Ready(end) ==> {
            &&& state.next <= end
            &&& forall|k: int| 0 <= k < observed.len() ==> end <= #[trigger] observed[k]
            &&& end - state.next + 1 <= state.max_batch_size
            &&& observed.contains(end as int) || end - state.next + 1 == state.max_batch_size
            &&& state.polled(alerted, observed).phase == (StagePhase::Delivering {
                seq: state.next,
                batch_end: end as int,
            })
        },
        state.polled(alerted, observed).next == state.next,
        state.polled(alerted, observed).max_batch_size == state.max_batch_size,
{
    sequence::law_the_least_is_reached(observed);
    let k = choose|k: int|
        0 <= k < observed.len() && #[trigger] observed[k] == sequence::least(observed);
    assert(observed[k] == sequence::least(observed));
}

impl StageState {
    /// The state after `n` steps within a batch without an alert.
    pub open spec fn advanced_times(self, n: nat) -> StageState
        decreases n,
    {
        if n == 0 {
            self
        } else {
            self.advanced_times((n - 1) as nat).advanced(false)
        }
    }
}

/// Without an alert a batch of events is handed over one by one and in order, the last one
/// with `end_of_batch` and the others without, however long the batch is; then the cursor
/// moves to its end, and the stage waits for the event after it.
pub proof fn law_batches_are_handed_over_whole(state: StageState, batch_end: int, n: nat)
    requires
        state.wf(),
        state.phase == (StagePhase::Delivering { seq: state.next, batch_end }),
        n <= batch_end - state.next + 1,
    ensures
        n <= batch_end - state.next ==> state.advanced_times(n).delivery(false)
            == (Delivery::Event {
            sequence: (state.next + n) as i64,
            end_of_batch: state.next + n == batch_end,
        }),
        n == batch_end - state.next + 1 ==> state.advanced_times(n).delivery(false)
            == Delivery::Done(batch_end as i64) && state.advanced_times(n).advanced(false) == (
        StageState {
            next: batch_end + 1,
            phase: StagePhase::Waiting { attempt: 0 },
            ..state
        }),
        state.advanced_times(n) == (StageState {
            phase: StagePhase::Delivering { seq: state.next + n, batch_end },
            ..state
        }),
    decreases n,
{
    if n > 0 {
        law_batches_are_handed_over_whole(state, batch_end, (n - 1) as nat);
    }
}

/// The alert stops a stage before the next event of its batch, and its cursor moves to the
/// event before. A batch of which every event was handed over is completed all the same.
pub proof fn law_the_alert_cuts_a_batch_short(state: StageState, seq: int, batch_end: int)
    requires
        state.wf(),
        state.phase == (StagePhase::Delivering { seq, batch_end }),
    ensures
        seq <= batch_end ==> state.delivery(true) == Delivery::Interrupted((seq - 1) as i64)
            && state.advanced(true).next == seq && state.advanced(true).phase is Stopped,
        seq > batch_end ==> state.delivery(true) == Delivery::Done(batch_end as i64)
            && state.advanced(true).next == batch_end + 1 && state.advanced(true).phase == (
        StagePhase::Waiting { attempt: 0 }),
        state.advanced(true).max_batch_size == state.max_batch_size,
        state.delivered() == seq - 1,
        state.holds() == if seq > state.next {
            Some(seq - 1)
        } else {
            None
        },
{
}

/// The outcome of an availability check.
#[derive(Debug, Clone, Copy, PartialEq, Eq)]
pub enum Poll {
    /// A batch that ends here is ready to be delivered.
    Ready(i64),
    /// Nothing is ready after this many vain attempts; idle, then check again.
    Idle(u32),
    /// The loop is over: call `on_shutdown`.
    Stop,
}

/// A step within a batch.
#[derive(Debug, Clone, Copy, PartialEq, Eq)]
pub enum Delivery {
    /// Hand this event to the consumer.
    Event { sequence: i64, end_of_batch: bool },
    /// The batch is complete: move the cursor here.
    Done(i64),
    /// The disruptor was alerted: move the cursor here, the last event that was
    /// delivered, and call `on_shutdown`. The rest of the batch is not delivered.
    Interrupted(i64),
}

enum Phase {
    Starting,
    Waiting { attempt: u32 },
    Delivering { seq: i64, batch_end: i64 },
    Stopped,
}

/// The loop of one stage.
pub struct EventProcessor {
    max_batch_size: i64,
    next: i64,
    phase: Phase,
}

impl View for EventProcessor {
    type V = StageState;

    closed spec fn view(&self) -> StageState {
        StageState {
            max_batch_size: self.max_batch_size as int,
            next: self.next as int,
            phase: match self.phase {
                Phase::Starting => StagePhase::Starting,
                Phase::Waiting { attempt } => StagePhase::Waiting { attempt: attempt as int },
                Phase::Delivering { seq, batch_end } => StagePhase::Delivering {
                    seq: seq as int,
                    batch_end: batch_end as int,
                },
                Phase::Stopped => StagePhase::Stopped,
            },
        }
    }
}

impl EventProcessor {
    /// The loop before its first step; a batch holds at most `max_batch_size` events.
    pub fn new(max_batch_size: i64) -> (r: EventProcessor)
        requires
            max_batch_size >= 1,
        ensures
            r@ == StageState::initial(max_batch_size as int),
            r@.wf(),
    {
        EventProcessor { max_batch_size, next: 0, phase: Phase::Starting }
    }

    pub fn is_starting(&self) -> (r: bool)
        ensures
            r == (self@.phase is Starting),
    {
        matches!(self.phase, Phase::Starting)
    }

    pub fn is_waiting(&self) -> (r: bool)
        ensures
            r == (self@.phase is Waiting),
    {
        matches!(self.phase, Phase::Waiting { .. })
    }

    pub fn is_delivering(&self) -> (r: bool)
        ensures
            r == (self@.phase is Delivering),
    {
        matches!(self.phase, Phase::Delivering { .. })
    }

    pub fn is_stopped(&self) -> (r: bool)
        ensures
            r == (self@.phase is Stopped),
    {
        matches!(self.phase, Phase::Stopped)
    }

    /// Enters the loop, after `on_start` has been called.
    pub fn start(&mut self)
        requires
            old(self)@.wf(),
            old(self)@.phase is Starting,
        ensures
            final(self)@ == old(self)@.started(),
            final(self)@.wf(),
    {
        self.phase = Phase::Waiting { attempt: 0 };
    }

    /// Checks for the next event: `alerted` and `observed` are what the alert flag and
    /// the cursors watched by `barrier` were seen to hold.
    pub fn poll(&mut self, barrier: &SequenceBarrier, alerted: bool, observed: &[i64]) -> (r: Poll)
        requires
            old(self)@.wf(),
            old(self)@.phase is Waiting,
            alerted || observed@.len() > 0,
            alerted || sequence::least(sequence::sequences(observed@)) < i64::MAX,
        ensures
            final(self)@ == old(self)@.polled(alerted, sequence::sequences(observed@)),
            r == old(self)@.poll(alerted, sequence::sequences(observed@)),
            final(self)@.wf(),
    {
        let tries: u32 = match self.phase {
            Phase::Waiting { attempt } => attempt,
            _ => 0,
        };
        match barrier.wait_for(self.next, alerted, observed) {
            Some(WaitResult::Alerted) => {
                self.phase = Phase::Stopped;
                Poll::Stop
            },
            Some(WaitResult::Available(available)) => {
                let room: i64 = self.max_batch_size - 1;
                let batch_end: i64 = if i64::MAX - room < self.next {
                    available
                } else if self.next + room < available {
                    self.next + room
                } else {
                    available
                };
                self.phase = Phase::Delivering { seq: self.next, batch_end };
                Poll::Ready(batch_end)
            },
            None => {
                self.phase = Phase::Waiting { attempt: tries.saturating_add(1) };
                Poll::Idle(tries)
            },
        }
    }

    /// Takes the next step within the batch; `alerted` is what the alert flag was seen
    /// to hold. The event that the previous step handed out is done with.
    pub fn deliver(&mut self, alerted: bool) -> (r: Delivery)
        requires
            old(self)@.wf(),
            old(self)@.phase is Delivering,
        ensures
            final(self)@ == old(self)@.advanced(alerted),
            r == old(self)@.delivery(alerted),
            final(self)@.wf(),
            r matches Delivery::Event { sequence, end_of_batch } ==> end_of_batch == (sequence
                == old(self)@.phase->batch_end),
    {
        let (at, end): (i64, i64) = match self.phase {
            Phase::Delivering { seq, batch_end } => (seq, batch_end),
            _ => (0, 0),
        };
        if at > end {
            self.next = end + 1;
            self.phase = Phase::Waiting { attempt: 0 };
            Delivery::Done(end)
        } else if alerted {
            self.next = at;
            self.phase = Phase::Stopped;
            Delivery::Interrupted(at - 1)
        } else {
            self.phase = Phase::Delivering { seq: at + 1, batch_end: end };
            Delivery::Event { sequence: at, end_of_batch: at == end }
        }
    }
}

} // verus!
