//! The disruptor as a whole: the protocol, the contents of the slots, and what every
//! stage has been handed.

use crate::consumer;
use crate::consumer::Stage;
use crate::graph;
use crate::processor::Delivery;
use crate::processor::Poll;
use crate::processor::StagePhase;
use crate::processor::StageState;
use crate::producer::ProducerPhase;
use crate::producer::ProducerState;
use crate::protocol;
use crate::protocol::Event;
use crate::protocol::System;
use crate::sequence;
use crate::wait;
use crate::wait::WaitStrategy;
use vstd::prelude::*;

verus! {

/// One call of a consumer's event handler: the event as it was handed over and as it was
/// left, and the consumer before the call and after it.
#[verifier::reject_recursive_types(T)]
pub struct Handed<T> {
    pub sequence: int,
    pub end_of_batch: bool,
    pub before: T,
    pub after: T,
    pub consumer: Stage<T>,
    pub consumer_after: Stage<T>,
}

impl<T> Handed<T> {
    /// The call was made.
    pub open spec fn was_made(self) -> bool {
        consumer::is_delivery(
            self.consumer,
            self.before,
            self.sequence as i64,
            self.end_of_batch,
            self.consumer_after,
            self.after,
        )
    }
}

/// The consumer that call `k` found is the one that the call before it left.
pub open spec fn follows<T>(calls: Seq<Handed<T>>, k: int) -> bool {
    k > 0 ==> calls[k].consumer == calls[k - 1].consumer_after
}

/// The consumer `registered` was told to start, then got these calls, one after the
/// other, and no others, and is now `last`.
pub open spec fn has_heard<T>(registered: Stage<T>, calls: Seq<Handed<T>>, last: Stage<T>) -> bool {
    let n = calls.len() as int;
    &&& consumer::is_start(
        registered,
        if n == 0 {
            last
        } else {
            calls[0].consumer
        },
    )
    &&& forall|k: int| 0 <= k < n ==> (#[trigger] calls[k]).was_made()
    &&& forall|k: int| 0 <= k < n ==> #[trigger] follows(calls, k)
    &&& n > 0 ==> calls[n - 1].consumer_after == last
}

/// What a step leaves behind: the event and the consumer, where it calls the consumer.
#[verifier::reject_recursive_types(T)]
pub struct Left<T> {
    pub event: T,
    pub consumer: Stage<T>,
}

/// What one step of a stage did.
#[derive(Debug, Clone, Copy, PartialEq, Eq)]
pub enum StageStep {
    /// The consumer was started.
    Started,
    /// A batch that ends here was found to be available.
    Acquired(i64),
    /// Nothing was available after this many vain attempts.
    Idle(u32),
    /// The consumer was handed an event.
    Delivered { sequence: i64, end_of_batch: bool },
    /// The batch was completed and the cursor moved here.
    Advanced(i64),
    /// The consumer was shut down; the cursor stands at the last event that it got.
    Stopped,
    /// The stage had already ended.
    Ended,
}

/// What a stage sees when it takes a step: the alert, and the cursors that it waits for.
pub struct Sight {
    pub alerted: bool,
    pub observed: Seq<int>,
}

/// Everything there is to say of a disruptor.
#[verifier::ext_equal]
#[verifier::reject_recursive_types(T)]
pub struct DisruptorState<T> {
    pub system: System,
    /// The disruptor is shut down, or a consumer has failed.
    pub alerted: bool,
    pub slots: Seq<T>,
    /// The published events, as the producer left them.
    pub written: Seq<T>,
    /// The published events, with the changes made by mutable stages so far.
    pub events: Seq<T>,
    /// What each stage was handed.
    pub handed: Seq<Seq<Handed<T>>>,
    /// The consumers as they were registered.
    pub registered: Seq<Stage<T>>,
    /// The consumers as they are.
    pub consumers: Seq<Stage<T>>,
    pub names: Seq<Seq<char>>,
    pub is_mut: Seq<bool>,
    pub panicked: Seq<bool>,
}

impl<T> DisruptorState<T> {
    /// The slot of an event.
    pub open spec fn slot(self, seq: int) -> int {
        seq % self.system.capacity()
    }

    pub open spec fn stage(self, i: int) -> StageState {
        self.system.stages[i]
    }

    /// Stage `i` takes no more steps.
    pub open spec fn has_ended(self, i: int) -> bool {
        self.panicked[i] || self.stage(i).phase is Stopped
    }

    /// No consumer has failed.
    pub open spec fn none_panicked(self) -> bool {
        forall|i: int| 0 <= i < self.panicked.len() ==> !#[trigger] self.panicked[i]
    }

    /// What stage `i` sees if it looks now.
    pub open spec fn sight(self, i: int) -> Sight {
        Sight { alerted: self.alerted, observed: self.system.upstream(i) }
    }

    /// What stage `i` may see: an alert only if there is one, and cursors as they stand
    /// or as they stood before.
    pub open spec fn may_see(self, i: int, sight: Sight) -> bool {
        (sight.alerted ==> self.alerted) && protocol::seen(
            sight.observed,
            self.system.upstream(i),
        )
    }

    /// The step of the protocol that stage `i` takes next.
    pub open spec fn next_event_on(self, i: int, sight: Sight) -> Event {
        match self.stage(i).phase {
            StagePhase::Starting => Event::Start { stage: i },
            StagePhase::Waiting { attempt } => Event::Poll {
                stage: i,
                alerted: sight.alerted,
                observed: sight.observed,
            },
            _ => Event::Advance { stage: i, alerted: sight.alerted },
        }
    }

    /// What the next step of stage `i` does.
    pub open spec fn next_step_on(self, i: int, sight: Sight) -> StageStep {
        if self.has_ended(i) {
            StageStep::Ended
        } else {
            match self.stage(i).phase {
                StagePhase::Starting => StageStep::Started,
                StagePhase::Waiting { attempt } => match self.stage(i).poll(
                    sight.alerted,
                    sight.observed,
                ) {
                    Poll::Ready(batch_end) => StageStep::Acquired(batch_end),
                    Poll::Idle(tries) => StageStep::Idle(tries),
                    Poll::Stop => StageStep::Stopped,
                },
                _ => match self.stage(i).delivery(sight.alerted) {
                    Delivery::Event { sequence, end_of_batch } => StageStep::Delivered {
                        sequence,
                        end_of_batch,
                    },
                    Delivery::Done(cursor) => StageStep::Advanced(cursor),
                    Delivery::Interrupted(cursor) => StageStep::Stopped,
                },
            }
        }
    }

    /// The state after a step of stage `i`; `left` is what the step leaves behind, where it
    /// calls the consumer.
    pub open spec fn stepped_on(self, i: int, sight: Sight, left: Left<T>) -> DisruptorState<T> {
        if self.has_ended(i) {
            self
        } else {
            let system = self.system.next(self.next_event_on(i, sight));
            let consumers = self.consumers.update(i, left.consumer);
            match self.next_step_on(i, sight) {
                StageStep::Started => DisruptorState { system, consumers, ..self },
                StageStep::Delivered { sequence, end_of_batch } => {
                    let slot = self.slot(sequence as int);
                    let record = Handed {
                        sequence: sequence as int,
                        end_of_batch,
                        before: self.slots[slot],
                        after: left.event,
                        consumer: self.consumers[i],
                        consumer_after: left.consumer,
                    };
                    DisruptorState {
                        system,
                        slots: self.slots.update(slot, left.event),
                        events: self.events.update(sequence as int, left.event),
                        handed: self.handed.update(i, self.handed[i].push(record)),
                        consumers,
                        ..self
                    }
                },
                StageStep::Stopped => DisruptorState { system, consumers, ..self },
                _ => DisruptorState { system, ..self },
            }
        }
    }

    /// What a step of stage `i` may leave behind: what a call of its consumer leaves. The
    /// event stays as it was found, unless the stage is a mutable one.
    pub open spec fn may_leave_on(self, i: int, sight: Sight, left: Left<T>) -> bool {
        match self.next_step_on(i, sight) {
            StageStep::Started => consumer::is_start(self.consumers[i], left.consumer),
            StageStep::Delivered { sequence, end_of_batch } => {
                let found = self.slots[self.slot(sequence as int)];
                &&& self.is_mut[i] || left.event == found
                &&& consumer::is_delivery(
                    self.consumers[i],
                    found,
                    sequence,
                    end_of_batch,
                    left.consumer,
                    left.event,
                )
            },
            StageStep::Stopped => consumer::is_shutdown(self.consumers[i], left.consumer),
            _ => true,
        }
    }

    /// What the next step of stage `i` does if it is taken now.
    pub open spec fn next_step(self, i: int) -> StageStep {
        self.next_step_on(i, self.sight(i))
    }

    /// The state after a step of stage `i` that is taken now.
    pub open spec fn stepped(self, i: int, left: Left<T>) -> DisruptorState<T> {
        self.stepped_on(i, self.sight(i), left)
    }

    /// What a step of stage `i` may leave behind if it is taken now.
    pub open spec fn may_leave(self, i: int, left: Left<T>) -> bool {
        self.may_leave_on(i, self.sight(i), left)
    }

    /// The state after a step of the producer that publishes nothing.
    pub open spec fn with_producer(self, producer: ProducerState) -> DisruptorState<T> {
        DisruptorState { system: System { producer, ..self.system }, ..self }
    }

    /// The state after the claimed slot was filled with `value` and published.
    pub open spec fn published_with(self, value: T) -> DisruptorState<T> {
        DisruptorState {
            system: self.system.next(Event::Commit),
            slots: self.slots.update(self.slot(self.system.producer.next_seq), value),
            written: self.written.push(value),
            events: self.events.push(value),
            ..self
        }
    }

    /// The state after the alert has been raised.
    pub open spec fn with_alert(self) -> DisruptorState<T> {
        DisruptorState { alerted: true, ..self }
    }

    /// Stage `m` changes events and was handed event `k`.
    pub open spec fn touched(self, m: int, k: int) -> bool {
        0 <= m < self.is_mut.len() && self.is_mut[m] && k < self.handed[m].len()
    }

    /// Of the stages that change events and were handed event `k`, `m` is the last.
    pub open spec fn touched_last(self, m: int, k: int) -> bool {
        &&& self.touched(m, k)
        &&& forall|o: int|
            #[trigger] self.touched(o, k) && o != m ==> graph::reaches(self.system.deps, o, m)
    }

    /// Stage `m` is an ancestor of stage `i` that changes events.
    pub open spec fn changes_above(self, m: int, i: int) -> bool {
        0 <= m < self.is_mut.len() && self.is_mut[m] && graph::reaches(self.system.deps, m, i)
    }

    /// Of the ancestors of stage `i` that change events, `m` is the last.
    pub open spec fn changes_last_above(self, m: int, i: int) -> bool {
        &&& self.changes_above(m, i)
        &&& forall|o: int|
            #[trigger] self.changes_above(o, i) && o != m ==> graph::reaches(
                self.system.deps,
                o,
                m,
            )
    }

    /// The parts belong together.
    pub open spec fn shape(self) -> bool {
        &&& self.slots.len() == self.system.capacity()
        &&& self.handed.len() == self.system.stages.len()
        &&& self.registered.len() == self.system.stages.len()
        &&& self.consumers.len() == self.system.stages.len()
        &&& self.names.len() == self.system.stages.len()
        &&& self.is_mut.len() == self.system.stages.len()
        &&& self.panicked.len() == self.system.stages.len()
        &&& self.written.len() == self.system.published + 1
        &&& self.events.len() == self.system.published + 1
    }

    /// A stage that changes events is ordered against every stage.
    pub open spec fn is_exclusive(self) -> bool {
        forall|i: int, j: int|
            0 <= i < self.is_mut.len() && 0 <= j < self.is_mut.len() && self.is_mut[i]
                ==> #[trigger] graph::comparable(self.system.deps, i, j)
    }

    /// The slots hold the last events, as far as they are written.
    pub open spec fn slots_hold_events(self) -> bool {
        forall|k: int|
            0 <= k < self.events.len() && self.events.len() - self.system.capacity() <= k
                ==> self.slots[self.slot(k)] == #[trigger] self.events[k]
    }

    /// Stage `i` was handed the events from 0 on, one after the other.
    pub open spec fn handed_in_order(self, i: int) -> bool {
        &&& self.handed[i].len() == self.stage(i).delivered() + 1
        &&& forall|k: int|
            0 <= k < self.handed[i].len() ==> (#[trigger] self.handed[i][k]).sequence == k && (
            !self.is_mut[i] ==> self.handed[i][k].after == self.handed[i][k].before)
    }

    /// Event `k` is as the last stage that changed it left it, or as it was written.
    pub open spec fn event_is_current(self, k: int) -> bool {
        &&& (forall|m: int| !#[trigger] self.touched(m, k)) ==> self.events[k] == self.written[k]
        &&& forall|m: int| #[trigger]
            self.touched_last(m, k) ==> self.events[k] == self.handed[m][k].after
    }

    /// Stage `i` found event `k` as the last ancestor that changes events left it, or as
    /// it was written.
    pub open spec fn handed_rightly(self, i: int, k: int) -> bool {
        &&& (forall|m: int| !#[trigger] self.changes_above(m, i)) ==> self.handed[i][k].before
            == self.written[k]
        &&& forall|m: int| #[trigger]
            self.changes_last_above(m, i) ==> k < self.handed[m].len()
                && self.handed[i][k].before == self.handed[m][k].after
    }

    /// The consumer of stage `i` has got all of its calls and was then told to shut down.
    pub open spec fn was_shut_down(self, i: int) -> bool {
        exists|last: Stage<T>| #[trigger]
            has_heard(self.registered[i], self.handed[i], last) && consumer::is_shutdown(
                last,
                self.consumers[i],
            )
    }

    /// What stage `i` is recorded to have been handed, its consumer was called with.
    pub open spec fn record_is_true(self, i: int) -> bool {
        match self.stage(i).phase {
            StagePhase::Starting => self.handed[i].len() == 0 && self.consumers[i]
                == self.registered[i],
            StagePhase::Stopped => self.was_shut_down(i),
            _ => has_heard(self.registered[i], self.handed[i], self.consumers[i]),
        }
    }

    /// The calls of stage `i` in its present batch, and the last one before it, tell which
    /// event ends a batch.
    pub open spec fn ends_are_marked(self, i: int) -> bool {
        let calls = self.handed[i];
        let next = self.stage(i).next;
        match self.stage(i).phase {
            StagePhase::Stopped => true,
            StagePhase::Delivering { seq, batch_end } => {
                &&& next > 0 ==> calls[next - 1].end_of_batch
                &&& forall|k: int|
                    next <= k < seq ==> ((#[trigger] calls[k]).end_of_batch <==> k == batch_end)
            },
            _ => next > 0 ==> calls[next - 1].end_of_batch,
        }
    }

    /// What holds of a disruptor at all times.
    pub open spec fn wf(self) -> bool {
        &&& self.system.inv()
        &&& self.shape()
        &&& self.is_exclusive()
        &&& self.slots_hold_events()
        &&& forall|i: int| 0 <= i < self.handed.len() ==> #[trigger] self.handed_in_order(i)
        &&& forall|k: int| 0 <= k < self.events.len() ==> #[trigger] self.event_is_current(k)
        &&& forall|i: int, k: int|
            0 <= i < self.handed.len() && 0 <= k < self.handed[i].len()
                ==> #[trigger] self.handed_rightly(i, k)
        &&& forall|i: int| 0 <= i < self.handed.len() ==> #[trigger] self.record_is_true(i)
        &&& forall|i: int| 0 <= i < self.handed.len() ==> #[trigger] self.ends_are_marked(i)
        &&& forall|i: int|
            0 <= i < self.panicked.len() && #[trigger] self.has_ended(i) ==> self.alerted
    }
}

/// A stage can take its next step.
proof fn lemma_next_enabled<T>(pre: DisruptorState<T>, i: int, sight: Sight)
    requires
        pre.wf(),
        0 <= i < pre.handed.len(),
        !pre.has_ended(i),
        pre.may_see(i, sight),
    ensures
        pre.system.enabled(pre.next_event_on(i, sight)),
        pre.system.next(pre.next_event_on(i, sight)).inv(),
{
    assert(pre.system.stage_inv(i));
    protocol::law_steps_keep_the_invariant(pre.system, pre.next_event_on(i, sight));
}

/// A stage may see things as they stand.
pub proof fn lemma_sight<T>(pre: DisruptorState<T>, i: int)
    requires
        pre.wf(),
        0 <= i < pre.handed.len(),
    ensures
        pre.may_see(i, pre.sight(i)),
{
    let sys = pre.system;
    let up = sys.upstream(i);
    assert(sys.stage_inv(i));
    assert forall|k: int| #![trigger up[k]] 0 <= k < up.len() implies sequence::INITIAL
        <= up[k] by {
        if sys.deps[i].len() > 0 {
            let d = sys.deps[i][k];
            assert(sys.stage_inv(d));
            assert(sys.stages[d].wf());
        }
    }
}

/// A stage that changes events and was handed event `k` is an ancestor of a stage that
/// is about to be handed it.
proof fn lemma_touched_above<T>(pre: DisruptorState<T>, i: int, m: int, k: int)
    requires
        pre.wf(),
        0 <= i < pre.handed.len(),
        k == pre.handed[i].len(),
        pre.stage(i).phase is Delivering,
        k <= protocol::reserved(pre.stage(i)),
        pre.touched(m, k),
    ensures
        m != i,
        pre.changes_above(m, i),
{
    assert(pre.handed_in_order(i));
    assert(pre.handed_in_order(m));
    assert(pre.system.stage_inv(i));
    assert(pre.system.stage_inv(m));
    assert(pre.stage(i).wf());
    assert(pre.stage(m).wf());
    assert(graph::comparable(pre.system.deps, m, i));
    if graph::reaches(pre.system.deps, i, m) {
        protocol::lemma_behind(pre.system, i, m);
    }
}

/// An ancestor that changes events has been handed what a stage is about to be handed.
proof fn lemma_above_touched<T>(pre: DisruptorState<T>, i: int, m: int, k: int)
    requires
        pre.wf(),
        0 <= i < pre.handed.len(),
        k <= protocol::reserved(pre.stage(i)),
        pre.changes_above(m, i),
    ensures
        pre.touched(m, k),
{
    protocol::lemma_behind(pre.system, m, i);
    assert(pre.handed_in_order(m));
    assert(pre.system.stage_inv(m));
    assert(pre.stage(m).wf());
}

/// One call more.
proof fn lemma_heard_more<T>(
    registered: Stage<T>,
    calls: Seq<Handed<T>>,
    last: Stage<T>,
    call: Handed<T>,
)
    requires
        has_heard(registered, calls, last),
        call.consumer == last,
        call.was_made(),
    ensures
        has_heard(registered, calls.push(call), call.consumer_after),
{
    let all = calls.push(call);
    assert forall|k: int| 0 <= k < all.len() implies (#[trigger] all[k]).was_made() by {
        if k < calls.len() {
            assert(all[k] == calls[k]);
        }
    }
    assert forall|k: int| 0 <= k < all.len() implies #[trigger] follows(all, k) by {
        if k < calls.len() {
            assert(follows(calls, k));
        }
    }
}

/// The record of a stage that nothing has happened to stays true.
proof fn lemma_record_is_still_true<T>(pre: DisruptorState<T>, post: DisruptorState<T>, j: int)
    requires
        pre.record_is_true(j),
        post.registered[j] == pre.registered[j],
        post.handed[j] == pre.handed[j],
        post.consumers[j] == pre.consumers[j],
        post.stage(j).phase == pre.stage(j).phase,
    ensures
        post.record_is_true(j),
{
    if pre.stage(j).phase is Stopped {
        let last = choose|last: Stage<T>| #[trigger]
            has_heard(pre.registered[j], pre.handed[j], last) && consumer::is_shutdown(
                last,
                pre.consumers[j],
            );
        assert(has_heard(post.registered[j], post.handed[j], last));
    }
}

/// A step of a stage keeps the records true.
proof fn lemma_records_stay_true<T>(
    pre: DisruptorState<T>,
    i: int,
    sight: Sight,
    left: Left<T>,
    j: int,
)
    requires
        pre.wf(),
        0 <= i < pre.handed.len(),
        0 <= j < pre.handed.len(),
        !pre.has_ended(i),
        pre.may_see(i, sight),
        pre.may_leave_on(i, sight, left),
    ensures
        pre.stepped_on(i, sight, left).record_is_true(j),
{
    let post = pre.stepped_on(i, sight, left);
    assert(pre.record_is_true(j));
    assert(pre.record_is_true(i));
    assert(pre.system.stage_inv(i));
    assert(pre.stage(i).wf());
    if j != i {
        lemma_record_is_still_true(pre, post, j);
    } else {
        match pre.next_step_on(i, sight) {
            StageStep::Started => {
                assert(has_heard(post.registered[i], post.handed[i], post.consumers[i]));
            },
            StageStep::Delivered { sequence, end_of_batch } => {
                let call = post.handed[i].last();
                assert(post.handed[i] == pre.handed[i].push(call));
                lemma_heard_more(pre.registered[i], pre.handed[i], pre.consumers[i], call);
            },
            StageStep::Stopped => {
                assert(has_heard(post.registered[i], post.handed[i], pre.consumers[i]));
            },
            _ => {},
        }
    }
}

/// A step of a stage keeps the ends of batches marked.
proof fn lemma_ends_stay_marked<T>(
    pre: DisruptorState<T>,
    i: int,
    sight: Sight,
    left: Left<T>,
    j: int,
)
    requires
        pre.wf(),
        0 <= i < pre.handed.len(),
        0 <= j < pre.handed.len(),
        !pre.has_ended(i),
        pre.may_see(i, sight),
        pre.may_leave_on(i, sight, left),
    ensures
        pre.stepped_on(i, sight, left).ends_are_marked(j),
{
    let post = pre.stepped_on(i, sight, left);
    assert(pre.ends_are_marked(j));
    assert(pre.ends_are_marked(i));
    assert(pre.handed_in_order(i));
    assert(pre.system.stage_inv(i));
    assert(pre.stage(i).wf());
    if j == i && pre.stage(i).phase is Delivering {
        let next = pre.stage(i).next;
        assert(forall|k: int|
            0 <= k < pre.handed[i].len() ==> #[trigger] post.handed[i][k] == pre.handed[i][k]);
        match pre.next_step_on(i, sight) {
            StageStep::Delivered { sequence, end_of_batch } => {
                assert(post.handed[i][sequence as int].end_of_batch == end_of_batch);
            },
            StageStep::Advanced(cursor) => {
                assert(pre.handed[i][cursor as int].end_of_batch);
            },
            _ => {},
        }
    }
}

/// Every step of a stage keeps the state in order, however late it sees the others.
pub proof fn law_stage_steps_keep_order<T>(
    pre: DisruptorState<T>,
    i: int,
    sight: Sight,
    left: Left<T>,
)
    requires
        pre.wf(),
        0 <= i < pre.handed.len(),
        pre.may_see(i, sight),
        pre.may_leave_on(i, sight, left),
    ensures
        pre.stepped_on(i, sight, left).wf(),
{
    if !pre.has_ended(i) {
        let post = pre.stepped_on(i, sight, left);
        lemma_next_enabled(pre, i, sight);
        assert(pre.system.stage_inv(i));
        assert(pre.stage(i).wf());
        assert(pre.handed_in_order(i));
        assert forall|j: int| 0 <= j < post.panicked.len() && #[trigger] post.has_ended(
            j,
        ) implies post.alerted by {
            if j != i {
                assert(pre.has_ended(j));
            }
        }
        assert forall|j: int| 0 <= j < post.handed.len() implies #[trigger] post.record_is_true(
            j,
        ) by {
            lemma_records_stay_true(pre, i, sight, left, j);
        }
        assert forall|j: int| 0 <= j < post.handed.len() implies #[trigger] post.ends_are_marked(
            j,
        ) by {
            lemma_ends_stay_marked(pre, i, sight, left, j);
        }
        match pre.next_step_on(i, sight) {
            StageStep::Delivered { sequence, end_of_batch } => {
                lemma_delivery_keeps_order(pre, i, sight, left);
            },
            _ => {
                assert forall|j: int| 0 <= j < post.handed.len() implies #[trigger] post.handed_in_order(
                    j,
                ) by {
                    assert(pre.handed_in_order(j));
                }
                assert forall|k: int| 0 <= k < post.events.len() implies #[trigger] post.event_is_current(
                    k,
                ) by {
                    assert(pre.event_is_current(k));
                    lemma_still_current(pre, post, k);
                }
                assert forall|j: int, k: int|
                    0 <= j < post.handed.len() && 0 <= k < post.handed[j].len() implies #[trigger] post.handed_rightly(
                j, k) by {
                    assert(pre.handed_rightly(j, k));
                    lemma_still_rightly(pre, post, j, k);
                }
                assert forall|k: int|
                    0 <= k < post.events.len() && post.events.len() - post.system.capacity()
                        <= k implies post.slots[post.slot(k)] == #[trigger] post.events[k] by {
                    assert(pre.slots[pre.slot(k)] == pre.events[k]);
                }
            },
        }
    }
}

/// Where what the stages were handed does not change, neither does who touched what.
proof fn lemma_same_touched<T>(pre: DisruptorState<T>, post: DisruptorState<T>, k: int)
    requires
        pre.is_mut == post.is_mut,
        pre.handed == post.handed,
        pre.system.deps == post.system.deps,
    ensures
        forall|m: int| #[trigger] post.touched(m, k) == pre.touched(m, k),
        forall|m: int| #[trigger] post.touched_last(m, k) == pre.touched_last(m, k),
{
    assert forall|m: int| #[trigger] post.touched_last(m, k) == pre.touched_last(m, k) by {
        if pre.touched_last(m, k) {
            assert forall|o: int| #[trigger] post.touched(o, k) && o != m implies graph::reaches(
                post.system.deps,
                o,
                m,
            ) by {
                assert(pre.touched(o, k));
            }
        }
        if post.touched_last(m, k) {
            assert forall|o: int| #[trigger] pre.touched(o, k) && o != m implies graph::reaches(
                pre.system.deps,
                o,
                m,
            ) by {
                assert(post.touched(o, k));
            }
        }
    }
}

/// Who changes events above whom is decided by the graph.
proof fn lemma_same_above<T>(pre: DisruptorState<T>, post: DisruptorState<T>, i: int)
    requires
        pre.is_mut == post.is_mut,
        pre.system.deps == post.system.deps,
    ensures
        forall|m: int| #[trigger] post.changes_above(m, i) == pre.changes_above(m, i),
        forall|m: int| #[trigger] post.changes_last_above(m, i) == pre.changes_last_above(m, i),
{
    assert forall|m: int| #[trigger] post.changes_last_above(m, i) == pre.changes_last_above(
        m,
        i,
    ) by {
        if pre.changes_last_above(m, i) {
            assert forall|o: int| #[trigger] post.changes_above(o, i) && o != m implies graph::reaches(
                post.system.deps,
                o,
                m,
            ) by {
                assert(pre.changes_above(o, i));
            }
        }
        if post.changes_last_above(m, i) {
            assert forall|o: int| #[trigger] pre.changes_above(o, i) && o != m implies graph::reaches(
                pre.system.deps,
                o,
                m,
            ) by {
                assert(post.changes_above(o, i));
            }
        }
    }
}

/// An event that nobody was handed since is as current as before.
proof fn lemma_still_current<T>(pre: DisruptorState<T>, post: DisruptorState<T>, k: int)
    requires
        pre.is_mut == post.is_mut,
        pre.handed == post.handed,
        pre.system.deps == post.system.deps,
        pre.events[k] == post.events[k],
        pre.written[k] == post.written[k],
        pre.event_is_current(k),
    ensures
        post.event_is_current(k),
{
    lemma_same_touched(pre, post, k);
    if forall|m: int| !#[trigger] post.touched(m, k) {
        assert forall|m: int| !#[trigger] pre.touched(m, k) by {
            assert(!post.touched(m, k));
        }
    }
    assert forall|m: int| #[trigger] post.touched_last(m, k) implies post.events[k]
        == post.handed[m][k].after by {
        assert(pre.touched_last(m, k));
    }
}

/// What was handed over rightly stays so.
proof fn lemma_still_rightly<T>(pre: DisruptorState<T>, post: DisruptorState<T>, j: int, k: int)
    requires
        pre.is_mut == post.is_mut,
        pre.handed == post.handed,
        pre.system.deps == post.system.deps,
        pre.written[k] == post.written[k],
        pre.handed_rightly(j, k),
    ensures
        post.handed_rightly(j, k),
{
    lemma_same_above(pre, post, j);
    if forall|m: int| !#[trigger] post.changes_above(m, j) {
        assert forall|m: int| !#[trigger] pre.changes_above(m, j) by {
            assert(!post.changes_above(m, j));
        }
    }
    assert forall|m: int| #[trigger] post.changes_last_above(m, j) implies k
        < post.handed[m].len() && post.handed[j][k].before == post.handed[m][k].after by {
        assert(pre.changes_last_above(m, j));
    }
}

proof fn lemma_delivery_keeps_order<T>(pre: DisruptorState<T>, i: int, sight: Sight, left: Left<T>)
    requires
        pre.wf(),
        0 <= i < pre.handed.len(),
        pre.may_see(i, sight),
        pre.may_leave_on(i, sight, left),
        pre.next_step_on(i, sight) is Delivered,
    ensures
        pre.stepped_on(i, sight, left).wf(),
{
    let post = pre.stepped_on(i, sight, left);
    let seq = pre.next_step_on(i, sight)->sequence as int;
    let slot = pre.slot(seq);
    let cap = pre.system.capacity();
    lemma_next_enabled(pre, i, sight);
    assert(pre.system.stage_inv(i));
    assert(pre.stage(i).wf());
    assert(pre.handed_in_order(i));
    assert(pre.event_is_current(seq));
    assert(pre.stage(i).phase is Delivering);
    assert(seq == pre.handed[i].len());
    assert forall|j: int| 0 <= j < post.handed.len() implies #[trigger] post.record_is_true(
        j,
    ) by {
        lemma_records_stay_true(pre, i, sight, left, j);
    }
    assert forall|j: int| 0 <= j < post.handed.len() implies #[trigger] post.ends_are_marked(
        j,
    ) by {
        lemma_ends_stay_marked(pre, i, sight, left, j);
    }
    assert(pre.slots[slot] == pre.events[seq]);
    assert forall|j: int| 0 <= j < post.panicked.len() && #[trigger] post.has_ended(
        j,
    ) implies post.alerted by {
        assert(pre.has_ended(j));
    }
    // The slots of the other live events are different ones.
    assert forall|k: int|
        0 <= k < post.events.len() && post.events.len() - post.system.capacity()
            <= k implies post.slots[post.slot(k)] == #[trigger] post.events[k] by {
        vstd::arithmetic::div_mod::lemma_mod_bound(k, cap);
        vstd::arithmetic::div_mod::lemma_mod_bound(seq, cap);
        if k != seq {
            if k < seq {
                protocol::lemma_slots_differ(seq, k, cap);
            } else {
                protocol::lemma_slots_differ(k, seq, cap);
            }
            assert(pre.slots[pre.slot(k)] == pre.events[k]);
        }
    }
    assert forall|j: int| 0 <= j < post.handed.len() implies #[trigger] post.handed_in_order(j) by {
        assert(pre.handed_in_order(j));
        if j == i {
            assert forall|k: int| 0 <= k < post.handed[i].len() implies (
            #[trigger] post.handed[i][k]).sequence == k && (!post.is_mut[i]
                ==> post.handed[i][k].after == post.handed[i][k].before) by {
                if k < seq {
                    assert(post.handed[i][k] == pre.handed[i][k]);
                }
            }
        }
    }
    assert forall|k: int| 0 <= k < post.events.len() implies #[trigger] post.event_is_current(
        k,
    ) by {
        assert(pre.event_is_current(k));
        lemma_current_after_delivery(pre, i, sight, left, k);
    }
    assert forall|j: int, k: int|
        0 <= j < post.handed.len() && 0 <= k < post.handed[j].len() implies #[trigger] post.handed_rightly(
    j, k) by {
        lemma_rightly_after_delivery(pre, i, sight, left, j, k);
    }
}

proof fn lemma_current_after_delivery<T>(pre: DisruptorState<T>, i: int, sight: Sight, left: Left<T>, k: int)
    requires
        pre.wf(),
        0 <= i < pre.handed.len(),
        pre.may_see(i, sight),
        pre.may_leave_on(i, sight, left),
        pre.next_step_on(i, sight) is Delivered,
        0 <= k < pre.events.len(),
    ensures
        pre.stepped_on(i, sight, left).event_is_current(k),
{
    let post = pre.stepped_on(i, sight, left);
    let seq = pre.next_step_on(i, sight)->sequence as int;
    assert(pre.system.stage_inv(i));
    assert(pre.stage(i).wf());
    assert(pre.handed_in_order(i));
    assert(pre.event_is_current(k));
    assert(pre.slots[pre.slot(seq)] == pre.events[seq]);
    assert forall|m: int| #[trigger] post.touched(m, k) == (pre.touched(m, k) || (m == i && k
        == seq && pre.is_mut[i])) by {}
    if k == seq && pre.is_mut[i] {
        assert(post.touched(i, k));
        assert forall|m: int| #[trigger] post.touched_last(m, k) implies post.events[k]
            == post.handed[m][k].after by {
            if m != i {
                assert(graph::reaches(post.system.deps, i, m));
                lemma_touched_above(pre, i, m, k);
                graph::lemma_reaches_transitive(pre.system.deps, i, m, i);
                graph::lemma_ordered_is_acyclic(pre.system.deps, pre.system.order);
            }
        }
    } else {
        assert(post.events[k] == pre.events[k]);
        assert forall|m: int| #[trigger] post.touched(m, k) == pre.touched(m, k) by {}
        if forall|m: int| !#[trigger] post.touched(m, k) {
            assert forall|m: int| !#[trigger] pre.touched(m, k) by {
                assert(!post.touched(m, k));
            }
        }
        assert forall|m: int| #[trigger] post.touched_last(m, k) implies post.events[k]
            == post.handed[m][k].after by {
            assert forall|o: int| #[trigger] pre.touched(o, k) && o != m implies graph::reaches(
                pre.system.deps,
                o,
                m,
            ) by {
                assert(post.touched(o, k));
            }
            assert(pre.touched_last(m, k));
            assert(post.handed[m][k] == pre.handed[m][k]);
        }
    }
}

proof fn lemma_rightly_after_delivery<T>(pre: DisruptorState<T>, i: int, sight: Sight, left: Left<T>, j: int, k: int)
    requires
        pre.wf(),
        0 <= i < pre.handed.len(),
        pre.may_see(i, sight),
        pre.may_leave_on(i, sight, left),
        pre.next_step_on(i, sight) is Delivered,
        0 <= j < pre.handed.len(),
        0 <= k < pre.stepped_on(i, sight, left).handed[j].len(),
    ensures
        pre.stepped_on(i, sight, left).handed_rightly(j, k),
{
    let post = pre.stepped_on(i, sight, left);
    let seq = pre.next_step_on(i, sight)->sequence as int;
    assert(pre.system.stage_inv(i));
    assert(pre.stage(i).wf());
    assert(pre.handed_in_order(i));
    assert(pre.slots[pre.slot(seq)] == pre.events[seq]);
    lemma_same_above(pre, post, j);
    if j != i || k < seq {
        assert(pre.handed_rightly(j, k));
        assert(post.handed[j][k] == pre.handed[j][k]);
        if forall|m: int| !#[trigger] post.changes_above(m, j) {
            assert forall|m: int| !#[trigger] pre.changes_above(m, j) by {
                assert(!post.changes_above(m, j));
            }
        }
        assert forall|m: int| #[trigger] post.changes_last_above(m, j) implies k
            < post.handed[m].len() && post.handed[j][k].before == post.handed[m][k].after by {
            assert(pre.changes_last_above(m, j));
            assert(post.handed[m][k] == pre.handed[m][k]);
        }
    } else {
        assert(pre.event_is_current(seq));
        assert(post.handed[i][k].before == pre.events[seq]);
        if forall|m: int| !#[trigger] post.changes_above(m, i) {
            assert forall|m: int| !#[trigger] pre.touched(m, seq) by {
                if pre.touched(m, seq) {
                    lemma_touched_above(pre, i, m, seq);
                    assert(!post.changes_above(m, i));
                }
            }
        }
        assert forall|m: int| #[trigger] post.changes_last_above(m, i) implies k
            < post.handed[m].len() && post.handed[i][k].before == post.handed[m][k].after by {
            assert(pre.changes_last_above(m, i));
            lemma_above_touched(pre, i, m, seq);
            assert forall|o: int| #[trigger] pre.touched(o, seq) && o != m implies graph::reaches(
                pre.system.deps,
                o,
                m,
            ) by {
                lemma_touched_above(pre, i, o, seq);
                assert(pre.changes_above(o, i));
            }
            assert(pre.touched_last(m, seq));
            assert(m != i) by {
                graph::lemma_ordered_is_acyclic(pre.system.deps, pre.system.order);
            }
        }
    }
}

/// Where only the producer changes, who was handed what stays in order.
proof fn lemma_producer_only<T>(pre: DisruptorState<T>, post: DisruptorState<T>)
    requires
        pre.wf(),
        post.system.inv(),
        post.system.capacity() == pre.system.capacity(),
        post == (DisruptorState { system: post.system, alerted: post.alerted, ..pre }),
        pre.alerted ==> post.alerted,
        post.system == (System { producer: post.system.producer, ..pre.system }),
    ensures
        post.wf(),
{
    assert forall|j: int| 0 <= j < post.panicked.len() && #[trigger] post.has_ended(
        j,
    ) implies post.alerted by {
        assert(pre.has_ended(j));
    }
    assert forall|j: int| 0 <= j < post.handed.len() implies #[trigger] post.record_is_true(
        j,
    ) by {
        assert(pre.record_is_true(j));
        lemma_record_is_still_true(pre, post, j);
    }
    assert forall|j: int| 0 <= j < post.handed.len() implies #[trigger] post.ends_are_marked(
        j,
    ) by {
        assert(pre.ends_are_marked(j));
    }
    assert forall|j: int| 0 <= j < post.handed.len() implies #[trigger] post.handed_in_order(j) by {
        assert(pre.handed_in_order(j));
    }
    assert forall|k: int|
        0 <= k < post.events.len() && post.events.len() - post.system.capacity()
            <= k implies post.slots[post.slot(k)] == #[trigger] post.events[k] by {
        assert(pre.slots[pre.slot(k)] == pre.events[k]);
    }
    assert forall|k: int| 0 <= k < post.events.len() implies #[trigger] post.event_is_current(
        k,
    ) by {
        assert(pre.event_is_current(k));
        lemma_still_current(pre, post, k);
    }
    assert forall|j: int, k: int|
        0 <= j < post.handed.len() && 0 <= k < post.handed[j].len() implies #[trigger] post.handed_rightly(
    j, k) by {
        assert(pre.handed_rightly(j, k));
        lemma_still_rightly(pre, post, j, k);
    }
}

/// The steps by which the producer gets hold of a slot keep the state in order.
pub proof fn law_claims_keep_order<T>(pre: DisruptorState<T>, event: Event)
    requires
        pre.wf(),
        pre.system.enabled(event),
        event is Begin || event is CheckGate || event is Stall || event is Abandon,
    ensures
        pre.with_producer(pre.system.next(event).producer).wf(),
        pre.with_producer(pre.system.next(event).producer).system == pre.system.next(event),
{
    let post = pre.with_producer(pre.system.next(event).producer);
    protocol::law_steps_keep_the_invariant(pre.system, event);
    assert(post.system == pre.system.next(event));
    lemma_producer_only(pre, post);
}

/// Raising the alert keeps the state in order.
pub proof fn law_alert_keeps_order<T>(pre: DisruptorState<T>)
    requires
        pre.wf(),
    ensures
        pre.with_alert().wf(),
{
    lemma_producer_only(pre, pre.with_alert());
}

/// The failure of a consumer, which raises the alert, keeps the state in order.
pub proof fn law_failure_keeps_order<T>(pre: DisruptorState<T>, i: int)
    requires
        pre.wf(),
        0 <= i < pre.panicked.len(),
    ensures
        (DisruptorState { panicked: pre.panicked.update(i, true), ..pre.with_alert() }).wf(),
{
    let mid = pre.with_alert();
    law_alert_keeps_order(pre);
    let post = DisruptorState { panicked: pre.panicked.update(i, true), ..mid };
    assert forall|j: int| 0 <= j < post.handed.len() implies #[trigger] post.record_is_true(
        j,
    ) by {
        assert(mid.record_is_true(j));
        lemma_record_is_still_true(mid, post, j);
    }
    assert forall|j: int| 0 <= j < post.handed.len() implies #[trigger] post.ends_are_marked(
        j,
    ) by {
        assert(mid.ends_are_marked(j));
    }
    assert forall|j: int| 0 <= j < post.handed.len() implies #[trigger] post.handed_in_order(j) by {
        assert(mid.handed_in_order(j));
    }
    assert forall|k: int| 0 <= k < post.events.len() implies #[trigger] post.event_is_current(
        k,
    ) by {
        assert(mid.event_is_current(k));
        lemma_still_current(mid, post, k);
    }
    assert forall|j: int, k: int|
        0 <= j < post.handed.len() && 0 <= k < post.handed[j].len() implies #[trigger] post.handed_rightly(
    j, k) by {
        assert(mid.handed_rightly(j, k));
        lemma_still_rightly(mid, post, j, k);
    }
    assert forall|k: int|
        0 <= k < post.events.len() && post.events.len() - post.system.capacity()
            <= k implies post.slots[post.slot(k)] == #[trigger] post.events[k] by {
        assert(mid.slots[mid.slot(k)] == mid.events[k]);
    }
}

/// A publication keeps the state in order: the event that it overwrites is one that no
/// stage needs any more.
pub proof fn law_publications_keep_order<T>(pre: DisruptorState<T>, value: T)
    requires
        pre.wf(),
        pre.system.producer.phase is Claimed,
    ensures
        pre.published_with(value).wf(),
{
    let post = pre.published_with(value);
    let seq = pre.system.producer.next_seq;
    let cap = pre.system.capacity();
    protocol::law_steps_keep_the_invariant(pre.system, Event::Commit);
    assert forall|m: int| 0 <= m < pre.handed.len() implies (#[trigger] pre.handed[m]).len()
        <= seq by {
        assert(pre.handed_in_order(m));
        assert(pre.system.stage_inv(m));
        assert(pre.stage(m).wf());
    }
    assert forall|j: int| 0 <= j < post.panicked.len() && #[trigger] post.has_ended(
        j,
    ) implies post.alerted by {
        assert(pre.has_ended(j));
    }
    assert forall|j: int| 0 <= j < post.handed.len() implies #[trigger] post.record_is_true(
        j,
    ) by {
        assert(pre.record_is_true(j));
        lemma_record_is_still_true(pre, post, j);
    }
    assert forall|j: int| 0 <= j < post.handed.len() implies #[trigger] post.ends_are_marked(
        j,
    ) by {
        assert(pre.ends_are_marked(j));
    }
    assert forall|j: int| 0 <= j < post.handed.len() implies #[trigger] post.handed_in_order(j) by {
        assert(pre.handed_in_order(j));
    }
    assert forall|k: int|
        0 <= k < post.events.len() && post.events.len() - post.system.capacity()
            <= k implies post.slots[post.slot(k)] == #[trigger] post.events[k] by {
        vstd::arithmetic::div_mod::lemma_mod_bound(k, cap);
        vstd::arithmetic::div_mod::lemma_mod_bound(seq, cap);
        if k < seq {
            protocol::lemma_slots_differ(seq, k, cap);
            assert(pre.slots[pre.slot(k)] == pre.events[k]);
        }
    }
    assert forall|k: int| 0 <= k < post.events.len() implies #[trigger] post.event_is_current(
        k,
    ) by {
        if k < seq {
            assert(pre.event_is_current(k));
            lemma_still_current(pre, post, k);
        } else {
            assert forall|m: int| !#[trigger] post.touched(m, k) by {
                if 0 <= m < pre.handed.len() {
                    assert(pre.handed[m].len() <= seq);
                }
            }
        }
    }
    assert forall|j: int, k: int|
        0 <= j < post.handed.len() && 0 <= k < post.handed[j].len() implies #[trigger] post.handed_rightly(
    j, k) by {
        assert(pre.handed[j].len() <= seq);
        assert(pre.handed_rightly(j, k));
        lemma_still_rightly(pre, post, j, k);
    }
}

/// Nothing has happened yet to a disruptor of this many slots and with batches of at most
/// this many events.
pub open spec fn is_fresh<T>(state: DisruptorState<T>, capacity: int, max_batch_size: int) -> bool {
    let n = state.system.deps.len();
    &&& state.system.is_initial(capacity, max_batch_size)
    &&& !state.alerted
    &&& state.slots.len() == capacity
    &&& state.written == Seq::<T>::empty()
    &&& state.events == Seq::<T>::empty()
    &&& state.handed == Seq::new(n, |i: int| Seq::<Handed<T>>::empty())
    &&& state.registered.len() == n
    &&& state.consumers == state.registered
    &&& state.names.len() == n
    &&& state.is_mut.len() == n
    &&& state.panicked == Seq::new(n, |i: int| false)
    &&& state.is_exclusive()
}

/// A disruptor starts in order.
pub proof fn law_fresh_is_in_order<T>(state: DisruptorState<T>, capacity: int, max_batch_size: int)
    requires
        is_fresh(state, capacity, max_batch_size),
    ensures
        state.wf(),
{
    protocol::lemma_initial(state.system, capacity, max_batch_size);
    assert forall|i: int| 0 <= i < state.handed.len() implies #[trigger] state.handed_in_order(i) by {
        assert(state.system.stages[i] == StageState::initial(max_batch_size));
    }
    assert forall|i: int| 0 <= i < state.handed.len() implies #[trigger] state.record_is_true(i) by {
        assert(state.system.stages[i] == StageState::initial(max_batch_size));
    }
    assert forall|i: int| 0 <= i < state.handed.len() implies #[trigger] state.ends_are_marked(i) by {
        assert(state.system.stages[i] == StageState::initial(max_batch_size));
    }
}

/// One move of anybody.
#[verifier::reject_recursive_types(T)]
pub enum Move<T> {
    /// A stage takes a step on what it sees; `left` is what the step leaves behind, where
    /// it calls the consumer.
    Step { stage: int, sight: Sight, left: Left<T> },
    /// The producer tries to get hold of a slot, or gives it back.
    Claim(Event),
    /// The producer fills the slot that it holds and publishes the event.
    Publish(T),
    /// The disruptor is shut down.
    Alert,
    /// The consumer of a stage fails, which alerts the others.
    Fail { stage: int },
}

impl<T> DisruptorState<T> {
    /// Whether a move can be made.
    pub open spec fn can_make(self, m: Move<T>) -> bool {
        match m {
            Move::Step { stage, sight, left } => 0 <= stage < self.handed.len() && self.may_see(
                stage,
                sight,
            ) && self.may_leave_on(stage, sight, left),
            Move::Claim(event) => self.system.enabled(event) && (event is Begin
                || event is CheckGate || event is Stall || event is Abandon),
            Move::Publish(value) => self.system.producer.phase is Claimed,
            Move::Alert => true,
            Move::Fail { stage } => 0 <= stage < self.handed.len(),
        }
    }

    /// The state after a move.
    pub open spec fn moved(self, m: Move<T>) -> DisruptorState<T> {
        match m {
            Move::Step { stage, sight, left } => self.stepped_on(stage, sight, left),
            Move::Claim(event) => self.with_producer(self.system.next(event).producer),
            Move::Publish(value) => self.published_with(value),
            Move::Alert => self.with_alert(),
            Move::Fail { stage } => DisruptorState {
                panicked: self.panicked.update(stage, true),
                ..self.with_alert()
            },
        }
    }
}

/// `states` are what the moves lead through.
pub open spec fn is_course<T>(states: Seq<DisruptorState<T>>, moves: Seq<Move<T>>) -> bool {
    &&& states.len() == moves.len() + 1
    &&& forall|t: int|
        0 <= t < moves.len() ==> (#[trigger] states[t]).can_make(moves[t]) && states[t + 1]
            == states[t].moved(moves[t])
}

/// Whoever moves when, and however late the stages and the producer see each other, the
/// state stays in order: each stage is handed the events one after the other, as they
/// were written or as the last ancestor that changes events left them.
pub proof fn law_order_is_kept_along_courses<T>(
    states: Seq<DisruptorState<T>>,
    moves: Seq<Move<T>>,
    capacity: int,
    max_batch_size: int,
    t: int,
)
    requires
        is_course(states, moves),
        is_fresh(states[0], capacity, max_batch_size),
        0 <= t < states.len(),
    ensures
        states[t].wf(),
    decreases t,
{
    if t == 0 {
        law_fresh_is_in_order(states[0], capacity, max_batch_size);
    } else {
        law_order_is_kept_along_courses(states, moves, capacity, max_batch_size, t - 1);
        let pre = states[t - 1];
        assert(pre.can_make(moves[t - 1]));
        assert(states[t - 1 + 1] == pre.moved(moves[t - 1]));
        match moves[t - 1] {
            Move::Step { stage, sight, left } => {
                law_stage_steps_keep_order(pre, stage, sight, left);
            },
            Move::Claim(event) => {
                law_claims_keep_order(pre, event);
            },
            Move::Publish(value) => {
                law_publications_keep_order(pre, value);
            },
            Move::Alert => {
                law_alert_keeps_order(pre);
            },
            Move::Fail { stage } => {
                law_failure_keeps_order(pre, stage);
            },
        }
    }
}

/// Nothing is taken back: what was published and what was handed over stays so.
pub proof fn law_moves_only_add<T>(pre: DisruptorState<T>, m: Move<T>)
    requires
        pre.wf(),
        pre.can_make(m),
    ensures
        pre.written.is_prefix_of(pre.moved(m).written),
        pre.alerted ==> pre.moved(m).alerted,
        forall|i: int|
            0 <= i < pre.handed.len() ==> (#[trigger] pre.handed[i]).is_prefix_of(
                pre.moved(m).handed[i],
            ),
{
    let post = pre.moved(m);
    assert(pre.written =~= post.written.subrange(0, pre.written.len() as int));
    assert forall|i: int| 0 <= i < pre.handed.len() implies (#[trigger] pre.handed[i]).is_prefix_of(
        post.handed[i],
    ) by {
        assert(pre.handed[i] =~= post.handed[i].subrange(0, pre.handed[i].len() as int));
    }
}

/// How many steps are left for a stage to consume what is published, at most.
pub open spec fn work_of(stage: StageState, published: int) -> int {
    match stage.phase {
        StagePhase::Starting => 3 * (published - (stage.next - 1)) + 3,
        StagePhase::Waiting { attempt } => 3 * (published - (stage.next - 1)) + 2,
        StagePhase::Delivering { seq, batch_end } => if seq == stage.next {
            3 * (published - (seq - 1)) + 1
        } else {
            3 * (published - (seq - 1)) + 3
        },
        StagePhase::Stopped => 0,
    }
}

/// The steps left for all of the stages.
pub open spec fn total_work(stages: Seq<StageState>, published: int) -> int
    decreases stages.len(),
{
    if stages.len() == 0 {
        0
    } else {
        total_work(stages.drop_last(), published) + work_of(stages.last(), published)
    }
}

proof fn lemma_total_update(stages: Seq<StageState>, published: int, i: int, new: StageState)
    requires
        0 <= i < stages.len(),
    ensures
        total_work(stages.update(i, new), published) == total_work(stages, published) - work_of(
            stages[i],
            published,
        ) + work_of(new, published),
    decreases stages.len(),
{
    let after = stages.update(i, new);
    if i == stages.len() - 1 {
        assert(after.drop_last() =~= stages.drop_last());
    } else {
        lemma_total_update(stages.drop_last(), published, i, new);
        assert(after.drop_last() =~= stages.drop_last().update(i, new));
    }
}

proof fn lemma_total_bound(stages: Seq<StageState>, published: int)
    requires
        forall|i: int| 0 <= i < stages.len() ==> work_of(#[trigger] stages[i], published) >= 0,
    ensures
        total_work(stages, published) >= 0,
    decreases stages.len(),
{
    if stages.len() > 0 {
        let head = stages.drop_last();
        assert forall|i: int| 0 <= i < head.len() implies work_of(#[trigger] head[i], published)
            >= 0 by {
            assert(head[i] == stages[i]);
        }
        lemma_total_bound(head, published);
        assert(work_of(stages[stages.len() - 1], published) >= 0);
    }
}

impl<T> DisruptorState<T> {
    /// The steps left for all of the stages.
    pub open spec fn work(self) -> int {
        total_work(self.system.stages, self.system.published)
    }

    /// The next step of stage `i` gets it further.
    pub open spec fn moves(self, i: int) -> bool {
        !(self.next_step(i) is Idle) && !(self.next_step(i) is Ended)
    }
}

pub proof fn lemma_work_is_finite<T>(state: DisruptorState<T>)
    requires
        state.wf(),
    ensures
        state.work() >= 0,
{
    let stages = state.system.stages;
    assert forall|i: int| 0 <= i < stages.len() implies work_of(
        #[trigger] stages[i],
        state.system.published,
    ) >= 0 by {
        assert(state.system.stage_inv(i));
        assert(stages[i].wf());
    }
    lemma_total_bound(stages, state.system.published);
}

/// A step that gets a stage further leaves less work; the others leave as much.
pub proof fn lemma_steps_do_work<T>(pre: DisruptorState<T>, i: int, left: Left<T>)
    requires
        pre.wf(),
        0 <= i < pre.handed.len(),
    ensures
        pre.moves(i) ==> pre.stepped(i, left).work() < pre.work(),
        !pre.moves(i) ==> pre.stepped(i, left).work() == pre.work(),
{
    if !pre.has_ended(i) {
        let post = pre.stepped(i, left);
        assert(pre.system.stage_inv(i));
        assert(pre.stage(i).wf());
        lemma_total_update(
            pre.system.stages,
            pre.system.published,
            i,
            post.system.stages[i],
        );
        assert(post.system.stages =~= pre.system.stages.update(i, post.system.stages[i]));
        if pre.stage(i).phase is Waiting {
            let up = pre.system.upstream(i);
            sequence::lemma_least(up);
        }
    }
}

/// While a stage that changes events works on one, no other stage works on an event in
/// the same slot, and the producer does not write there.
pub proof fn law_mutable_stages_are_alone_in_their_slots<T>(state: DisruptorState<T>, i: int, j: int)
    requires
        state.wf(),
        0 <= i < state.is_mut.len(),
        0 <= j < state.is_mut.len(),
        i != j,
        state.is_mut[i],
        state.stage(i).holds() is Some,
    ensures
        state.stage(j).holds() is Some ==> state.slot(state.stage(i).holds()->0) != state.slot(
            state.stage(j).holds()->0,
        ),
        state.system.producer.holds() is Some ==> state.slot(state.stage(i).holds()->0)
            != state.slot(state.system.producer.holds()->0),
{
    assert(graph::comparable(state.system.deps, i, j));
    if state.stage(j).holds() is Some {
        protocol::law_ordered_stages_exclude_each_other(state.system, i, j);
    }
    if state.system.producer.holds() is Some {
        protocol::law_producer_is_alone_in_its_slot(state.system, i);
    }
}

/// The events are numbered from 0 on: the next one to be published gets the number of
/// those that there are.
pub proof fn law_sequences_number_the_events<T>(state: DisruptorState<T>)
    requires
        state.wf(),
    ensures
        state.system.producer.next_seq == state.written.len(),
        state.system.published == state.written.len() - 1,
{
}

/// Whatever a stage is recorded to have been handed, its consumer was called with: the
/// consumer that was registered was told to start, was called with the events 0, 1, 2 and
/// so on, in this order and with nothing in between, and, if the stage has stopped, was
/// told to shut down last of all.
pub proof fn law_consumers_get_what_is_recorded<T>(state: DisruptorState<T>, i: int) -> (last:
    Stage<T>)
    requires
        state.wf(),
        0 <= i < state.handed.len(),
        !(state.stage(i).phase is Starting),
    ensures
        has_heard(state.registered[i], state.handed[i], last),
        forall|k: int|
            0 <= k < state.handed[i].len() ==> (#[trigger] state.handed[i][k]).sequence == k,
        if state.stage(i).phase is Stopped {
            consumer::is_shutdown(last, state.consumers[i])
        } else {
            last == state.consumers[i]
        },
{
    assert(state.record_is_true(i));
    assert(state.handed_in_order(i));
    if state.stage(i).phase is Stopped {
        choose|last: Stage<T>| #[trigger]
            has_heard(state.registered[i], state.handed[i], last) && consumer::is_shutdown(
                last,
                state.consumers[i],
            )
    } else {
        state.consumers[i]
    }
}

/// A stage without an ancestor that changes events is handed every event as it was
/// written, one after the other.
pub proof fn law_readers_see_what_was_written<T>(state: DisruptorState<T>, i: int, k: int)
    requires
        state.wf(),
        0 <= i < state.handed.len(),
        0 <= k < state.handed[i].len(),
        forall|m: int| !#[trigger] state.changes_above(m, i),
    ensures
        state.handed[i][k].sequence == k,
        state.handed[i][k].before == state.written[k],
{
    assert(state.handed_in_order(i));
    assert(state.handed_rightly(i, k));
}

/// Once every stage has caught up, a stage without an ancestor that changes events has
/// been handed exactly the events that were published, in the order of publication.
pub proof fn law_what_is_published_is_consumed<T>(state: DisruptorState<T>, i: int)
    requires
        state.wf(),
        state.all_caught_up(),
        0 <= i < state.handed.len(),
        forall|m: int| !#[trigger] state.changes_above(m, i),
    ensures
        Seq::new(state.handed[i].len(), |k: int| state.handed[i][k].before) == state.written,
{
    assert(state.has_caught_up(i));
    let found = Seq::new(state.handed[i].len(), |k: int| state.handed[i][k].before);
    assert forall|k: int| 0 <= k < found.len() implies #[trigger] found[k] == state.written[k] by {
        law_readers_see_what_was_written(state, i, k);
    }
    assert(found =~= state.written);
}

/// A stage below stages that change events is handed every event as the last of them
/// left it.
pub proof fn law_readers_see_what_was_changed<T>(state: DisruptorState<T>, m: int, i: int, k: int)
    requires
        state.wf(),
        0 <= i < state.handed.len(),
        0 <= k < state.handed[i].len(),
        state.changes_last_above(m, i),
    ensures
        state.handed[i][k].sequence == k,
        state.handed[m][k].sequence == k,
        state.handed[i][k].before == state.handed[m][k].after,
{
    assert(state.handed_in_order(i));
    assert(state.handed_rightly(i, k));
    assert(state.handed_in_order(m));
}

/// A turn of a stage: one step, and what it leaves behind, where it calls the consumer.
#[verifier::reject_recursive_types(T)]
pub struct Turn<T> {
    pub stage: int,
    pub left: Left<T>,
}

/// One turn of each of the first `n` stages, in the order of their numbers.
pub open spec fn is_round<T>(turns: Seq<Turn<T>>, n: int) -> bool {
    turns.len() == n && forall|k: int| 0 <= k < n ==> (#[trigger] turns[k]).stage == k
}

impl<T> DisruptorState<T> {
    /// The state after the given turns.
    pub open spec fn after(self, turns: Seq<Turn<T>>) -> DisruptorState<T>
        decreases turns.len(),
    {
        if turns.len() == 0 {
            self
        } else {
            self.after(turns.drop_last()).stepped(turns.last().stage, turns.last().left)
        }
    }

    /// The turns are those of stages that exist, and a stage changes events only if it is
    /// a mutable one.
    pub open spec fn allows(self, turns: Seq<Turn<T>>) -> bool
        decreases turns.len(),
    {
        turns.len() == 0 || {
            &&& self.allows(turns.drop_last())
            &&& 0 <= turns.last().stage < self.handed.len()
            &&& self.after(turns.drop_last()).may_leave(turns.last().stage, turns.last().left)
        }
    }

    /// `other` differs at most in what the stages have done.
    pub open spec fn same_but_for_stages(self, other: DisruptorState<T>) -> bool {
        &&& self.system == (System {
            cursors: self.system.cursors,
            stages: self.system.stages,
            ..other.system
        })
        &&& self.alerted == other.alerted
        &&& self.written == other.written
        &&& self.registered == other.registered
        &&& self.names == other.names
        &&& self.is_mut == other.is_mut
        &&& self.panicked == other.panicked
        &&& self.slots.len() == other.slots.len()
        &&& self.events.len() == other.events.len()
        &&& self.handed.len() == other.handed.len()
        &&& self.consumers.len() == other.consumers.len()
    }

    /// No stage gets further.
    pub open spec fn rests(self) -> bool {
        forall|i: int| 0 <= i < self.handed.len() ==> !#[trigger] self.moves(i)
    }

    /// Stage `i` was handed every event that was published, and is done with it.
    pub open spec fn has_caught_up(self, i: int) -> bool {
        &&& self.system.cursors[i] == self.system.published
        &&& self.handed[i].len() == self.written.len()
    }

    pub open spec fn all_caught_up(self) -> bool {
        forall|i: int| 0 <= i < self.handed.len() ==> #[trigger] self.has_caught_up(i)
    }

    /// The consumer of stage `i` was called with every event that was published.
    pub open spec fn has_heard_all(self, i: int) -> bool {
        &&& has_heard(self.registered[i], self.handed[i], self.consumers[i])
        &&& self.handed[i].len() == self.written.len()
    }

    pub open spec fn all_have_heard_all(self) -> bool {
        forall|i: int| 0 <= i < self.handed.len() ==> #[trigger] self.has_heard_all(i)
    }

    pub open spec fn all_ended(self) -> bool {
        forall|i: int| 0 <= i < self.handed.len() ==> #[trigger] self.has_ended(i)
    }

    /// The first `n` stages do not get further.
    pub open spec fn rests_up_to(self, n: int) -> bool {
        forall|i: int| 0 <= i < n ==> !#[trigger] self.moves(i)
    }
}

/// Turns keep the state in order, add to what the stages were handed, and publish
/// nothing.
pub proof fn law_turns_keep_order<T>(pre: DisruptorState<T>, turns: Seq<Turn<T>>)
    requires
        pre.wf(),
        pre.allows(turns),
    ensures
        pre.after(turns).wf(),
        pre.after(turns).same_but_for_stages(pre),
        forall|i: int|
            0 <= i < pre.handed.len() ==> (#[trigger] pre.handed[i]).is_prefix_of(
                pre.after(turns).handed[i],
            ),
        pre.after(turns).work() <= pre.work(),
    decreases turns.len(),
{
    if turns.len() > 0 {
        let before = turns.drop_last();
        let turn = turns.last();
        law_turns_keep_order(pre, before);
        let mid = pre.after(before);
        lemma_sight(mid, turn.stage);
        law_stage_steps_keep_order(mid, turn.stage, mid.sight(turn.stage), turn.left);
        lemma_steps_do_work(mid, turn.stage, turn.left);
        let post = pre.after(turns);
        assert forall|i: int| 0 <= i < pre.handed.len() implies (
        #[trigger] pre.handed[i]).is_prefix_of(post.handed[i]) by {
            assert(pre.handed[i].is_prefix_of(mid.handed[i]));
            assert(mid.handed_in_order(i));
            assert(mid.handed[i].is_prefix_of(post.handed[i]));
            assert(pre.handed[i] =~= post.handed[i].subrange(0, pre.handed[i].len() as int));
        }
    }
}

/// Turns one after the other.
pub proof fn lemma_turns_join<T>(pre: DisruptorState<T>, a: Seq<Turn<T>>, b: Seq<Turn<T>>)
    requires
        pre.wf(),
        pre.allows(a),
        pre.after(a).allows(b),
    ensures
        pre.allows(a + b),
        pre.after(a + b) == pre.after(a).after(b),
    decreases b.len(),
{
    law_turns_keep_order(pre, a);
    if b.len() == 0 {
        assert(a + b =~= a);
    } else {
        lemma_turns_join(pre, a, b.drop_last());
        assert((a + b).drop_last() =~= a + b.drop_last());
        assert((a + b).last() == b.last());
    }
}

/// One turn more.
pub proof fn lemma_turn_more<T>(pre: DisruptorState<T>, turns: Seq<Turn<T>>, turn: Turn<T>)
    requires
        pre.wf(),
        pre.allows(turns),
        0 <= turn.stage < pre.handed.len(),
        pre.after(turns).may_leave(turn.stage, turn.left),
    ensures
        pre.allows(turns.push(turn)),
        pre.after(turns.push(turn)) == pre.after(turns).stepped(turn.stage, turn.left),
{
    assert(turns.push(turn).drop_last() =~= turns);
}

/// A step of a stage that gets no further wakes nobody.
pub proof fn lemma_rest_is_kept<T>(pre: DisruptorState<T>, i: int, left: Left<T>, j: int)
    requires
        pre.wf(),
        0 <= i < pre.handed.len(),
        0 <= j < pre.handed.len(),
        !pre.moves(i),
        !pre.moves(j),
    ensures
        !pre.stepped(i, left).moves(j),
{
    if !pre.has_ended(i) {
        let post = pre.stepped(i, left);
        assert(post.system.upstream(j) =~= pre.system.upstream(j));
    }
}

/// Where no stage gets further, all is done that can be: without an alert every stage
/// has consumed every event that was published, so that its consumer was called with each
/// of them, and with one every stage has ended.
pub proof fn law_rest_is_complete<T>(state: DisruptorState<T>)
    requires
        state.wf(),
        state.rests(),
    ensures
        !state.alerted ==> state.all_caught_up() && state.all_have_heard_all(),
        state.alerted ==> state.all_ended(),
{
    if !state.alerted {
        assert forall|j: int| 0 <= j < state.system.stages.len() implies !#[trigger] protocol::can_move(
            state.system,
            j,
        ) && !(state.system.stages[j].phase is Stopped) by {
            assert(!state.moves(j));
            assert(!state.has_ended(j));
        }
        assert forall|i: int| 0 <= i < state.handed.len() implies #[trigger] state.has_caught_up(
            i,
        ) by {
            protocol::law_stages_rest_only_when_caught_up(state.system, i);
            assert(state.system.stage_inv(i));
            assert(state.handed_in_order(i));
            assert(!protocol::can_move(state.system, i));
        }
        assert forall|i: int| 0 <= i < state.handed.len() implies #[trigger] state.has_heard_all(
            i,
        ) by {
            assert(state.has_caught_up(i));
            assert(state.record_is_true(i));
            assert(!protocol::can_move(state.system, i));
        }
    } else {
        assert forall|i: int| 0 <= i < state.handed.len() implies #[trigger] state.has_ended(i) by {
            assert(!state.moves(i));
        }
    }
}

/// Once the alert is up, no stage is handed another event, whatever turns are taken.
pub proof fn law_no_events_after_the_alert<T>(pre: DisruptorState<T>, turns: Seq<Turn<T>>)
    requires
        pre.wf(),
        pre.allows(turns),
        pre.alerted,
    ensures
        pre.after(turns).handed == pre.handed,
        pre.after(turns).slots == pre.slots,
        pre.after(turns).events == pre.events,
    decreases turns.len(),
{
    if turns.len() > 0 {
        law_no_events_after_the_alert(pre, turns.drop_last());
        law_turns_keep_order(pre, turns.drop_last());
    }
}

/// The cursor of a stage that was shut down stands at the last event that the stage was
/// handed.
pub proof fn law_cursors_end_at_what_was_handed<T>(state: DisruptorState<T>, i: int)
    requires
        state.wf(),
        0 <= i < state.handed.len(),
        state.stage(i).phase is Stopped,
    ensures
        state.system.cursors[i] == state.handed[i].len() - 1,
{
    assert(state.system.stage_inv(i));
    assert(state.stage(i).wf());
    assert(state.handed_in_order(i));
}

impl<T> DisruptorState<T> {
    /// The slot of the next event is free: every stage is done with the event that it
    /// held before.
    pub open spec fn has_room(self) -> bool {
        let producer = self.system.producer;
        producer.cached_gate >= producer.wrap_point() || sequence::least(self.system.gates())
            >= producer.wrap_point()
    }

    /// The state in which the producer has claimed the free slot.
    pub open spec fn claimed(self) -> DisruptorState<T> {
        let producer = self.system.producer;
        self.with_producer(
            ProducerState {
                cached_gate: if producer.cached_gate >= producer.wrap_point() {
                    producer.cached_gate
                } else {
                    sequence::least(self.system.gates())
                },
                phase: ProducerPhase::Claimed,
                ..producer
            },
        )
    }
}

/// What the stages do is the same whatever the producer is up to.
pub proof fn lemma_producer_aside<T>(
    pre: DisruptorState<T>,
    producer: ProducerState,
    turns: Seq<Turn<T>>,
)
    requires
        producer.capacity == pre.system.producer.capacity,
    ensures
        pre.with_producer(producer).after(turns) == pre.after(turns).with_producer(producer),
        pre.with_producer(producer).allows(turns) == pre.allows(turns),
        pre.after(turns).system.producer == pre.system.producer,
    decreases turns.len(),
{
    if turns.len() > 0 {
        let turn = turns.last();
        lemma_producer_aside(pre, producer, turns.drop_last());
        let a = pre.after(turns.drop_last());
        let b = a.with_producer(producer);
        assert(b.system.upstream(turn.stage) =~= a.system.upstream(turn.stage));
        assert(b.stepped(turn.stage, turn.left) =~= a.stepped(
            turn.stage,
            turn.left,
        ).with_producer(producer));
        assert(b.may_leave(turn.stage, turn.left) == a.may_leave(turn.stage, turn.left));
    }
}

/// Where no stage gets further and there is no alert, a consumer without an ancestor that
/// changes events was called with exactly the events that were published, each as it was
/// written, from 0 on and in order.
pub proof fn law_every_consumer_gets_every_event<T>(state: DisruptorState<T>, i: int)
    requires
        state.wf(),
        state.rests(),
        !state.alerted,
        0 <= i < state.handed.len(),
        forall|m: int| !#[trigger] state.changes_above(m, i),
    ensures
        has_heard(state.registered[i], state.handed[i], state.consumers[i]),
        state.handed[i].len() == state.written.len(),
        forall|k: int|
            0 <= k < state.written.len() ==> (#[trigger] state.handed[i][k]).sequence == k
                && state.handed[i][k].before == state.written[k],
{
    law_rest_is_complete(state);
    assert(state.has_heard_all(i));
    assert forall|k: int| 0 <= k < state.written.len() implies (
    #[trigger] state.handed[i][k]).sequence == k && state.handed[i][k].before
        == state.written[k] by {
        law_readers_see_what_was_written(state, i, k);
    }
}

/// No consumer is called with an event before every stage above it is done with it.
pub proof fn law_no_consumer_is_called_before_its_ancestors<T>(
    state: DisruptorState<T>,
    i: int,
    j: int,
)
    requires
        state.wf(),
        graph::reaches(state.system.deps, i, j),
    ensures
        state.handed[j].len() <= state.system.cursors[i] + 1 <= state.handed[i].len(),
{
    protocol::lemma_behind(state.system, i, j);
    assert(state.handed_in_order(i));
    assert(state.handed_in_order(j));
    assert(state.system.stage_inv(i));
    assert(state.system.stage_inv(j));
    assert(state.stage(i).wf());
    assert(state.stage(j).wf());
}

/// The turns of some rounds, one after the other.
pub open spec fn joined<T>(rounds: Seq<Seq<Turn<T>>>) -> Seq<Turn<T>>
    decreases rounds.len(),
{
    if rounds.len() == 0 {
        Seq::empty()
    } else {
        joined(rounds.drop_last()) + rounds.last()
    }
}

impl<T> DisruptorState<T> {
    /// These rounds are run while the producer waits: one after each check that found no
    /// room.
    pub open spec fn waits(self, rounds: Seq<Seq<Turn<T>>>) -> bool
        decreases rounds.len(),
    {
        rounds.len() == 0 || {
            &&& self.waits(rounds.drop_last())
            &&& is_round(rounds.last(), self.handed.len() as int)
            &&& !self.after(joined(rounds.drop_last())).has_room()
        }
    }

    /// What a strategy is told when stage `i` takes its next step: the thread registers as
    /// it starts, asks how to idle where it finds nothing, and signals where it moves its
    /// cursor.
    pub open spec fn tells<W: WaitStrategy>(self, wait: W, i: int) -> bool {
        match self.next_step(i) {
            StageStep::Started => wait::is_registered(wait),
            StageStep::Idle(attempt) => wait::is_asked(wait, attempt),
            StageStep::Advanced(cursor) => wait::is_signalled(wait),
            StageStep::Stopped => self.stage(i).phase is Delivering ==> wait::is_signalled(wait),
            _ => true,
        }
    }

    /// What a strategy is told when these turns are taken.
    pub open spec fn tells_all<W: WaitStrategy>(self, wait: W, turns: Seq<Turn<T>>) -> bool
        decreases turns.len(),
    {
        turns.len() == 0 || {
            &&& self.tells_all(wait, turns.drop_last())
            &&& self.after(turns.drop_last()).tells(wait, turns.last().stage)
        }
    }
}

/// Wherever a cursor moves the waiting threads are signalled, and wherever a stage starts
/// its thread registers.
pub proof fn law_progress_is_signalled<T, W: WaitStrategy>(
    pre: DisruptorState<T>,
    wait: W,
    turns: Seq<Turn<T>>,
)
    requires
        pre.wf(),
        pre.allows(turns),
        pre.tells_all(wait, turns),
    ensures
        pre.after(turns).system.cursors != pre.system.cursors ==> wait::is_signalled(wait),
        forall|i: int|
            0 <= i < pre.handed.len() && (#[trigger] pre.stage(i)).phase is Starting && !(
            pre.after(turns).stage(i).phase is Starting) ==> wait::is_registered(wait),
    decreases turns.len(),
{
    if turns.len() > 0 {
        let before = turns.drop_last();
        let turn = turns.last();
        law_progress_is_signalled(pre, wait, before);
        law_turns_keep_order(pre, before);
        let mid = pre.after(before);
        assert(mid.system.stage_inv(turn.stage));
        assert(mid.stage(turn.stage).wf());
    }
}

pub proof fn lemma_tells_join<T, W: WaitStrategy>(
    pre: DisruptorState<T>,
    wait: W,
    a: Seq<Turn<T>>,
    b: Seq<Turn<T>>,
)
    requires
        pre.wf(),
        pre.allows(a),
        pre.after(a).allows(b),
        pre.tells_all(wait, a),
        pre.after(a).tells_all(wait, b),
    ensures
        pre.tells_all(wait, a + b),
    decreases b.len(),
{
    if b.len() == 0 {
        assert(a + b =~= a);
    } else {
        lemma_tells_join(pre, wait, a, b.drop_last());
        lemma_turns_join(pre, a, b.drop_last());
        assert((a + b).drop_last() =~= a + b.drop_last());
        assert((a + b).last() == b.last());
    }
}

pub proof fn lemma_tells_aside<T, W: WaitStrategy>(
    pre: DisruptorState<T>,
    producer: ProducerState,
    wait: W,
    turns: Seq<Turn<T>>,
)
    requires
        producer.capacity == pre.system.producer.capacity,
    ensures
        pre.with_producer(producer).tells_all(wait, turns) == pre.tells_all(wait, turns),
    decreases turns.len(),
{
    if turns.len() > 0 {
        let turn = turns.last();
        lemma_tells_aside(pre, producer, wait, turns.drop_last());
        lemma_producer_aside(pre, producer, turns.drop_last());
        let a = pre.after(turns.drop_last());
        let b = a.with_producer(producer);
        assert(b.system.upstream(turn.stage) =~= a.system.upstream(turn.stage));
    }
}

pub proof fn lemma_waits_aside<T>(
    pre: DisruptorState<T>,
    producer: ProducerState,
    rounds: Seq<Seq<Turn<T>>>,
)
    requires
        producer == (ProducerState { phase: producer.phase, ..pre.system.producer }),
    ensures
        pre.with_producer(producer).waits(rounds) == pre.waits(rounds),
    decreases rounds.len(),
{
    if rounds.len() > 0 {
        let turns = joined(rounds.drop_last());
        lemma_waits_aside(pre, producer, rounds.drop_last());
        lemma_producer_aside(pre, producer, turns);
        let a = pre.after(turns);
        assert(a.with_producer(producer).system.gates() =~= a.system.gates());
    }
}

/// When a stage completes a batch, its cursor moves from the end of the batch before to
/// the end of this one, and of the calls in between the last one, and no other, came with
/// `end_of_batch`.
pub proof fn law_batches_end_with_a_mark<T>(
    pre: DisruptorState<T>,
    i: int,
    sight: Sight,
    left: Left<T>,
)
    requires
        pre.wf(),
        0 <= i < pre.handed.len(),
        pre.may_see(i, sight),
        pre.next_step_on(i, sight) is Advanced,
    ensures
        pre.system.cursors[i] < pre.stepped_on(i, sight, left).system.cursors[i],
        pre.stepped_on(i, sight, left).system.cursors[i] == pre.handed[i].len() - 1,
        forall|k: int|
            pre.system.cursors[i] < k < pre.handed[i].len() ==> (
            (#[trigger] pre.handed[i][k]).end_of_batch <==> k == pre.handed[i].len() - 1),
{
    assert(pre.ends_are_marked(i));
    assert(pre.handed_in_order(i));
    assert(pre.system.stage_inv(i));
    assert(pre.stage(i).wf());
}

/// Along a course cursors only rise, and a stage that has stopped stays so.
proof fn lemma_cursors_rise_along_courses<T>(
    states: Seq<DisruptorState<T>>,
    moves: Seq<Move<T>>,
    capacity: int,
    max_batch_size: int,
    u: int,
    t: int,
    i: int,
)
    requires
        is_course(states, moves),
        is_fresh(states[0], capacity, max_batch_size),
        0 <= u <= t < states.len(),
        0 <= i < states[0].handed.len(),
    ensures
        states[u].handed.len() == states[0].handed.len(),
        states[t].handed.len() == states[0].handed.len(),
        states[u].system.cursors[i] <= states[t].system.cursors[i],
        states[u].stage(i).phase is Stopped ==> states[t].stage(i).phase is Stopped,
    decreases t,
{
    if t > 0 {
        let pre = states[t - 1];
        law_order_is_kept_along_courses(states, moves, capacity, max_batch_size, t - 1);
        assert(pre.can_make(moves[t - 1]));
        assert(states[t - 1 + 1] == pre.moved(moves[t - 1]));
        if u < t {
            lemma_cursors_rise_along_courses(states, moves, capacity, max_batch_size, u, t - 1, i);
        } else {
            lemma_cursors_rise_along_courses(
                states,
                moves,
                capacity,
                max_batch_size,
                t - 1,
                t - 1,
                i,
            );
        }
        assert(pre.system.stage_inv(i));
        assert(pre.stage(i).wf());
    }
}

/// In every course a call came with `end_of_batch` exactly if the cursor of the stage has
/// stood at its event. The calls of a batch that is not complete, and those of a stage
/// that was stopped in the middle of one, are left out.
pub proof fn law_marks_tell_where_the_cursor_stood<T>(
    states: Seq<DisruptorState<T>>,
    moves: Seq<Move<T>>,
    capacity: int,
    max_batch_size: int,
    t: int,
    i: int,
    k: int,
)
    requires
        is_course(states, moves),
        is_fresh(states[0], capacity, max_batch_size),
        0 <= t < states.len(),
        0 <= i < states[0].handed.len(),
        !(states[t].stage(i).phase is Stopped),
        0 <= k <= states[t].system.cursors[i],
    ensures
        states[t].handed[i][k].end_of_batch <==> exists|u: int|
            0 <= u <= t && (#[trigger] states[u]).system.cursors[i] == k,
    decreases t,
{
    law_order_is_kept_along_courses(states, moves, capacity, max_batch_size, t);
    if t > 0 {
        let pre = states[t - 1];
        let post = states[t];
        law_order_is_kept_along_courses(states, moves, capacity, max_batch_size, t - 1);
        lemma_cursors_rise_along_courses(states, moves, capacity, max_batch_size, t - 1, t, i);
        assert(pre.can_make(moves[t - 1]));
        assert(states[t - 1 + 1] == pre.moved(moves[t - 1]));
        law_moves_only_add(pre, moves[t - 1]);
        assert(pre.handed[i].is_prefix_of(post.handed[i]));
        assert(pre.handed_in_order(i));
        assert(pre.system.stage_inv(i));
        assert(pre.stage(i).wf());
        assert(post.handed_in_order(i));
        assert(post.ends_are_marked(i));
        if k <= pre.system.cursors[i] {
            law_marks_tell_where_the_cursor_stood(
                states,
                moves,
                capacity,
                max_batch_size,
                t - 1,
                i,
                k,
            );
            assert(post.handed[i][k] == pre.handed[i][k]);
            if post.system.cursors[i] == k {
                assert(pre.system.cursors[i] == k);
            }
            if exists|u: int| 0 <= u <= t && (#[trigger] states[u]).system.cursors[i] == k {
                let u = choose|u: int| 0 <= u <= t && (#[trigger] states[u]).system.cursors[i] == k;
                if u == t {
                    assert(states[t - 1].system.cursors[i] == k);
                }
            }
        } else {
            match moves[t - 1] {
                Move::Step { stage, sight, left } => {
                    assert(stage == i);
                    law_batches_end_with_a_mark(pre, i, sight, left);
                    assert(post.handed[i] == pre.handed[i]);
                },
                _ => {},
            }
            if exists|u: int| 0 <= u <= t && (#[trigger] states[u]).system.cursors[i] == k {
                let u = choose|u: int| 0 <= u <= t && (#[trigger] states[u]).system.cursors[i] == k;
                if u < t {
                    lemma_cursors_rise_along_courses(
                        states,
                        moves,
                        capacity,
                        max_batch_size,
                        u,
                        t - 1,
                        i,
                    );
                }
            }
            if post.handed[i][k].end_of_batch {
                assert(states[t].system.cursors[i] == k);
            }
        }
    } else {
        assert(states[0].system.cursors[i] == sequence::INITIAL);
    }
}

/// A move changes no limit, and moves no cursor further than the limit allows.
proof fn lemma_moves_keep_to_the_limit<T>(pre: DisruptorState<T>, m: Move<T>, i: int)
    requires
        pre.wf(),
        pre.can_make(m),
        0 <= i < pre.handed.len(),
    ensures
        pre.moved(m).system.stages[i].max_batch_size == pre.system.stages[i].max_batch_size,
        pre.moved(m).system.cursors[i] - pre.system.cursors[i]
            <= pre.system.stages[i].max_batch_size,
{
    assert(pre.system.stage_inv(i));
    assert(pre.stage(i).wf());
}

/// However a course goes, the limit for batches stays what it was at the beginning, a batch
/// never holds more events than the limit, and no cursor moves further than that at once.
pub proof fn law_batches_keep_to_the_limit<T>(
    states: Seq<DisruptorState<T>>,
    moves: Seq<Move<T>>,
    capacity: int,
    max_batch_size: int,
    t: int,
    i: int,
)
    requires
        is_course(states, moves),
        is_fresh(states[0], capacity, max_batch_size),
        0 <= t < states.len(),
        0 <= i < states[0].handed.len(),
    ensures
        states[t].system.stages[i].max_batch_size == max_batch_size,
        states[t].system.stages[i].phase matches StagePhase::Delivering { seq, batch_end }
            ==> batch_end - states[t].system.cursors[i] <= max_batch_size,
        t < moves.len() ==> states[t + 1].system.cursors[i] - states[t].system.cursors[i]
            <= max_batch_size,
    decreases t,
{
    law_order_is_kept_along_courses(states, moves, capacity, max_batch_size, t);
    lemma_cursors_rise_along_courses(states, moves, capacity, max_batch_size, t, t, i);
    let here = states[t];
    assert(here.system.stage_inv(i));
    assert(here.stage(i).wf());
    if t > 0 {
        law_batches_keep_to_the_limit(states, moves, capacity, max_batch_size, t - 1, i);
        law_order_is_kept_along_courses(states, moves, capacity, max_batch_size, t - 1);
        lemma_cursors_rise_along_courses(states, moves, capacity, max_batch_size, t - 1, t - 1, i);
        let pre = states[t - 1];
        assert(pre.can_make(moves[t - 1]));
        assert(states[t - 1 + 1] == pre.moved(moves[t - 1]));
        lemma_moves_keep_to_the_limit(pre, moves[t - 1], i);
    } else {
        assert(here.system.stages[i] == StageState::initial(max_batch_size));
    }
    if t < moves.len() {
        assert(here.can_make(moves[t]));
        assert(states[t + 1] == here.moved(moves[t]));
        lemma_moves_keep_to_the_limit(here, moves[t], i);
    }
}

/// There is room in the ring exactly if no stage is further behind than there are slots:
/// every cursor, or every gating cursor, stands within that many events of the next one.
pub proof fn law_room_is_what_every_stage_is_done_with<T>(state: DisruptorState<T>)
    requires
        state.wf(),
    ensures
        state.has_room() <==> forall|i: int|
            0 <= i < state.system.cursors.len() ==> #[trigger] state.system.cursors[i]
                >= state.written.len() - state.slots.len(),
        state.has_room() <==> forall|k: int|
            0 <= k < state.system.leaves.len()
                ==> state.system.cursors[#[trigger] state.system.leaves[k]] >= state.written.len()
                - state.slots.len(),
{
    let sys = state.system;
    let gates = sys.gates();
    let oldest = state.written.len() - state.slots.len();
    sequence::lemma_least(gates);
    if state.has_room() {
        assert forall|i: int| 0 <= i < sys.cursors.len() implies #[trigger] sys.cursors[i]
            >= oldest by {
            protocol::lemma_gate_behind(sys, i);
            let leaf = graph::lemma_leaf_below(sys.deps, sys.order, i);
            assert(sys.leaves.contains(leaf));
            let k = choose|k: int| 0 <= k < sys.leaves.len() && sys.leaves[k] == leaf;
            assert(gates[k] == sys.cursors[leaf]);
            if leaf != i {
                protocol::lemma_behind(sys, i, leaf);
                assert(sys.stage_inv(leaf));
                assert(sys.stages[leaf].wf());
            }
        }
    }
    if state.has_room() {
        assert forall|k: int| 0 <= k < sys.leaves.len() implies sys.cursors[
            #[trigger] sys.leaves[k]] >= oldest by {
            assert(sys.leaves.contains(sys.leaves[k]));
        }
    }
    if forall|k: int|
        0 <= k < sys.leaves.len() ==> sys.cursors[#[trigger] sys.leaves[k]] >= oldest {
        if gates.contains(sequence::least(gates)) {
            let k = choose|k: int| 0 <= k < gates.len() && gates[k] == sequence::least(gates);
            assert(sys.cursors[sys.leaves[k]] >= oldest);
        }
    }
    if forall|i: int| 0 <= i < sys.cursors.len() ==> #[trigger] sys.cursors[i] >= oldest {
        if gates.contains(sequence::least(gates)) {
            let k = choose|k: int| 0 <= k < gates.len() && gates[k] == sequence::least(gates);
            assert(sys.leaves.contains(sys.leaves[k]));
            assert(sys.cursors[sys.leaves[k]] >= oldest);
        }
    }
}

/// What the next step of a stage does, by where its loop stands and by what it sees.
pub proof fn law_what_a_stage_does_next<T>(state: DisruptorState<T>, i: int, sight: Sight)
    requires
        state.wf(),
        0 <= i < state.handed.len(),
        state.may_see(i, sight),
    ensures
        state.panicked[i] || state.system.stages[i].phase is Stopped <==> state.next_step_on(
            i,
            sight,
        ) is Ended,
        !state.panicked[i] ==> match state.system.stages[i].phase {
            StagePhase::Starting => state.next_step_on(i, sight) is Started,
            StagePhase::Waiting { attempt } => {
                let next = state.system.stages[i].next;
                &&& sight.alerted ==> state.next_step_on(i, sight) is Stopped
                &&& !sight.alerted ==> match state.next_step_on(i, sight) {
                    StageStep::Idle(tries) => tries == attempt && exists|k: int|
                        0 <= k < sight.observed.len() && #[trigger] sight.observed[k] < next,
                    StageStep::Acquired(end) => {
                        &&& next <= end < next + state.system.stages[i].max_batch_size
                        &&& forall|k: int|
                            0 <= k < sight.observed.len() ==> end <= #[trigger] sight.observed[k]
                        &&& sight.observed.contains(end as int) || end + 1 == next
                            + state.system.stages[i].max_batch_size
                    },
                    _ => false,
                }
            },
            StagePhase::Delivering { seq, batch_end } => {
                &&& seq > batch_end ==> state.next_step_on(i, sight) == StageStep::Advanced(
                    batch_end as i64,
                )
                &&& seq <= batch_end && sight.alerted ==> state.next_step_on(i, sight) is Stopped
                &&& seq <= batch_end && !sight.alerted ==> state.next_step_on(i, sight) == (
                StageStep::Delivered { sequence: seq as i64, end_of_batch: seq == batch_end })
            },
            StagePhase::Stopped => state.next_step_on(i, sight) is Ended,
        },
{
    let sys = state.system;
    let up = sys.upstream(i);
    assert(sys.stage_inv(i));
    assert(state.stage(i).wf());
    assert forall|k: int| 0 <= k < sight.observed.len() implies -1 <= #[trigger] sight.observed[k]
        < i64::MAX by {
        if sys.deps[i].len() > 0 {
            let d = sys.deps[i][k];
            assert(up[k] == sys.cursors[d]);
            assert(sys.stage_inv(d));
            assert(sys.stages[d].wf());
        } else {
            assert(up[k] == sys.published);
        }
    }
    match state.stage(i).phase {
        StagePhase::Waiting { attempt } => {
            crate::processor::law_batches_are_as_long_as_they_can_be(
                state.stage(i),
                attempt,
                sight.alerted,
                sight.observed,
            );
        },
        _ => {},
    }
}

/// What a step of a stage leaves alone: what was published, the producer, who is who, and
/// the other stages. Only a delivery touches an event, and that in its slot alone.
pub proof fn law_what_a_step_leaves_alone<T>(
    state: DisruptorState<T>,
    i: int,
    sight: Sight,
    left: Left<T>,
    j: int,
)
    requires
        state.wf(),
        0 <= i < state.handed.len(),
        0 <= j < state.handed.len(),
        j != i,
    ensures
        state.stepped_on(i, sight, left).written == state.written,
        state.stepped_on(i, sight, left).alerted == state.alerted,
        state.stepped_on(i, sight, left).registered == state.registered,
        state.stepped_on(i, sight, left).names == state.names,
        state.stepped_on(i, sight, left).is_mut == state.is_mut,
        state.stepped_on(i, sight, left).panicked == state.panicked,
        state.stepped_on(i, sight, left).system.producer == state.system.producer,
        state.stepped_on(i, sight, left).system.published == state.system.published,
        state.stepped_on(i, sight, left).system.deps == state.system.deps,
        state.stepped_on(i, sight, left).system.stages[j] == state.system.stages[j],
        state.stepped_on(i, sight, left).system.cursors[j] == state.system.cursors[j],
        state.stepped_on(i, sight, left).consumers[j] == state.consumers[j],
        state.stepped_on(i, sight, left).handed[j] == state.handed[j],
        !(state.next_step_on(i, sight) is Delivered) ==> {
            &&& state.stepped_on(i, sight, left).slots == state.slots
            &&& state.stepped_on(i, sight, left).events == state.events
            &&& state.stepped_on(i, sight, left).handed == state.handed
        },
        state.next_step_on(i, sight) is Ended ==> state.stepped_on(i, sight, left) == state,
{
}

/// What a delivery does: the event is read from its slot and left there, and the record of
/// the stage gets one call more, with the sequence of the event, with the event as it was
/// found and as it was left, and with the consumer before and after.
pub proof fn law_what_a_delivery_does<T>(
    state: DisruptorState<T>,
    i: int,
    sight: Sight,
    left: Left<T>,
    sequence: i64,
    end_of_batch: bool,
)
    requires
        state.wf(),
        0 <= i < state.handed.len(),
        state.may_see(i, sight),
        state.next_step_on(i, sight) == (StageStep::Delivered { sequence, end_of_batch }),
    ensures
        sequence == state.handed[i].len(),
        state.stepped_on(i, sight, left).handed[i].len() == state.handed[i].len() + 1,
        forall|k: int|
            0 <= k < state.handed[i].len() ==> #[trigger] state.stepped_on(
                i,
                sight,
                left,
            ).handed[i][k] == state.handed[i][k],
        state.stepped_on(i, sight, left).handed[i].last().sequence == sequence,
        state.stepped_on(i, sight, left).handed[i].last().end_of_batch == end_of_batch,
        state.stepped_on(i, sight, left).handed[i].last().before == state.slots[sequence as int
            % state.slots.len() as int],
        state.stepped_on(i, sight, left).handed[i].last().before == state.events[sequence as int],
        state.stepped_on(i, sight, left).handed[i].last().after == left.event,
        state.stepped_on(i, sight, left).handed[i].last().consumer == state.consumers[i],
        state.stepped_on(i, sight, left).handed[i].last().consumer_after == left.consumer,
        state.stepped_on(i, sight, left).consumers[i] == left.consumer,
        state.stepped_on(i, sight, left).slots == state.slots.update(
            sequence as int % state.slots.len() as int,
            left.event,
        ),
        state.stepped_on(i, sight, left).events == state.events.update(
            sequence as int,
            left.event,
        ),
        state.may_leave_on(i, sight, left) ==> consumer::is_delivery(
            state.consumers[i],
            state.slots[sequence as int % state.slots.len() as int],
            sequence,
            end_of_batch,
            left.consumer,
            left.event,
        ),
        state.may_leave_on(i, sight, left) && !state.is_mut[i] ==> left.event
            == state.slots[sequence as int % state.slots.len() as int],
{
    assert(state.system.stage_inv(i));
    assert(state.stage(i).wf());
    assert(state.handed_in_order(i));
    assert(state.slots[state.slot(sequence as int)] == state.events[sequence as int]);
}

/// A consumer is told to start when its stage starts and to shut down when it stops, and at
/// no other time; in between it stays as the last call left it.
pub proof fn law_when_consumers_are_called<T>(
    state: DisruptorState<T>,
    i: int,
    sight: Sight,
    left: Left<T>,
)
    requires
        state.wf(),
        0 <= i < state.handed.len(),
        state.may_leave_on(i, sight, left),
    ensures
        state.next_step_on(i, sight) is Started ==> consumer::is_start(
            state.consumers[i],
            left.consumer,
        ) && state.stepped_on(i, sight, left).consumers[i] == left.consumer,
        state.next_step_on(i, sight) is Stopped ==> consumer::is_shutdown(
            state.consumers[i],
            left.consumer,
        ) && state.stepped_on(i, sight, left).consumers[i] == left.consumer,
        state.next_step_on(i, sight) is Acquired || state.next_step_on(i, sight) is Idle
            || state.next_step_on(i, sight) is Advanced || state.next_step_on(i, sight) is Ended
            ==> state.stepped_on(i, sight, left).consumers == state.consumers,
{
}

/// What a publication does: the event goes into its slot and to the end of what was
/// published, the producer's cursor moves to it, and nothing else changes.
pub proof fn law_what_a_publication_does<T>(state: DisruptorState<T>, value: T)
    requires
        state.wf(),
        state.system.producer.phase is Claimed,
    ensures
        state.published_with(value).written == state.written.push(value),
        state.published_with(value).events == state.events.push(value),
        state.published_with(value).slots == state.slots.update(
            state.written.len() as int % state.slots.len() as int,
            value,
        ),
        state.published_with(value).system.published == state.written.len(),
        state.published_with(value).system.producer.next_seq == state.written.len() + 1,
        state.published_with(value).system.producer.phase is Open,
        state.published_with(value).system.cursors == state.system.cursors,
        state.published_with(value).system.stages == state.system.stages,
        state.published_with(value).handed == state.handed,
        state.published_with(value).consumers == state.consumers,
        state.published_with(value).registered == state.registered,
        state.published_with(value).alerted == state.alerted,
        state.published_with(value).panicked == state.panicked,
{
}

/// An alert changes the flag alone, and a claim changes the producer alone, which still has
/// the same event to publish.
pub proof fn law_what_alerts_and_claims_change<T>(state: DisruptorState<T>)
    ensures
        state.with_alert().alerted,
        state.with_alert() == (DisruptorState { alerted: true, ..state }),
        state.claimed().system.producer.phase is Claimed,
        state.claimed().system.producer.next_seq == state.system.producer.next_seq,
        state.claimed().system.producer.capacity == state.system.producer.capacity,
        state.claimed() == (DisruptorState {
            system: System { producer: state.claimed().system.producer, ..state.system },
            ..state
        }),
{
}

/// Turns are taken one after the other, each from where the last one led.
pub proof fn law_turns_follow_each_other<T>(
    state: DisruptorState<T>,
    turns: Seq<Turn<T>>,
    turn: Turn<T>,
)
    ensures
        state.after(Seq::empty()) == state,
        state.allows(Seq::empty()),
        state.after(turns.push(turn)) == state.after(turns).stepped_on(
            turn.stage,
            state.after(turns).sight(turn.stage),
            turn.left,
        ),
        state.allows(turns.push(turn)) <==> state.allows(turns) && 0 <= turn.stage
            < state.handed.len() && state.after(turns).may_leave_on(
            turn.stage,
            state.after(turns).sight(turn.stage),
            turn.left,
        ),
        state.sight(turn.stage).alerted == state.alerted,
        state.sight(turn.stage).observed == state.system.upstream(turn.stage),
{
    assert(turns.push(turn).drop_last() =~= turns);
}

/// The rounds of a wait stand one after the other, and each is one turn of every stage.
pub proof fn law_rounds_follow_each_other<T>(
    state: DisruptorState<T>,
    rounds: Seq<Seq<Turn<T>>>,
    round: Seq<Turn<T>>,
)
    ensures
        joined(Seq::<Seq<Turn<T>>>::empty()) == Seq::<Turn<T>>::empty(),
        joined(rounds.push(round)) == joined(rounds) + round,
        is_round(round, state.handed.len() as int) <==> round.len() == state.handed.len()
            && forall|k: int| 0 <= k < round.len() ==> (#[trigger] round[k]).stage == k,
        state.waits(Seq::empty()),
        state.waits(rounds.push(round)) <==> state.waits(rounds) && is_round(
            round,
            state.handed.len() as int,
        ) && !state.after(joined(rounds)).has_room(),
{
    assert(rounds.push(round).drop_last() =~= rounds);
}

/// A producer waits a round only while some stage is further behind than there are slots.
pub proof fn law_waits_are_for_a_slow_stage<T>(
    state: DisruptorState<T>,
    rounds: Seq<Seq<Turn<T>>>,
)
    requires
        state.wf(),
        state.waits(rounds),
        rounds.len() > 0,
    ensures
        exists|i: int|
            0 <= i < state.system.cursors.len() && #[trigger] state.system.cursors[i]
                < state.written.len() - state.slots.len(),
    decreases rounds.len(),
{
    if rounds.len() == 1 {
        assert(joined(rounds.drop_last()) =~= Seq::<Turn<T>>::empty());
        law_room_is_what_every_stage_is_done_with(state);
    } else {
        law_waits_are_for_a_slow_stage(state, rounds.drop_last());
    }
}

/// The stages rest exactly if each of them has ended or finds nothing.
pub proof fn law_rest_is_when_nobody_finds_anything<T>(state: DisruptorState<T>)
    ensures
        state.rests() <==> forall|i: int|
            0 <= i < state.handed.len() ==> (#[trigger] state.next_step_on(
                i,
                state.sight(i),
            )) is Idle || state.next_step_on(i, state.sight(i)) is Ended,
{
    if state.rests() {
        assert forall|i: int| 0 <= i < state.handed.len() implies (#[trigger] state.next_step_on(
            i,
            state.sight(i),
        )) is Idle || state.next_step_on(i, state.sight(i)) is Ended by {
            assert(!state.moves(i));
        }
    }
    if forall|i: int|
        0 <= i < state.handed.len() ==> (#[trigger] state.next_step_on(i, state.sight(i))) is Idle
            || state.next_step_on(i, state.sight(i)) is Ended {
        assert forall|i: int| 0 <= i < state.handed.len() implies !#[trigger] state.moves(i) by {
            assert(state.next_step_on(i, state.sight(i)) == state.next_step(i));
        }
    }
}

/// A strategy is told of every step that concerns it: of the start of a stage, of a vain
/// look with the number of those before it, of a cursor that moves, and of nothing that is
/// left out.
pub proof fn law_strategies_are_told_of_every_step<T, W: WaitStrategy>(
    state: DisruptorState<T>,
    wait: W,
    i: int,
)
    requires
        state.tells(wait, i),
    ensures
        state.next_step(i) is Started ==> wait::is_registered(wait),
        state.next_step(i) matches StageStep::Idle(attempt) ==> wait::is_asked(wait, attempt),
        state.next_step(i) is Advanced ==> wait::is_signalled(wait),
        state.next_step(i) is Stopped && state.system.stages[i].phase is Delivering
            ==> wait::is_signalled(wait),
{
}

/// A strategy is told of every turn.
pub proof fn law_strategies_are_told_of_every_turn<T, W: WaitStrategy>(
    state: DisruptorState<T>,
    wait: W,
    turns: Seq<Turn<T>>,
    k: int,
)
    requires
        state.tells_all(wait, turns),
        0 <= k < turns.len(),
    ensures
        state.after(turns.take(k)).tells(wait, turns[k].stage),
    decreases turns.len(),
{
    let before = turns.drop_last();
    if k < before.len() {
        law_strategies_are_told_of_every_turn(state, wait, before, k);
        assert(before.take(k) =~= turns.take(k));
    } else {
        assert(before =~= turns.take(k));
    }
}

/// A consumer that has heard some calls was started first, got them one after the other
/// with nothing in between, each with the arguments that are recorded, and is now as the
/// last of them left it.
pub proof fn law_calls_follow_each_other<T>(
    registered: Stage<T>,
    calls: Seq<Handed<T>>,
    last: Stage<T>,
    k: int,
)
    requires
        has_heard(registered, calls, last),
    ensures
        calls.len() == 0 ==> consumer::is_start(registered, last),
        calls.len() > 0 ==> consumer::is_start(registered, calls[0].consumer)
            && calls[calls.len() - 1].consumer_after == last,
        0 < k < calls.len() ==> calls[k].consumer == calls[k - 1].consumer_after,
        0 <= k < calls.len() ==> consumer::is_delivery(
            calls[k].consumer,
            calls[k].before,
            calls[k].sequence as i64,
            calls[k].end_of_batch,
            calls[k].consumer_after,
            calls[k].after,
        ),
{
    if 0 <= k < calls.len() {
        assert(calls[k].was_made());
        assert(follows(calls, k));
    }
}

/// Every stage finds an event as the last of its ancestors that change events left it, or,
/// where none of them does, as it was written.
pub proof fn law_stages_find_the_last_change<T>(state: DisruptorState<T>, i: int, k: int, m: int)
    requires
        state.wf(),
        0 <= i < state.handed.len(),
        0 <= k < state.handed[i].len(),
    ensures
        state.handed[i][k].sequence == k,
        (forall|o: int|
            0 <= o < state.is_mut.len() && state.is_mut[o] ==> !#[trigger] graph::reaches(
                state.system.deps,
                o,
                i,
            )) ==> state.handed[i][k].before == state.written[k],
        0 <= m < state.is_mut.len() && state.is_mut[m] && graph::reaches(state.system.deps, m, i)
            && (forall|o: int|
            0 <= o < state.is_mut.len() && state.is_mut[o] && o != m
                && #[trigger] graph::reaches(state.system.deps, o, i) ==> graph::reaches(
                state.system.deps,
                o,
                m,
            )) ==> k < state.handed[m].len() && state.handed[i][k].before
            == state.handed[m][k].after,
{
    assert(state.handed_in_order(i));
    assert(state.handed_rightly(i, k));
    if forall|o: int|
        0 <= o < state.is_mut.len() && state.is_mut[o] ==> !#[trigger] graph::reaches(
            state.system.deps,
            o,
            i,
        ) {
        assert forall|o: int| !#[trigger] state.changes_above(o, i) by {}
    }
    if 0 <= m < state.is_mut.len() && state.is_mut[m] && graph::reaches(state.system.deps, m, i) && (
    forall|o: int|
        0 <= o < state.is_mut.len() && state.is_mut[o] && o != m && #[trigger] graph::reaches(
            state.system.deps,
            o,
            i,
        ) ==> graph::reaches(state.system.deps, o, m)) {
        assert forall|o: int| #[trigger] state.changes_above(o, i) && o != m implies graph::reaches(
            state.system.deps,
            o,
            m,
        ) by {}
        assert(state.changes_last_above(m, i));
    }
}

/// A stage has been handed every event up to its cursor, and beyond it only events of its
/// present batch; the slots hold the last events, each in its place.
pub proof fn law_records_and_slots_keep_up<T>(state: DisruptorState<T>, i: int, k: int)
    requires
        state.wf(),
        0 <= i < state.handed.len(),
        0 <= k < state.written.len(),
        state.written.len() - state.slots.len() <= k,
    ensures
        state.system.cursors[i] + 1 <= state.handed[i].len() <= state.written.len(),
        !(state.system.stages[i].phase is Delivering) ==> state.handed[i].len()
            == state.system.cursors[i] + 1,
        state.system.stages[i].phase matches StagePhase::Delivering { seq, batch_end }
            ==> state.handed[i].len() == seq && seq <= batch_end + 1,
        state.slots[k % state.slots.len() as int] == state.events[k],
        (forall|m: int|
            0 <= m < state.is_mut.len() && (#[trigger] state.is_mut[m]) ==> state.handed[m].len()
                <= k) ==> state.events[k] == state.written[k],
{
    assert(state.handed_in_order(i));
    assert(state.system.stage_inv(i));
    assert(state.stage(i).wf());
    assert(state.slots[state.slot(k)] == state.events[k]);
    assert(state.event_is_current(k));
    if forall|m: int|
        0 <= m < state.is_mut.len() && (#[trigger] state.is_mut[m]) ==> state.handed[m].len()
            <= k {
        assert forall|m: int| !#[trigger] state.touched(m, k) by {
            if 0 <= m < state.is_mut.len() {
                assert(state.is_mut[m] ==> state.handed[m].len() <= k);
            }
        }
    }
}

/// Two stages of which one changes events are always ordered: one of them is an ancestor of
/// the other.
pub proof fn law_changes_are_ordered<T>(state: DisruptorState<T>, i: int, j: int)
    requires
        state.wf(),
        0 <= i < state.is_mut.len(),
        0 <= j < state.is_mut.len(),
        i != j,
        state.is_mut[i],
    ensures
        graph::reaches(state.system.deps, i, j) || graph::reaches(state.system.deps, j, i),
{
    assert(graph::comparable(state.system.deps, i, j));
}

/// What stays where only the stages have done something: all that was published, the
/// producer, the graph, the alert, and who is who.
pub proof fn law_stages_publish_nothing<T>(state: DisruptorState<T>, other: DisruptorState<T>)
    requires
        state.same_but_for_stages(other),
    ensures
        state.written == other.written,
        state.alerted == other.alerted,
        state.registered == other.registered,
        state.names == other.names,
        state.is_mut == other.is_mut,
        state.panicked == other.panicked,
        state.slots.len() == other.slots.len(),
        state.system.producer == other.system.producer,
        state.system.published == other.system.published,
        state.system.deps == other.system.deps,
        state.system.order == other.system.order,
        state.system.leaves == other.system.leaves,
{
}

/// Where all have heard all, every consumer was started and then called once for each event
/// that was published.
pub proof fn law_all_have_heard_every_event<T>(state: DisruptorState<T>, i: int)
    requires
        state.all_have_heard_all(),
        state.all_caught_up(),
        0 <= i < state.handed.len(),
    ensures
        has_heard(state.registered[i], state.handed[i], state.consumers[i]),
        state.handed[i].len() == state.written.len(),
        state.system.cursors[i] == state.system.published,
{
    assert(state.has_heard_all(i));
    assert(state.has_caught_up(i));
}

/// A stage has ended exactly if its consumer has panicked or its loop has stopped.
pub proof fn law_stages_end_by_panic_or_stop<T>(state: DisruptorState<T>, i: int)
    ensures
        state.has_ended(i) <==> state.panicked[i] || state.system.stages[i].phase is Stopped,
        state.all_ended() && 0 <= i < state.handed.len() ==> state.has_ended(i),
        state.none_panicked() && 0 <= i < state.panicked.len() ==> !state.panicked[i],
{
}

} // verus!
