//! A disruptor that one owner drives: the ring, the stages and their cursors in one place.

use crate::barrier::SequenceBarrier;
use crate::builder::Plan;
use crate::consumer;
use crate::consumer::Stage;
use crate::error::PublishError;
use crate::error::ShutdownError;
use crate::graph;
use crate::processor::Delivery;
use crate::processor::EventProcessor;
use crate::processor::Poll;
use crate::processor::StageState;
use crate::producer::Claim;
use crate::producer::ProducerPhase;
use crate::producer::ProducerState;
use crate::producer::SingleProducer;
use crate::producer::Stall;
use crate::protocol;
use crate::protocol::Event;
use crate::protocol::System;
use crate::ring;
use crate::ring::RingBuffer;
use crate::sequence;
use crate::sequence::Sequence;
use crate::state;
use crate::state::DisruptorState;
use crate::state::Handed;
use crate::state::Left;
use crate::state::StageStep;
use crate::state::Turn;
use crate::text;
use crate::topology;
use crate::topology::NodeText;
use crate::topology::TopologyNode;
use crate::wait;
use crate::wait::IdleAction;
use crate::wait::WaitStrategy;
use vstd::prelude::*;

verus! {

/// One stage: its handler, what holds it back, where its loop stands, and its cursor.
#[verifier::reject_recursive_types(T)]
struct Worker<T> {
    name: String,
    handler: Stage<T>,
    barrier: SequenceBarrier,
    processor: EventProcessor,
    cursor: Sequence,
    panicked: bool,
}

/// Owns the ring and the stages; can list its topology; hands out a [`SingleProducer`].
///
/// Nothing runs by itself: [`Disruptor::step`] takes one step of one stage, and
/// [`Disruptor::run_until_idle`] lets all of them consume what is published.
#[verifier::reject_recursive_types(T)]
pub struct Disruptor<T, W: WaitStrategy> {
    ring: RingBuffer<T>,
    workers: Vec<Worker<T>>,
    published: Sequence,
    producer: Option<SingleProducer>,
    alert: bool,
    wait: W,
    topology: Vec<TopologyNode>,
    order: Ghost<Seq<int>>,
    leaves: Ghost<Seq<int>>,
    claim: Ghost<ProducerState>,
    written: Ghost<Seq<T>>,
    events: Ghost<Seq<T>>,
    handed: Ghost<Seq<Seq<Handed<T>>>>,
    registered: Ghost<Seq<Stage<T>>>,
}

impl<T, W: WaitStrategy> View for Disruptor<T, W> {
    type V = DisruptorState<T>;

    closed spec fn view(&self) -> DisruptorState<T> {
        let workers = self.workers@;
        DisruptorState {
            system: System {
                deps: Seq::new(workers.len(), |i: int| workers[i].barrier@),
                order: self.order@,
                leaves: self.leaves@,
                producer: self.claim@,
                published: self.published@,
                cursors: Seq::new(workers.len(), |i: int| workers[i].cursor@),
                stages: Seq::new(workers.len(), |i: int| workers[i].processor@),
            },
            alerted: self.alert,
            slots: self.ring@,
            written: self.written@,
            events: self.events@,
            handed: self.handed@,
            registered: self.registered@,
            consumers: Seq::new(workers.len(), |i: int| workers[i].handler),
            names: Seq::new(workers.len(), |i: int| workers[i].name@),
            is_mut: Seq::new(workers.len(), |i: int| workers[i].handler is Mut),
            panicked: Seq::new(workers.len(), |i: int| workers[i].panicked),
        }
    }
}

impl<T, W: WaitStrategy> Disruptor<T, W> {
    /// The parts are in order, and the producer, unless it was handed out, is the one
    /// that belongs to them.
    pub closed spec fn wf(&self) -> bool {
        &&& self@.wf()
        &&& self.ring.wf()
        &&& self.producer matches Some(producer) ==> producer.belongs_to(self@.system)
    }

    /// The producer has not been handed out.
    pub closed spec fn has_producer(&self) -> bool {
        self.producer is Some
    }

    /// How idle workers wait.
    pub closed spec fn strategy(&self) -> W {
        self.wait
    }

    /// The consumers in topological order, as text.
    pub closed spec fn listed(&self) -> Seq<NodeText> {
        topology::node_texts(self.topology@)
    }

    /// What no operation changes.
    pub open spec fn same_frame(&self, other: &Self) -> bool {
        &&& self.strategy() == other.strategy()
        &&& self.listed() == other.listed()
        &&& self@.system.deps == other@.system.deps
        &&& self@.system.order == other@.system.order
        &&& self@.system.leaves == other@.system.leaves
        &&& self@.registered == other@.registered
        &&& self@.names == other@.names
        &&& self@.is_mut == other@.is_mut
    }

    /// What an operation that keeps the frame leaves alone: the strategy, the listing, the
    /// graph, and the consumers with their names and kinds.
    pub proof fn law_the_frame_stays(&self, other: &Self)
        requires
            self.same_frame(other),
        ensures
            self.strategy() == other.strategy(),
            self.listed() == other.listed(),
            self@.system.deps == other@.system.deps,
            self@.system.order == other@.system.order,
            self@.system.leaves == other@.system.leaves,
            self@.registered == other@.registered,
            self@.names == other@.names,
            self@.is_mut == other@.is_mut,
    {
    }

    pub proof fn lemma_wf(&self)
        requires
            self.wf(),
        ensures
            self@.wf(),
            ring::valid_capacity(self@.system.capacity()),
            self@.slots.len() == self@.system.capacity(),
    {
        self.ring.lemma_wf();
    }
}

/// The cursors that a stage waits for stand at most where the producer's does.
proof fn lemma_upstream(sys: System, i: int)
    requires
        sys.inv(),
        0 <= i < sys.stages.len(),
    ensures
        sys.upstream(i).len() > 0,
        sequence::least(sys.upstream(i)) <= sys.published < i64::MAX,
{
    let up = sys.upstream(i);
    sequence::lemma_least(up);
    if sys.deps[i].len() > 0 {
        let d = sys.deps[i][0];
        assert(sys.stage_inv(d));
        assert(sys.stages[d].wf());
        assert(up[0] == sys.cursors[d]);
    } else {
        assert(up[0] == sys.published);
    }
}

impl<T, W: WaitStrategy> Disruptor<T, W> {
    /// Where the cursors of the given stages stand.
    fn observe(&self, stages: &[usize]) -> (r: Vec<i64>)
        requires
            forall|k: int|
                0 <= k < stages@.len() ==> (#[trigger] stages@[k]) < self.workers@.len(),
        ensures
            sequence::sequences(r@) == Seq::new(
                stages@.len(),
                |k: int| self@.system.cursors[graph::ints(stages@)[k]],
            ),
    {
        let mut v: Vec<i64> = Vec::new();
        let mut k: usize = 0;
        while k < stages.len()
            invariant
                k <= stages@.len(),
                forall|m: int|
                    0 <= m < stages@.len() ==> (#[trigger] stages@[m]) < self.workers@.len(),
                v@.len() == k,
                forall|m: int|
                    0 <= m < k ==> (#[trigger] v@[m]) as int
                        == self@.system.cursors[stages@[m] as int],
            decreases stages@.len() - k,
        {
            assert(stages@[k as int] < self.workers@.len());
            v.push(self.workers[stages[k]].cursor.get());
            k = k + 1;
        }
        assert(sequence::sequences(v@) =~= Seq::new(
            stages@.len(),
            |m: int| self@.system.cursors[graph::ints(stages@)[m]],
        ));
        v
    }

    /// Where the cursors that a stage waits for stand.
    fn upstream(&self, i: usize) -> (r: Vec<i64>)
        requires
            self.wf(),
            i < self.workers@.len(),
        ensures
            sequence::sequences(r@) == self@.system.upstream(i as int),
            r@.len() == self@.system.upstream(i as int).len(),
    {
        let deps: &[usize] = self.workers[i].barrier.deps();
        let ghost row = self@.system.deps[i as int];
        assert(row == graph::ints(deps@));
        if deps.len() == 0 {
            let mut v: Vec<i64> = Vec::new();
            v.push(self.published.get());
            assert(sequence::sequences(v@) =~= self@.system.upstream(i as int));
            v
        } else {
            assert forall|k: int| 0 <= k < deps@.len() implies (#[trigger] deps@[k])
                < self.workers@.len() by {
                assert(row[k] == deps@[k]);
            }
            let v: Vec<i64> = self.observe(deps);
            assert(sequence::sequences(v@) =~= self@.system.upstream(i as int));
            assert(sequence::sequences(v@).len() == v@.len());
            v
        }
    }

    /// The number of stages.
    pub fn stage_count(&self) -> (r: usize)
        ensures
            r == self@.system.stages.len(),
    {
        self.workers.len()
    }

    /// Where the cursor of stage `i` stands.
    pub fn cursor(&self, i: usize) -> (r: i64)
        requires
            i < self@.system.stages.len(),
        ensures
            r == self@.system.cursors[i as int],
    {
        self.workers[i].cursor.get()
    }

    /// Where the producer's cursor stands.
    pub fn published(&self) -> (r: i64)
        ensures
            r == self@.system.published,
    {
        self.published.get()
    }

    /// The disruptor is shut down, or a consumer has failed.
    pub fn is_alerted(&self) -> (r: bool)
        ensures
            r == self@.alerted,
    {
        self.alert
    }

    /// Stage `i` takes no more steps.
    pub fn has_ended(&self, i: usize) -> (r: bool)
        requires
            i < self@.system.stages.len(),
        ensures
            r == self@.has_ended(i as int),
            r == (self@.panicked[i as int] || self@.system.stages[i as int].phase is Stopped),
    {
        self.workers[i].panicked || self.workers[i].processor.is_stopped()
    }
}

impl<T, W: WaitStrategy> Disruptor<T, W> {
    fn start_stage(&mut self, i: usize)
        requires
            old(self).wf(),
            i < old(self)@.system.stages.len(),
            old(self)@.next_step(i as int) is Started,
        ensures
            final(self).wf(),
            final(self).same_frame(old(self)),
            final(self).has_producer() == old(self).has_producer(),
            old(self)@.tells(old(self).strategy(), i as int),
            exists|left: Left<T>|
                old(self)@.may_leave(i as int, left)
                    && final(self)@ == #[trigger] old(self)@.stepped(i as int, left),
    {
        let ghost pre = self@;
        assert(pre.system.stage_inv(i as int));
        self.wait.register_current_thread();
        let Ghost(consumer): Ghost<Stage<T>> = self.workers[i].handler.on_start();
        self.workers[i].processor.start();
        proof {
            let left = Left { event: pre.slots[0], consumer };
            assert(consumer::is_start(pre.consumers[i as int], consumer));
            assert(self@ =~= pre.stepped(i as int, left));
            state::lemma_sight(pre, i as int);
            state::law_stage_steps_keep_order(pre, i as int, pre.sight(i as int), left);
        }
    }

    fn poll_stage(&mut self, i: usize) -> (r: StageStep)
        requires
            old(self).wf(),
            i < old(self)@.system.stages.len(),
            !old(self)@.has_ended(i as int),
            old(self)@.stage(i as int).phase is Waiting,
        ensures
            final(self).wf(),
            final(self).same_frame(old(self)),
            final(self).has_producer() == old(self).has_producer(),
            old(self)@.tells(old(self).strategy(), i as int),
            r == old(self)@.next_step(i as int),
            exists|left: Left<T>|
                old(self)@.may_leave(i as int, left)
                    && final(self)@ == #[trigger] old(self)@.stepped(i as int, left),
    {
        let ghost pre = self@;
        assert(pre.system.stage_inv(i as int));
        let observed: Vec<i64> = self.upstream(i);
        proof {
            lemma_upstream(pre.system, i as int);
        }
        let alerted: bool = self.alert;
        let ghost mut left: Left<T> = Left {
            event: pre.slots[0],
            consumer: pre.consumers[i as int],
        };
        let worker: &mut Worker<T> = &mut self.workers[i];
        let polled: Poll = worker.processor.poll(&worker.barrier, alerted, observed.as_slice());
        let r: StageStep = match polled {
            Poll::Ready(batch_end) => StageStep::Acquired(batch_end),
            Poll::Idle(attempt) => {
                let _action: IdleAction = self.wait.idle(attempt);
                StageStep::Idle(attempt)
            },
            Poll::Stop => {
                let Ghost(consumer): Ghost<Stage<T>> = worker.handler.on_shutdown();
                proof {
                    left = Left { event: pre.slots[0], consumer };
                    assert(consumer::is_shutdown(pre.consumers[i as int], consumer));
                }
                StageStep::Stopped
            },
        };
        proof {
            assert(self@ =~= pre.stepped(i as int, left));
            state::lemma_sight(pre, i as int);
            state::law_stage_steps_keep_order(pre, i as int, pre.sight(i as int), left);
        }
        r
    }

    fn deliver_to_stage(&mut self, i: usize) -> (r: StageStep)
        requires
            old(self).wf(),
            i < old(self)@.system.stages.len(),
            !old(self)@.has_ended(i as int),
            old(self)@.stage(i as int).phase is Delivering,
        ensures
            final(self).wf(),
            final(self).same_frame(old(self)),
            final(self).has_producer() == old(self).has_producer(),
            old(self)@.tells(old(self).strategy(), i as int),
            r == old(self)@.next_step(i as int),
            exists|left: Left<T>|
                old(self)@.may_leave(i as int, left)
                    && final(self)@ == #[trigger] old(self)@.stepped(i as int, left),
    {
        let ghost pre = self@;
        assert(pre.system.stage_inv(i as int));
        assert(pre.stage(i as int).wf());
        let alerted: bool = self.alert;
        let ghost mut left: Left<T> = Left {
            event: pre.slots[0],
            consumer: pre.consumers[i as int],
        };
        let r: StageStep = match self.workers[i].processor.deliver(alerted) {
            Delivery::Event { sequence, end_of_batch } => {
                let event: &mut T = self.ring.event_mut(sequence);
                let Ghost(told): Ghost<(Stage<T>, T)> = self.workers[i].handler.on_event(
                    event,
                    sequence,
                    end_of_batch,
                );
                let ghost found = pre.slots[pre.slot(sequence as int)];
                proof {
                    left = Left { event: told.1, consumer: told.0 };
                    assert(consumer::is_delivery(
                        pre.consumers[i as int],
                        found,
                        sequence,
                        end_of_batch,
                        left.consumer,
                        left.event,
                    ));
                    let record = Handed {
                        sequence: sequence as int,
                        end_of_batch,
                        before: found,
                        after: left.event,
                        consumer: pre.consumers[i as int],
                        consumer_after: left.consumer,
                    };
                    self.events@ = self.events@.update(sequence as int, left.event);
                    self.handed@ = self.handed@.update(
                        i as int,
                        self.handed@[i as int].push(record),
                    );
                }
                StageStep::Delivered { sequence, end_of_batch }
            },
            Delivery::Done(cursor) => {
                self.workers[i].cursor.set(cursor);
                self.wait.signal_all();
                StageStep::Advanced(cursor)
            },
            Delivery::Interrupted(cursor) => {
                self.workers[i].cursor.set(cursor);
                let Ghost(consumer): Ghost<Stage<T>> = self.workers[i].handler.on_shutdown();
                proof {
                    left = Left { event: pre.slots[0], consumer };
                    assert(consumer::is_shutdown(pre.consumers[i as int], consumer));
                }
                self.wait.signal_all();
                StageStep::Stopped
            },
        };
        proof {
            assert(self@ =~= pre.stepped(i as int, left));
            state::lemma_sight(pre, i as int);
            state::law_stage_steps_keep_order(pre, i as int, pre.sight(i as int), left);
        }
        r
    }

    /// Takes one step of stage `i`: starts its consumer, looks for events, hands it the
    /// next event of its batch, completes the batch, or, once the disruptor is alerted,
    /// shuts its consumer down. The wait strategy is told of it: it registers the thread
    /// of a stage that starts, is asked how to idle where nothing is available, and is
    /// signalled where a cursor moves.
    pub fn step(&mut self, i: usize) -> (r: StageStep)
        requires
            old(self).wf(),
            i < old(self)@.system.stages.len(),
        ensures
            final(self).wf(),
            final(self).same_frame(old(self)),
            final(self).has_producer() == old(self).has_producer(),
            final(self)@.same_but_for_stages(old(self)@),
            old(self)@.tells(old(self).strategy(), i as int),
            r == old(self)@.next_step(i as int),
            exists|left: Left<T>|
                old(self)@.may_leave(i as int, left)
                    && final(self)@ == #[trigger] old(self)@.stepped(i as int, left),
    {
        let ghost pre = self@;
        if self.has_ended(i) {
            proof {
                let left = Left { event: pre.slots[0], consumer: pre.consumers[i as int] };
                assert(pre.stepped(i as int, left) == pre);
            }
            return StageStep::Ended;
        }
        if self.workers[i].processor.is_starting() {
            self.start_stage(i);
            StageStep::Started
        } else if self.workers[i].processor.is_waiting() {
            self.poll_stage(i)
        } else {
            self.deliver_to_stage(i)
        }
    }

    /// Takes one step of each stage, in the order of their registration. Tells whether
    /// any of them got further.
    pub fn run_round(&mut self) -> (r: bool)
        requires
            old(self).wf(),
        ensures
            final(self).wf(),
            final(self).same_frame(old(self)),
            final(self).has_producer() == old(self).has_producer(),
            final(self)@.same_but_for_stages(old(self)@),
            exists|turns: Seq<Turn<T>>| #[trigger]
                old(self)@.allows(turns) && state::is_round(
                    turns,
                    old(self)@.handed.len() as int,
                ) && final(self)@ == old(self)@.after(turns) && old(self)@.tells_all(
                    old(self).strategy(),
                    turns,
                ),
            final(self)@.system.cursors != old(self)@.system.cursors ==> wait::is_signalled(
                old(self).strategy(),
            ),
            forall|i: int|
                0 <= i < old(self)@.handed.len() && (#[trigger] old(self)@.stage(
                    i,
                )).phase is Starting && !(final(self)@.stage(i).phase is Starting)
                    ==> wait::is_registered(old(self).strategy()),
            r ==> final(self)@.work() < old(self)@.work(),
            !r ==> final(self)@.work() == old(self)@.work() && final(self)@.rests(),
    {
        let ghost pre = self@;
        let ghost first = *self;
        let ghost mut turns: Seq<Turn<T>> = Seq::empty();
        let mut moved: bool = false;
        let mut i: usize = 0;
        while i < self.workers.len()
            invariant
                pre == first@,
                pre.wf(),
                self.wf(),
                self.same_frame(&first),
                self.has_producer() == first.has_producer(),
                self.workers@.len() == pre.handed.len(),
                i <= pre.handed.len(),
                pre.allows(turns),
                state::is_round(turns, i as int),
                self@ == pre.after(turns),
                pre.tells_all(first.strategy(), turns),
                moved ==> self@.work() < pre.work(),
                !moved ==> self@.work() == pre.work() && self@.rests_up_to(i as int),
            decreases pre.handed.len() - i,
        {
            let ghost before = self@;
            proof {
                state::law_turns_keep_order(pre, turns);
            }
            let did: StageStep = self.step(i);
            let idle: bool = matches!(did, StageStep::Idle(_)) || matches!(did, StageStep::Ended);
            proof {
                let left = choose|left: Left<T>|
                    before.may_leave(i as int, left) && self@ == #[trigger] before.stepped(
                        i as int,
                        left,
                    );
                let turn = Turn { stage: i as int, left };
                state::lemma_turn_more(pre, turns, turn);
                state::lemma_steps_do_work(before, i as int, left);
                if idle && !moved {
                    assert forall|j: int| 0 <= j < i + 1 implies !#[trigger] self@.moves(j) by {
                        state::lemma_rest_is_kept(before, i as int, left, j);
                    }
                }
                assert(turns.push(turn).drop_last() =~= turns);
                turns = turns.push(turn);
                state::law_turns_keep_order(pre, turns);
            }
            if !idle {
                moved = true;
            }
            i = i + 1;
        }
        proof {
            state::law_turns_keep_order(pre, turns);
            state::law_progress_is_signalled(pre, first.strategy(), turns);
        }
        moved
    }

    /// Lets the stages run until none of them gets further: every event that was
    /// published has then been consumed, unless the disruptor is alerted, in which case
    /// every consumer has been shut down.
    pub fn run_until_idle(&mut self)
        requires
            old(self).wf(),
        ensures
            final(self).wf(),
            final(self).same_frame(old(self)),
            final(self).has_producer() == old(self).has_producer(),
            final(self)@.same_but_for_stages(old(self)@),
            exists|turns: Seq<Turn<T>>| #[trigger]
                old(self)@.allows(turns) && final(self)@ == old(self)@.after(turns)
                    && old(self)@.tells_all(old(self).strategy(), turns),
            final(self)@.system.cursors != old(self)@.system.cursors ==> wait::is_signalled(
                old(self).strategy(),
            ),
            forall|i: int|
                0 <= i < old(self)@.handed.len() && (#[trigger] old(self)@.stage(
                    i,
                )).phase is Starting && !(final(self)@.stage(i).phase is Starting)
                    ==> wait::is_registered(old(self).strategy()),
            final(self)@.rests(),
            old(self)@.alerted ==> final(self)@.all_ended(),
            !old(self)@.alerted ==> final(self)@.all_caught_up()
                && final(self)@.all_have_heard_all(),
            !old(self)@.alerted ==> forall|i: int|
                0 <= i < old(self)@.handed.len() ==> #[trigger] final(self)@.system.cursors[i]
                    == old(self)@.written.len() - 1 && final(self)@.handed[i].len() == old(
                    self,
                )@.written.len(),
            old(self)@.alerted ==> forall|i: int|
                0 <= i < old(self)@.handed.len() ==> old(self)@.panicked[i] || (
                #[trigger] final(self)@.system.stages[i]).phase is Stopped,
    {
        let ghost pre = self@;
        let ghost first = *self;
        let ghost mut turns: Seq<Turn<T>> = Seq::empty();
        let mut moved: bool = true;
        while moved
            invariant
                pre == first@,
                pre.wf(),
                self.wf(),
                self.same_frame(&first),
                self.has_producer() == first.has_producer(),
                pre.allows(turns),
                self@ == pre.after(turns),
                pre.tells_all(first.strategy(), turns),
                !moved ==> self@.rests(),
            decreases self@.work(), moved as int,
        {
            let ghost before = self@;
            moved = self.run_round();
            proof {
                let more = choose|more: Seq<Turn<T>>| #[trigger]
                    before.allows(more) && self@ == before.after(more) && before.tells_all(
                        first.strategy(),
                        more,
                    );
                state::lemma_turns_join(pre, turns, more);
                state::lemma_tells_join(pre, first.strategy(), turns, more);
                turns = turns + more;
                state::lemma_work_is_finite(self@);
            }
        }
        proof {
            state::law_turns_keep_order(pre, turns);
            state::law_progress_is_signalled(pre, first.strategy(), turns);
            state::law_rest_is_complete(self@);
            if pre.alerted {
                assert forall|i: int| 0 <= i < pre.handed.len() implies pre.panicked[i] || (
                #[trigger] self@.system.stages[i]).phase is Stopped by {
                    assert(self@.has_ended(i));
                }
            } else {
                assert forall|i: int|
                    0 <= i < pre.handed.len() implies #[trigger] self@.system.cursors[i]
                    == pre.written.len() - 1 && self@.handed[i].len() == pre.written.len() by {
                    assert(self@.has_caught_up(i));
                }
            }
        }
    }
}

impl<T: Default, W: WaitStrategy> Disruptor<T, W> {
    /// Sets up what was planned. The slots hold default events.
    pub fn new(plan: Plan<T>, wait: W) -> (r: Self)
        requires
            plan.is_sound(),
        ensures
            r.wf(),
            r.has_producer(),
            state::is_fresh(r@, plan.capacity as int, plan.max_batch_size as int),
            r@.system.deps == plan.deps(),
            r@.system.order == graph::ints(plan.order@),
            r@.system.leaves == graph::ints(plan.leaves@),
            r@.names == Seq::new(plan.stages@.len(), |i: int| plan.stages@[i].name@),
            r@.is_mut == Seq::new(plan.stages@.len(), |i: int| plan.stages@[i].consumer is Mut),
            r@.registered == Seq::new(plan.stages@.len(), |i: int| plan.stages@[i].consumer),
            r.listed() == topology::node_texts(plan.topology@),
            r.strategy() == wait,
            forall|k: int|
                0 <= k < r@.slots.len() ==> call_ensures(T::default, (), #[trigger] r@.slots[k]),
    {
        let ghost stages = plan.stages@;
        let capacity: usize = plan.capacity;
        let max_batch_size: i64 = plan.max_batch_size;
        let ghost order = graph::ints(plan.order@);
        let ghost leaves = graph::ints(plan.leaves@);
        let mut workers: Vec<Worker<T>> = Vec::new();
        for stage in it: plan.stages.into_iter()
            invariant
                it.seq() == stages,
                max_batch_size >= 1,
                workers@.len() == it.index(),
                forall|i: int|
                    #![trigger workers@[i]]
                    0 <= i < workers@.len() ==> {
                        &&& workers@[i].name == stages[i].name
                        &&& workers@[i].handler == stages[i].consumer
                        &&& workers@[i].barrier@ == graph::ints(stages[i].deps@)
                        &&& workers@[i].processor@ == StageState::initial(max_batch_size as int)
                        &&& workers@[i].cursor@ == sequence::INITIAL
                        &&& !workers@[i].panicked
                    },
        {
            workers.push(
                Worker {
                    name: stage.name,
                    handler: stage.consumer,
                    barrier: SequenceBarrier::new(stage.deps),
                    processor: EventProcessor::new(max_batch_size),
                    cursor: Sequence::default(),
                    panicked: false,
                },
            );
        }
        let producer: SingleProducer = SingleProducer::new(capacity as i64, plan.leaves);
        let r = Disruptor {
            ring: RingBuffer::new(capacity),
            workers,
            published: Sequence::default(),
            producer: Some(producer),
            alert: false,
            wait,
            topology: plan.topology,
            order: Ghost(order),
            leaves: Ghost(leaves),
            claim: Ghost(ProducerState::initial(capacity as int)),
            written: Ghost(Seq::empty()),
            events: Ghost(Seq::empty()),
            handed: Ghost(Seq::new(stages.len(), |i: int| Seq::empty())),
            registered: Ghost(Seq::new(stages.len(), |i: int| stages[i].consumer)),
        };
        proof {
            let state = r@;
            assert(state.system.deps =~= plan.deps());
            assert(state.system.cursors =~= Seq::new(
                state.system.deps.len(),
                |i: int| sequence::INITIAL as int,
            ));
            assert(state.system.stages =~= Seq::new(
                state.system.deps.len(),
                |i: int| StageState::initial(max_batch_size as int),
            ));
            assert(state.panicked =~= Seq::new(state.system.deps.len(), |i: int| false));
            assert(state.handed =~= Seq::new(
                state.system.deps.len(),
                |i: int| Seq::<Handed<T>>::empty(),
            ));
            assert forall|i: int, j: int|
                0 <= i < state.is_mut.len() && 0 <= j < state.is_mut.len()
                    && state.is_mut[i] implies #[trigger] graph::comparable(
                state.system.deps,
                i,
                j,
            ) by {
                assert(graph::comparable(plan.deps(), i, j));
            }
            assert(state.consumers =~= state.registered);
            state::law_fresh_is_in_order(state, capacity as int, max_batch_size as int);
            assert(state.names =~= Seq::new(stages.len(), |i: int| stages[i].name@));
            assert(state.is_mut =~= Seq::new(stages.len(), |i: int| stages[i].consumer is Mut));
        }
        r
    }
}

/// The names of the workers that panicked, in order.
pub open spec fn failed(names: Seq<Seq<char>>, panicked: Seq<bool>) -> Seq<Seq<char>>
    decreases names.len(),
{
    if names.len() == 0 {
        Seq::empty()
    } else {
        let before = failed(names.drop_last(), panicked.drop_last());
        if panicked[names.len() - 1] {
            before.push(names.last())
        } else {
            before
        }
    }
}

/// A name is among the failed ones exactly if one of the workers that panicked has it.
pub proof fn law_failed_are_those_that_panicked(names: Seq<Seq<char>>, panicked: Seq<bool>)
    requires
        names.len() == panicked.len(),
    ensures
        forall|name: Seq<char>| #[trigger]
            failed(names, panicked).contains(name) <==> exists|i: int|
                0 <= i < names.len() && #[trigger] panicked[i] && names[i] == name,
        failed(names, panicked).len() == 0 <==> forall|i: int|
            0 <= i < names.len() ==> !#[trigger] panicked[i],
    decreases names.len(),
{
    if names.len() > 0 {
        let n = names.len() - 1;
        let head = names.drop_last();
        let flags = panicked.drop_last();
        let before = failed(head, flags);
        let all = failed(names, panicked);
        law_failed_are_those_that_panicked(head, flags);
        assert forall|name: Seq<char>| #[trigger] all.contains(name) <==> exists|i: int|
            0 <= i < names.len() && #[trigger] panicked[i] && names[i] == name by {
            if all.contains(name) {
                let k = choose|k: int| 0 <= k < all.len() && all[k] == name;
                if k < before.len() {
                    assert(before[k] == name);
                    assert(before.contains(name));
                    let i = choose|i: int|
                        0 <= i < head.len() && #[trigger] flags[i] && head[i] == name;
                    assert(panicked[i] && names[i] == name);
                } else {
                    assert(panicked[n] && names[n] == name);
                }
            }
            if exists|i: int| 0 <= i < names.len() && #[trigger] panicked[i] && names[i] == name {
                let i = choose|i: int|
                    0 <= i < names.len() && #[trigger] panicked[i] && names[i] == name;
                if i < n {
                    assert(flags[i] && head[i] == name);
                    assert(before.contains(name));
                    let k = choose|k: int| 0 <= k < before.len() && before[k] == name;
                    assert(all[k] == name);
                } else {
                    assert(all[all.len() - 1] == name);
                }
            }
        }
        if all.len() == 0 {
            assert forall|i: int| 0 <= i < names.len() implies !#[trigger] panicked[i] by {
                if i < n {
                    assert(!flags[i]);
                }
            }
        }
        if forall|i: int| 0 <= i < names.len() ==> !#[trigger] panicked[i] {
            assert forall|i: int| 0 <= i < head.len() implies !#[trigger] flags[i] by {
                assert(!panicked[i]);
            }
            assert(!panicked[n]);
        }
    }
}

/// The names of those that panicked are kept in order, one for each of them.
pub proof fn law_failures_are_listed_in_order(
    names: Seq<Seq<char>>,
    panicked: Seq<bool>,
    name: Seq<char>,
)
    requires
        names.len() == panicked.len(),
    ensures
        failed(Seq::empty(), Seq::empty()) == Seq::<Seq<char>>::empty(),
        failed(names.push(name), panicked.push(true)) == failed(names, panicked).push(name),
        failed(names.push(name), panicked.push(false)) == failed(names, panicked),
{
    assert(names.push(name).drop_last() =~= names);
    assert(panicked.push(true).drop_last() =~= panicked);
    assert(panicked.push(false).drop_last() =~= panicked);
}

/// How a worker ended.
pub struct WorkerExit {
    pub name: String,
    pub panicked: bool,
}

/// The names of some workers.
pub open spec fn exit_names(exits: Seq<WorkerExit>) -> Seq<Seq<char>> {
    Seq::new(exits.len(), |i: int| exits[i].name@)
}

/// Which of some workers panicked.
pub open spec fn exit_flags(exits: Seq<WorkerExit>) -> Seq<bool> {
    Seq::new(exits.len(), |i: int| exits[i].panicked)
}

/// Workers keep their names and how they ended, one for one.
pub proof fn law_exits_are_kept(exits: Seq<WorkerExit>, i: int)
    requires
        0 <= i < exits.len(),
    ensures
        exit_names(exits).len() == exits.len(),
        exit_flags(exits).len() == exits.len(),
        exit_names(exits)[i] == exits[i].name@,
        exit_flags(exits)[i] == exits[i].panicked,
{
}

/// Collects the names of the workers that panicked.
pub fn join_workers(exits: Vec<WorkerExit>) -> (r: Vec<String>)
    ensures
        text::texts(r@) == failed(exit_names(exits@), exit_flags(exits@)),
{
    let ghost names = exit_names(exits@);
    let ghost flags = exit_flags(exits@);
    let mut panicked_consumers: Vec<String> = Vec::new();
    assert(text::texts(panicked_consumers@) =~= failed(names.take(0), flags.take(0)));
    for exit in it: exits.into_iter()
        invariant
            it.seq() == exits@,
            names == exit_names(exits@),
            flags == exit_flags(exits@),
            text::texts(panicked_consumers@) == failed(
                names.take(it.index() as int),
                flags.take(it.index() as int),
            ),
    {
        let ghost k = it.index() as int;
        let ghost before = text::texts(panicked_consumers@);
        assert(names.take(k + 1).drop_last() =~= names.take(k));
        assert(flags.take(k + 1).drop_last() =~= flags.take(k));
        assert(names.take(k + 1).last() == exit.name@);
        if exit.panicked {
            panicked_consumers.push(exit.name);
            assert(text::texts(panicked_consumers@) =~= before.push(exit.name@));
        }
    }
    assert(names.take(exits@.len() as int) =~= names);
    assert(flags.take(exits@.len() as int) =~= flags);
    panicked_consumers
}

impl<T, W: WaitStrategy> Disruptor<T, W> {
    /// Take the producer, which is handed out once.
    pub fn producer(&mut self) -> (r: SingleProducer)
        requires
            old(self).wf(),
            old(self).has_producer(),
        ensures
            final(self).wf(),
            final(self).same_frame(old(self)),
            !final(self).has_producer(),
            final(self)@ == old(self)@,
            r.belongs_to(final(self)@.system),
            r@ == old(self)@.system.producer,
            r.gates() == old(self)@.system.leaves,
    {
        let producer: Option<SingleProducer> = self.producer.take();
        producer.unwrap()
    }

    /// Writes the consumer dependency graph in topological order.
    pub fn format_topology(&self) -> (r: String)
        ensures
            r@ == topology::listing(self.listed()),
    {
        topology::format_topology(self.topology.as_slice())
    }

    /// Records that the consumer of stage `i` has panicked: the stage takes no more
    /// steps, and the disruptor is alerted, so that the others stop and nothing more is
    /// published.
    pub fn worker_panicked(&mut self, i: usize)
        requires
            old(self).wf(),
            i < old(self)@.system.stages.len(),
        ensures
            final(self).wf(),
            final(self).same_frame(old(self)),
            final(self).has_producer() == old(self).has_producer(),
            final(self)@ == (DisruptorState {
                panicked: old(self)@.panicked.update(i as int, true),
                ..old(self)@.with_alert()
            }),
            wait::is_signalled(old(self).strategy()),
            final(self)@.alerted,
            final(self)@.panicked[i as int],
    {
        let ghost pre = self@;
        self.workers[i].panicked = true;
        self.alert = true;
        self.wait.signal_all();
        proof {
            assert(self@ =~= (DisruptorState {
                panicked: pre.panicked.update(i as int, true),
                ..pre.with_alert()
            }));
            state::law_failure_keeps_order(pre, i as int);
        }
    }

    fn exits(&self) -> (r: Vec<WorkerExit>)
        ensures
            exit_names(r@) == self@.names,
            exit_flags(r@) == self@.panicked,
    {
        let mut v: Vec<WorkerExit> = Vec::new();
        let mut i: usize = 0;
        while i < self.workers.len()
            invariant
                i <= self.workers@.len(),
                v@.len() == i,
                forall|k: int|
                    #![trigger v@[k]]
                    0 <= k < i ==> v@[k].name@ == self.workers@[k].name@ && v@[k].panicked
                        == self.workers@[k].panicked,
            decreases self.workers@.len() - i,
        {
            v.push(
                WorkerExit {
                    name: self.workers[i].name.clone(),
                    panicked: self.workers[i].panicked,
                },
            );
            i = i + 1;
        }
        assert(exit_names(v@) =~= self@.names);
        assert(exit_flags(v@) =~= self@.panicked);
        v
    }

    /// Tell all consumers to stop and see them end, reporting any consumers that
    /// panicked.
    ///
    /// This is an immediate stop and does not drain pending events: what is left of an
    /// acquired batch is not delivered. After this method returns, new calls to
    /// [`SingleProducer::publish`] return
    /// [`PublishError::Shutdown`](crate::PublishError::Shutdown).
    pub fn shutdown(&mut self) -> (r: Result<(), ShutdownError>)
        requires
            old(self).wf(),
        ensures
            final(self).wf(),
            final(self).same_frame(old(self)),
            final(self).has_producer() == old(self).has_producer(),
            wait::is_signalled(old(self).strategy()),
            final(self)@.alerted,
            final(self)@.all_ended(),
            forall|i: int|
                0 <= i < old(self)@.handed.len() ==> old(self)@.panicked[i] || (
                #[trigger] final(self)@.system.stages[i]).phase is Stopped,
            forall|i: int|
                0 <= i < old(self)@.handed.len() && !old(self)@.has_ended(i)
                    ==> #[trigger] final(self)@.was_shut_down(i),
            final(self)@.same_but_for_stages(old(self)@.with_alert()),
            exists|turns: Seq<Turn<T>>| #[trigger]
                old(self)@.with_alert().allows(turns)
                    && final(self)@ == old(self)@.with_alert().after(turns)
                    && old(self)@.with_alert().tells_all(old(self).strategy(), turns),
            final(self)@.handed == old(self)@.handed,
            final(self)@.slots == old(self)@.slots,
            final(self)@.events == old(self)@.events,
            match r {
                Ok(_) => old(self)@.none_panicked(),
                Err(error) => !old(self)@.none_panicked() && error@ == failed(
                    old(self)@.names,
                    old(self)@.panicked,
                ),
            },
            r is Ok <==> forall|i: int|
                0 <= i < old(self)@.panicked.len() ==> !#[trigger] old(self)@.panicked[i],
    {
        let ghost pre = self@;
        self.alert = true;
        self.wait.signal_all();
        let ghost mid = pre.with_alert();
        proof {
            assert(self@ =~= mid);
            state::law_alert_keeps_order(pre);
        }
        self.run_until_idle();
        proof {
            let turns = choose|turns: Seq<Turn<T>>| #[trigger]
                mid.allows(turns) && self@ == mid.after(turns);
            state::law_no_events_after_the_alert(mid, turns);
            state::law_turns_keep_order(mid, turns);
            law_failed_are_those_that_panicked(pre.names, pre.panicked);
            assert forall|i: int| 0 <= i < pre.handed.len() && !pre.has_ended(
                i,
            ) implies #[trigger] self@.was_shut_down(i) by {
                assert(self@.has_ended(i));
                assert(self@.record_is_true(i));
            }
        }
        let panicked_consumers: Vec<String> = join_workers(self.exits());
        assert(text::texts(panicked_consumers@).len() == panicked_consumers@.len());
        if panicked_consumers.len() == 0 {
            Ok(())
        } else {
            Err(ShutdownError::new(panicked_consumers))
        }
    }

    /// Tell all consumers to stop and see them end, where none of them has panicked.
    ///
    /// Publication cutoff semantics are the same as [`Self::shutdown`].
    pub fn shutdown_or_panic(&mut self)
        requires
            old(self).wf(),
            old(self)@.none_panicked(),
        ensures
            final(self).wf(),
            final(self).same_frame(old(self)),
            final(self).has_producer() == old(self).has_producer(),
            wait::is_signalled(old(self).strategy()),
            final(self)@.alerted,
            final(self)@.all_ended(),
            forall|i: int|
                0 <= i < old(self)@.handed.len() ==> old(self)@.panicked[i] || (
                #[trigger] final(self)@.system.stages[i]).phase is Stopped,
            forall|i: int|
                0 <= i < old(self)@.handed.len() && !old(self)@.has_ended(i)
                    ==> #[trigger] final(self)@.was_shut_down(i),
            final(self)@.same_but_for_stages(old(self)@.with_alert()),
            exists|turns: Seq<Turn<T>>| #[trigger]
                old(self)@.with_alert().allows(turns)
                    && final(self)@ == old(self)@.with_alert().after(turns)
                    && old(self)@.with_alert().tells_all(old(self).strategy(), turns),
            final(self)@.handed == old(self)@.handed,
            final(self)@.slots == old(self)@.slots,
            final(self)@.events == old(self)@.events,
    {
        let _ended: Result<(), ShutdownError> = self.shutdown();
    }
}

/// The producer sees the gating cursors as they are.
proof fn lemma_gates_are_seen<T>(state: DisruptorState<T>)
    requires
        state.wf(),
    ensures
        protocol::seen(state.system.gates(), state.system.gates()),
{
    let sys = state.system;
    assert forall|k: int|
        #![trigger sys.gates()[k]]
        0 <= k < sys.gates().len() implies sequence::INITIAL <= sys.gates()[k] by {
        let leaf = sys.leaves[k];
        assert(sys.leaves.contains(leaf));
        assert(sys.stage_inv(leaf));
        assert(sys.stages[leaf].wf());
    }
}

/// Where every stage has caught up, the next slot is free.
proof fn lemma_caught_up_is_room<T>(state: DisruptorState<T>)
    requires
        state.wf(),
        state.all_caught_up(),
    ensures
        sequence::least(state.system.gates()) >= state.system.producer.wrap_point(),
{
    let sys = state.system;
    let gates = sys.gates();
    sequence::lemma_least(gates);
    if gates.contains(sequence::least(gates)) {
        let k = choose|k: int| 0 <= k < gates.len() && gates[k] == sequence::least(gates);
        assert(sys.leaves.contains(sys.leaves[k]));
        assert(state.has_caught_up(sys.leaves[k]));
    }
}

/// Where there is room at once, nothing is waited for.
proof fn lemma_room_ends_the_wait<T>(state: DisruptorState<T>, rounds: Seq<Seq<Turn<T>>>)
    requires
        state.waits(rounds),
        state.has_room(),
    ensures
        rounds.len() == 0,
    decreases rounds.len(),
{
    if rounds.len() > 0 {
        lemma_room_ends_the_wait(state, rounds.drop_last());
    }
}

impl SingleProducer {
    /// Looks at the gating cursors and claims the slot if it is free.
    fn look<T, W: WaitStrategy>(&mut self, disruptor: &mut Disruptor<T, W>) -> (r: Claim)
        requires
            old(disruptor).wf(),
            !old(disruptor).has_producer(),
            old(self).belongs_to(old(disruptor)@.system),
            old(self)@.phase is Gated,
            old(self)@.next_seq < i64::MAX,
        ensures
            final(disruptor).wf(),
            final(disruptor).same_frame(old(disruptor)),
            !final(disruptor).has_producer(),
            final(self).gates() == old(self).gates(),
            final(self)@ == old(self)@.gate_checked(old(disruptor)@.system.gates()),
            final(disruptor)@ == old(disruptor)@.with_producer(final(self)@),
            r == old(self)@.check_gate(old(disruptor)@.system.gates()),
    {
        let ghost pre = disruptor@;
        let ghost sys = pre.system;
        let gating: &[usize] = self.gating();
        assert forall|k: int| 0 <= k < gating@.len() implies (#[trigger] gating@[k])
            < disruptor.workers@.len() by {
            assert(sys.leaves[k] == gating@[k]);
            assert(sys.leaves.contains(sys.leaves[k]));
        }
        let observed: Vec<i64> = disruptor.observe(gating);
        assert(sequence::sequences(observed@) =~= sys.gates());
        let r: Claim = self.check_gate(observed.as_slice());
        proof {
            disruptor.claim@ = self@;
            assert(disruptor@ =~= pre.with_producer(self@));
            lemma_gates_are_seen(pre);
            state::law_claims_keep_order(pre, Event::CheckGate { observed: sys.gates() });
        }
        r
    }

    /// Waits until the slot of the next event is free. Instead of blocking, the caller
    /// lets the stages run.
    #[verifier::rlimit(40)]
    fn wait_for_room<T, W: WaitStrategy>(&mut self, disruptor: &mut Disruptor<T, W>)
        requires
            old(disruptor).wf(),
            !old(disruptor).has_producer(),
            !old(disruptor)@.alerted,
            old(self).belongs_to(old(disruptor)@.system),
            old(self)@.phase == (ProducerPhase::Gated { attempt: 0 }),
            old(self)@.cached_gate < old(self)@.wrap_point(),
            old(self)@.next_seq < i64::MAX,
        ensures
            wait::is_registered(old(disruptor).strategy()),
            final(disruptor).wf(),
            final(disruptor).same_frame(old(disruptor)),
            !final(disruptor).has_producer(),
            final(self).belongs_to(final(disruptor)@.system),
            exists|rounds: Seq<Seq<Turn<T>>>| #[trigger]
                old(disruptor)@.waits(rounds) && {
                    let turns = state::joined(rounds);
                    let mid = old(disruptor)@.after(turns);
                    let gate = sequence::least(mid.system.gates());
                    &&& old(disruptor)@.allows(turns)
                    &&& old(disruptor)@.tells_all(old(disruptor).strategy(), turns)
                    &&& wait::is_asked_times(old(disruptor).strategy(), rounds.len())
                    &&& gate >= old(self)@.wrap_point()
                    &&& final(self)@ == (ProducerState {
                        cached_gate: gate,
                        phase: ProducerPhase::Claimed,
                        ..old(self)@
                    })
                    &&& final(disruptor)@ == mid.with_producer(final(self)@)
                },
    {
        let ghost pre = disruptor@;
        let ghost first = *disruptor;
        let ghost base = self@;
        let ghost gates = self.gates();
        let ghost mut rounds: Seq<Seq<Turn<T>>> = Seq::empty();
        let ghost mut turns: Seq<Turn<T>> = state::joined(rounds);
        disruptor.wait.register_current_thread();
        let mut claim: Claim = self.look(disruptor);
        assert(disruptor@.system.gates() =~= pre.system.gates());
        while matches!(claim, Claim::Gated)
            invariant
                pre == first@,
                pre.wf(),
                !pre.alerted,
                base == pre.system.producer,
                base.next_seq < i64::MAX,
                gates == pre.system.leaves,
                disruptor.wf(),
                disruptor.same_frame(&first),
                !disruptor.has_producer(),
                self.gates() == gates,
                pre.allows(turns),
                disruptor@ == pre.after(turns).with_producer(self@),
                base.cached_gate < base.wrap_point(),
                turns == state::joined(rounds),
                pre.waits(rounds),
                pre.tells_all(first.strategy(), turns),
                wait::is_asked_times(first.strategy(), rounds.len()),
                claim is Gated ==> self@ == (ProducerState {
                    phase: ProducerPhase::Gated { attempt: wait::capped(rounds.len()) as int },
                    ..base
                }) && sequence::least(pre.after(turns).system.gates()) < base.wrap_point(),
                !(claim is Gated) ==> {
                    let gate = sequence::least(pre.after(turns).system.gates());
                    gate >= base.wrap_point() && self@ == (ProducerState {
                        cached_gate: gate,
                        phase: ProducerPhase::Claimed,
                        ..base
                    })
                },
            decreases disruptor@.work(), (claim is Gated) as int,
        {
            proof {
                state::law_turns_keep_order(pre, turns);
                state::lemma_producer_aside(pre, self@, turns);
                assert(!pre.after(turns).has_room());
            }
            let ghost stood = disruptor@;
            match self.stall(disruptor.alert) {
                Stall::Idle(attempt) => {
                    let _action: IdleAction = disruptor.wait.idle(attempt);
                },
                Stall::Shutdown => {},
            }
            proof {
                assert(wait::is_asked(first.strategy(), wait::capped(rounds.len())));
                disruptor.claim@ = self@;
                assert(disruptor@ =~= stood.with_producer(self@));
                state::law_claims_keep_order(stood, Event::Stall { alerted: false });
                assert(disruptor@ =~= pre.after(turns).with_producer(self@));
            }
            let ghost before = disruptor@;
            let moved: bool = disruptor.run_round();
            proof {
                let more = choose|more: Seq<Turn<T>>| #[trigger]
                    before.allows(more) && state::is_round(more, before.handed.len() as int)
                        && disruptor@ == before.after(more) && before.tells_all(
                        first.strategy(),
                        more,
                    );
                let mid = pre.after(turns);
                state::lemma_producer_aside(mid, self@, more);
                state::lemma_tells_aside(mid, self@, first.strategy(), more);
                state::lemma_turns_join(pre, turns, more);
                state::lemma_tells_join(pre, first.strategy(), turns, more);
                assert(rounds.push(more).drop_last() =~= rounds);
                rounds = rounds.push(more);
                turns = turns + more;
                assert(disruptor@ == pre.after(turns).with_producer(self@));
                state::law_turns_keep_order(pre, turns);
                if !moved {
                    state::law_rest_is_complete(disruptor@);
                    lemma_caught_up_is_room(disruptor@);
                }
                state::lemma_work_is_finite(disruptor@);
            }
            let ghost after = disruptor@;
            claim = self.look(disruptor);
            proof {
                assert(after.system.gates() =~= pre.after(turns).system.gates());
                assert(disruptor@ =~= pre.after(turns).with_producer(self@));
            }
        }
    }

    /// Publish one event.
    ///
    /// Where there is no room in the ring, the stages run until there is: one round after
    /// each check that found none, and after the wait strategy was asked how to idle.
    /// Returns
    /// [`PublishError::Shutdown`] when the disruptor was already alerted as this call
    /// began.
    pub fn publish<T, W: WaitStrategy, F: FnOnce(&mut T)>(
        &mut self,
        disruptor: &mut Disruptor<T, W>,
        write: F,
    ) -> (r: Result<i64, PublishError>)
        requires
            old(disruptor).wf(),
            !old(disruptor).has_producer(),
            old(self).belongs_to(old(disruptor)@.system),
            old(self)@.phase is Open,
            old(self)@.next_seq < i64::MAX,
            forall|event: &mut T| write.requires((event,)),
        ensures
            final(disruptor).wf(),
            final(disruptor).same_frame(old(disruptor)),
            !final(disruptor).has_producer(),
            final(self).belongs_to(final(disruptor)@.system),
            final(self)@.phase is Open,
            match r {
                Ok(seq) => !old(disruptor)@.alerted && seq == old(self)@.next_seq
                    && seq == old(disruptor)@.written.len()
                    && (old(disruptor)@.has_room()
                    ==> final(disruptor)@.consumers == old(disruptor)@.consumers)
                    && ((forall|i: int|
                    0 <= i < old(disruptor)@.system.cursors.len() ==> #[trigger] old(
                        disruptor,
                    )@.system.cursors[i] >= old(disruptor)@.written.len() - old(
                        disruptor,
                    )@.slots.len()) ==> final(disruptor)@.consumers == old(disruptor)@.consumers
                    && final(disruptor)@.handed == old(disruptor)@.handed
                    && final(disruptor)@.system.stages == old(disruptor)@.system.stages)
                    && final(disruptor)@.system.published == seq && final(self)@.next_seq == seq + 1
                    && wait::is_signalled(old(disruptor).strategy())
                    && (!old(disruptor)@.has_room() ==> wait::is_registered(
                    old(disruptor).strategy(),
                )) && exists|rounds: Seq<Seq<Turn<T>>>, event: &mut T|
                    #![trigger old(disruptor)@.waits(rounds), write.ensures((event,), ())]
                    old(disruptor)@.waits(rounds) && write.ensures((event,), ()) && {
                        let turns = state::joined(rounds);
                        let mid = old(disruptor)@.after(turns);
                        &&& old(disruptor)@.allows(turns)
                        &&& old(disruptor)@.tells_all(old(disruptor).strategy(), turns)
                        &&& wait::is_asked_times(old(disruptor).strategy(), rounds.len())
                        &&& mid.has_room()
                        &&& mid.same_but_for_stages(old(disruptor)@)
                        &&& old(disruptor)@.has_room() ==> rounds.len() == 0
                        &&& (forall|i: int|
                            0 <= i < old(disruptor)@.system.cursors.len() ==> #[trigger] old(
                                disruptor,
                            )@.system.cursors[i] >= old(disruptor)@.written.len() - old(
                                disruptor,
                            )@.slots.len()) ==> rounds.len() == 0
                        &&& *event == mid.slots[mid.slot(seq as int)]
                        &&& *event == mid.slots[seq as int % mid.slots.len() as int]
                        &&& final(disruptor)@ == mid.claimed().published_with(*final(event))
                        &&& final(disruptor)@.written == old(disruptor)@.written.push(
                            *final(event),
                        )
                    },
                Err(PublishError::Shutdown) => old(disruptor)@.alerted
                    && final(disruptor)@ == old(disruptor)@ && final(self)@ == old(self)@,
            },
    {
        let ghost pre = disruptor@;
        let ghost base = self@;
        let ghost wait = disruptor.strategy();
        let ghost mut rounds: Seq<Seq<Turn<T>>> = Seq::empty();
        let alerted: bool = disruptor.alert;
        let begun: Claim = self.begin(alerted);
        proof {
            disruptor.claim@ = self@;
            assert(disruptor@ =~= pre.with_producer(self@));
            state::law_claims_keep_order(pre, Event::Begin { alerted });
        }
        if alerted {
            assert(disruptor@ =~= pre);
            return Err(PublishError::Shutdown);
        }
        let ghost began = disruptor@;
        assert(began.system.gates() =~= pre.system.gates());
        if matches!(begun, Claim::Gated) {
            self.wait_for_room(disruptor);
            proof {
                rounds = choose|rounds: Seq<Seq<Turn<T>>>| #[trigger]
                    began.waits(rounds) && {
                        let turns = state::joined(rounds);
                        let mid = began.after(turns);
                        let gate = sequence::least(mid.system.gates());
                        &&& began.allows(turns)
                        &&& began.tells_all(wait, turns)
                        &&& wait::is_asked_times(wait, rounds.len())
                        &&& gate >= base.wrap_point()
                        &&& self@ == (ProducerState {
                            cached_gate: gate,
                            phase: ProducerPhase::Claimed,
                            ..base
                        })
                        &&& disruptor@ == mid.with_producer(self@)
                    };
                let turns = state::joined(rounds);
                state::lemma_waits_aside(pre, began.system.producer, rounds);
                state::lemma_tells_aside(pre, began.system.producer, wait, turns);
                state::lemma_producer_aside(pre, began.system.producer, turns);
                assert(began.after(turns).system.gates() =~= pre.after(turns).system.gates());
            }
        }
        let ghost turns = state::joined(rounds);
        let ghost mid = pre.after(turns);
        proof {
            state::law_turns_keep_order(pre, turns);
            state::lemma_producer_aside(pre, base, turns);
            if pre.has_room() {
                lemma_room_ends_the_wait(pre, rounds);
            }
            state::law_room_is_what_every_stage_is_done_with(pre);
            assert(mid.has_room());
            assert(disruptor@ =~= mid.claimed());
            assert(pre.waits(rounds));
        }
        let ghost ready = disruptor@;
        assert(ready.written == pre.written);
        let seq: i64 = self.next_seq();
        write(disruptor.ring.event_mut(seq));
        let ghost value = disruptor.ring@[ready.slot(seq as int)];
        disruptor.published.set(seq);
        self.commit();
        disruptor.wait.signal_all();
        proof {
            disruptor.claim@ = self@;
            disruptor.written@ = disruptor.written@.push(value);
            disruptor.events@ = disruptor.events@.push(value);
            assert(disruptor@ =~= ready.published_with(value));
            state::law_publications_keep_order(ready, value);
        }
        Ok(seq)
    }
}

} // verus!
