//! The protocol by which one producer and a graph of stages share a ring of slots.
//!
//! A [`System`] holds the state of everybody and the cursors through which they see
//! each other. An [`Event`] is one step of one of them. A step that looks at cursors
//! is given what it saw, which may be out of date: cursors only rise, so a value that
//! was read is at most the value that the cursor holds.

use crate::graph;
use crate::processor::Delivery;
use crate::processor::StagePhase;
use crate::processor::StageState;
use crate::producer::ProducerPhase;
use crate::producer::ProducerState;
use crate::sequence;
use vstd::prelude::*;

verus! {

/// The producer, the stages and their cursors.
#[verifier::ext_equal]
pub struct System {
    /// The stages that each stage depends on.
    pub deps: Seq<Seq<int>>,
    /// The stages in topological order.
    pub order: Seq<int>,
    /// The stages that gate the producer.
    pub leaves: Seq<int>,
    pub producer: ProducerState,
    /// The producer's cursor: the last event that was published.
    pub published: int,
    /// The cursor of each stage: the last event of its last batch.
    pub cursors: Seq<int>,
    pub stages: Seq<StageState>,
}

/// One step of the producer or of a stage.
pub enum Event {
    Begin { alerted: bool },
    CheckGate { observed: Seq<int> },
    Stall { alerted: bool },
    Abandon,
    Commit,
    Start { stage: int },
    Poll { stage: int, alerted: bool, observed: Seq<int> },
    Advance { stage: int, alerted: bool },
}

/// `observed` is what cursors that now stand at `actual` held at some time since the
/// beginning.
pub open spec fn seen(observed: Seq<int>, actual: Seq<int>) -> bool {
    &&& observed.len() == actual.len()
    &&& forall|k: int|
        #![trigger observed[k]]
        0 <= k < observed.len() ==> sequence::INITIAL <= observed[k] <= actual[k]
}

/// How far a stage may read: the end of its batch, or what it has consumed.
pub open spec fn reserved(state: StageState) -> int {
    match state.phase {
        StagePhase::Delivering { seq, batch_end } => batch_end,
        _ => state.next - 1,
    }
}

impl System {
    /// The number of slots.
    pub open spec fn capacity(self) -> int {
        self.producer.capacity
    }

    /// The cursors that stage `i` waits for.
    pub open spec fn upstream(self, i: int) -> Seq<int> {
        if self.deps[i].len() == 0 {
            seq![self.published]
        } else {
            Seq::new(self.deps[i].len(), |k: int| self.cursors[self.deps[i][k]])
        }
    }

    /// The cursors that the producer waits for.
    pub open spec fn gates(self) -> Seq<int> {
        Seq::new(self.leaves.len(), |k: int| self.cursors[self.leaves[k]])
    }

    /// Nothing has happened yet.
    pub open spec fn is_initial(self, capacity: int, max_batch_size: int) -> bool {
        &&& 1 <= capacity <= i64::MAX
        &&& 1 <= max_batch_size <= i64::MAX
        &&& graph::in_range(self.deps)
        &&& graph::is_topological(self.deps, self.order)
        &&& graph::are_leaves(self.deps, self.leaves)
        &&& self.producer == ProducerState::initial(capacity)
        &&& self.published == sequence::INITIAL
        &&& self.cursors == Seq::new(self.deps.len(), |i: int| sequence::INITIAL as int)
        &&& self.stages == Seq::new(self.deps.len(), |i: int| StageState::initial(max_batch_size))
    }

    /// Whether a step can be taken.
    pub open spec fn enabled(self, event: Event) -> bool {
        match event {
            Event::Begin { alerted } => self.producer.phase is Open && self.producer.next_seq
                < i64::MAX,
            Event::CheckGate { observed } => self.producer.phase is Gated && self.producer.next_seq
                < i64::MAX && seen(observed, self.gates()),
            Event::Stall { alerted } => self.producer.phase is Gated,
            Event::Abandon => self.producer.phase is Claimed,
            Event::Commit => self.producer.phase is Claimed,
            Event::Start { stage } => 0 <= stage < self.stages.len()
                && self.stages[stage].phase is Starting,
            Event::Poll { stage, alerted, observed } => 0 <= stage < self.stages.len()
                && self.stages[stage].phase is Waiting && seen(observed, self.upstream(stage)),
            Event::Advance { stage, alerted } => 0 <= stage < self.stages.len()
                && self.stages[stage].phase is Delivering,
        }
    }

    /// The system after a step.
    pub open spec fn next(self, event: Event) -> System {
        match event {
            Event::Begin { alerted } => System { producer: self.producer.begun(alerted), ..self },
            Event::CheckGate { observed } => System {
                producer: self.producer.gate_checked(observed),
                ..self
            },
            Event::Stall { alerted } => System { producer: self.producer.stalled(alerted), ..self },
            Event::Abandon => System { producer: self.producer.abandoned(), ..self },
            Event::Commit => System {
                producer: self.producer.committed(),
                published: self.producer.next_seq,
                ..self
            },
            Event::Start { stage } => System {
                stages: self.stages.update(stage, self.stages[stage].started()),
                ..self
            },
            Event::Poll { stage, alerted, observed } => System {
                stages: self.stages.update(stage, self.stages[stage].polled(alerted, observed)),
                ..self
            },
            Event::Advance { stage, alerted } => System {
                stages: self.stages.update(stage, self.stages[stage].advanced(alerted)),
                cursors: match self.stages[stage].delivery(alerted) {
                    Delivery::Event { sequence, end_of_batch } => self.cursors,
                    Delivery::Done(cursor) => self.cursors.update(stage, cursor as int),
                    Delivery::Interrupted(cursor) => self.cursors.update(stage, cursor as int),
                },
                ..self
            },
        }
    }

    /// What every step keeps: a stage stays behind what it depends on, and the producer
    /// stays within one round of the slowest stage.
    pub open spec fn inv(self) -> bool {
        &&& graph::in_range(self.deps)
        &&& graph::is_topological(self.deps, self.order)
        &&& graph::are_leaves(self.deps, self.leaves)
        &&& self.cursors.len() == self.deps.len()
        &&& self.stages.len() == self.deps.len()
        &&& self.producer.wf()
        &&& self.published == self.producer.next_seq - 1
        &&& forall|i: int| 0 <= i < self.stages.len() ==> self.stage_inv(i)
        &&& forall|k: int|
            0 <= k < self.leaves.len() ==> self.producer.cached_gate
                <= self.cursors[#[trigger] self.leaves[k]]
    }

    /// What holds of stage `i`.
    pub open spec fn stage_inv(self, i: int) -> bool {
        &&& #[trigger] self.stages[i].wf()
        &&& self.cursors[i] == self.stages[i].next - 1
        &&& reserved(self.stages[i]) <= self.published
        &&& self.published - self.capacity() <= self.cursors[i]
        &&& forall|k: int|
            0 <= k < self.deps[i].len() ==> reserved(self.stages[i])
                <= self.cursors[#[trigger] self.deps[i][k]]
    }
}

/// `states` are the systems that the steps `events` lead through.
pub open spec fn is_run(states: Seq<System>, events: Seq<Event>) -> bool {
    &&& states.len() == events.len() + 1
    &&& forall|t: int|
        0 <= t < events.len() ==> (#[trigger] states[t]).enabled(events[t]) && states[t + 1]
            == states[t].next(events[t])
}

pub proof fn lemma_initial(sys: System, capacity: int, max_batch_size: int)
    requires
        sys.is_initial(capacity, max_batch_size),
    ensures
        sys.inv(),
{
    assert forall|i: int| 0 <= i < sys.stages.len() implies sys.stage_inv(i) by {
        assert(sys.stages[i] == StageState::initial(max_batch_size));
        assert forall|k: int| 0 <= k < sys.deps[i].len() implies reserved(sys.stages[i])
            <= sys.cursors[#[trigger] sys.deps[i][k]] by {}
    }
    assert forall|k: int| 0 <= k < sys.leaves.len() implies sys.producer.cached_gate
        <= sys.cursors[#[trigger] sys.leaves[k]] by {
        assert(sys.leaves.contains(sys.leaves[k]));
    }
}

/// What stage `j` may read has been consumed by everything that reaches it.
pub proof fn lemma_behind(sys: System, i: int, j: int)
    requires
        sys.inv(),
        graph::reaches(sys.deps, i, j),
    ensures
        0 <= i < sys.stages.len(),
        0 <= j < sys.stages.len(),
        reserved(sys.stages[j]) <= sys.cursors[i],
{
    graph::lemma_reaches_in_range(sys.deps, i, j);
    let q = graph::lemma_position(sys.deps, sys.order, j);
    lemma_behind_at(sys, i, q);
}

proof fn lemma_behind_at(sys: System, i: int, q: int)
    requires
        sys.inv(),
        0 <= q < sys.order.len(),
        graph::reaches(sys.deps, i, sys.order[q]),
    ensures
        0 <= i < sys.stages.len(),
        reserved(sys.stages[sys.order[q]]) <= sys.cursors[i],
    decreases q,
{
    let j = sys.order[q];
    graph::lemma_reaches_in_range(sys.deps, i, j);
    let d = graph::lemma_reaches_last(sys.deps, i, j);
    let k = choose|k: int| 0 <= k < sys.deps[j].len() && sys.deps[j][k] == d;
    assert(sys.stage_inv(j));
    assert(sys.stages[j].wf());
    assert(reserved(sys.stages[j]) <= sys.cursors[sys.deps[j][k]]);
    if d != i {
        graph::lemma_reaches_in_range(sys.deps, i, d);
        let r = graph::lemma_position(sys.deps, sys.order, d);
        graph::lemma_reaches_edge(sys.deps, d, j);
        graph::lemma_reaches_ordered(sys.deps, sys.order, r, q);
        lemma_behind_at(sys, i, r);
        assert(sys.stage_inv(d));
        assert(sys.stages[d].wf());
    }
}

/// The producer's gate is behind every stage.
pub proof fn lemma_gate_behind(sys: System, i: int)
    requires
        sys.inv(),
        0 <= i < sys.stages.len(),
    ensures
        sys.producer.cached_gate <= sys.cursors[i],
{
    let leaf = graph::lemma_leaf_below(sys.deps, sys.order, i);
    assert(sys.leaves.contains(leaf));
    let k = choose|k: int| 0 <= k < sys.leaves.len() && sys.leaves[k] == leaf;
    assert(sys.producer.cached_gate <= sys.cursors[sys.leaves[k]]);
    if leaf != i {
        lemma_behind(sys, i, leaf);
        assert(sys.stage_inv(leaf));
        assert(sys.stages[leaf].wf());
    }
}

/// A gate that was seen open is behind every gating cursor.
proof fn lemma_seen_least(observed: Seq<int>, actual: Seq<int>)
    requires
        seen(observed, actual),
    ensures
        forall|k: int|
            0 <= k < actual.len() ==> sequence::least(observed) <= #[trigger] actual[k],
{
    sequence::lemma_least(observed);
    assert forall|k: int| 0 <= k < actual.len() implies sequence::least(observed)
        <= #[trigger] actual[k] by {
        assert(sequence::least(observed) <= observed[k]);
    }
}

/// Every step keeps the invariant.
pub proof fn law_steps_keep_the_invariant(sys: System, event: Event)
    requires
        sys.inv(),
        sys.enabled(event),
    ensures
        sys.next(event).inv(),
{
    let post = sys.next(event);
    match event {
        Event::Begin { alerted } => {
            assert forall|i: int| 0 <= i < post.stages.len() implies post.stage_inv(i) by {
                assert(sys.stage_inv(i));
            }
        },
        Event::CheckGate { observed } => {
            lemma_seen_least(observed, sys.gates());
            sequence::lemma_least(observed);
            if observed.contains(sequence::least(observed)) {
                let k = choose|k: int|
                    0 <= k < observed.len() && observed[k] == sequence::least(observed);
                assert(sequence::INITIAL <= observed[k]);
            }
            assert forall|k: int| 0 <= k < post.leaves.len() implies post.producer.cached_gate
                <= post.cursors[#[trigger] post.leaves[k]] by {
                assert(sequence::least(observed) <= sys.gates()[k]);
            }
            assert forall|i: int| 0 <= i < post.stages.len() implies post.stage_inv(i) by {
                assert(sys.stage_inv(i));
            }
        },
        Event::Stall { alerted } => {
            assert forall|i: int| 0 <= i < post.stages.len() implies post.stage_inv(i) by {
                assert(sys.stage_inv(i));
            }
        },
        Event::Abandon => {
            assert forall|i: int| 0 <= i < post.stages.len() implies post.stage_inv(i) by {
                assert(sys.stage_inv(i));
            }
        },
        Event::Commit => {
            assert forall|i: int| 0 <= i < post.stages.len() implies post.stage_inv(i) by {
                assert(sys.stage_inv(i));
                lemma_gate_behind(sys, i);
            }
        },
        Event::Start { stage } => {
            assert(sys.stage_inv(stage));
            lemma_stage_step(sys, post, stage);
        },
        Event::Poll { stage, alerted, observed } => {
            assert(sys.stage_inv(stage));
            lemma_seen_least(observed, sys.upstream(stage));
            sequence::lemma_least(observed);
            if sys.deps[stage].len() == 0 {
                assert(sys.upstream(stage)[0] == sys.published);
                assert(sequence::least(observed) <= sys.published);
            } else {
                let d = sys.deps[stage][0];
                assert(sys.upstream(stage)[0] == sys.cursors[d]);
                assert(sys.stage_inv(d));
                assert(sys.stages[d].wf());
                assert(sequence::least(observed) <= sys.published);
            }
            assert forall|k: int| 0 <= k < sys.deps[stage].len() implies sequence::least(observed)
                <= sys.cursors[#[trigger] sys.deps[stage][k]] by {
                assert(sys.upstream(stage)[k] == sys.cursors[sys.deps[stage][k]]);
            }
            lemma_stage_step(sys, post, stage);
        },
        Event::Advance { stage, alerted } => {
            assert(sys.stage_inv(stage));
            lemma_stage_step(sys, post, stage);
        },
    }
}

/// A step of stage `m` that moves its cursor forward, and not beyond what it may read,
/// keeps the invariant.
proof fn lemma_stage_step(sys: System, post: System, m: int)
    requires
        sys.inv(),
        0 <= m < sys.stages.len(),
        post.deps == sys.deps,
        post.order == sys.order,
        post.leaves == sys.leaves,
        post.producer == sys.producer,
        post.published == sys.published,
        post.stages.len() == sys.stages.len(),
        post.cursors.len() == sys.cursors.len(),
        forall|i: int|
            #![trigger post.stages[i]]
            0 <= i < sys.stages.len() && i != m ==> post.stages[i] == sys.stages[i],
        forall|i: int|
            #![trigger post.cursors[i]]
            0 <= i < sys.stages.len() && i != m ==> post.cursors[i] == sys.cursors[i],
        post.stages[m].wf(),
        post.cursors[m] == post.stages[m].next - 1,
        post.cursors[m] >= sys.cursors[m],
        reserved(post.stages[m]) <= sys.published,
        forall|k: int|
            0 <= k < sys.deps[m].len() ==> reserved(post.stages[m])
                <= sys.cursors[#[trigger] sys.deps[m][k]],
    ensures
        post.inv(),
{
    assert forall|i: int| 0 <= i < post.cursors.len() implies #[trigger] post.cursors[i]
        >= sys.cursors[i] by {}
    assert forall|i: int| 0 <= i < post.stages.len() implies post.stage_inv(i) by {
        assert(sys.stage_inv(i));
        assert(sys.stages[i].wf());
        assert forall|k: int| 0 <= k < post.deps[i].len() implies reserved(post.stages[i])
            <= post.cursors[#[trigger] post.deps[i][k]] by {
            assert(reserved(post.stages[i]) <= sys.cursors[sys.deps[i][k]]);
        }
    }
    assert forall|k: int| 0 <= k < post.leaves.len() implies post.producer.cached_gate
        <= post.cursors[#[trigger] post.leaves[k]] by {
        assert(sys.producer.cached_gate <= sys.cursors[sys.leaves[k]]);
        assert(sys.leaves.contains(sys.leaves[k]));
    }
}

/// Whatever steps are taken, and whatever out-of-date cursors they look at, the
/// invariant holds all along.
pub proof fn law_invariant_holds_along_runs(
    states: Seq<System>,
    events: Seq<Event>,
    capacity: int,
    max_batch_size: int,
)
    requires
        is_run(states, events),
        states[0].is_initial(capacity, max_batch_size),
    ensures
        forall|t: int| 0 <= t < states.len() ==> (#[trigger] states[t]).inv(),
{
    lemma_initial(states[0], capacity, max_batch_size);
    assert forall|t: int| 0 <= t < states.len() implies (#[trigger] states[t]).inv() by {
        lemma_invariant_at(states, events, t);
    }
}

proof fn lemma_invariant_at(states: Seq<System>, events: Seq<Event>, t: int)
    requires
        is_run(states, events),
        states[0].inv(),
        0 <= t < states.len(),
    ensures
        states[t].inv(),
    decreases t,
{
    if t > 0 {
        lemma_invariant_at(states, events, t - 1);
        assert(states[t - 1].enabled(events[t - 1]));
        law_steps_keep_the_invariant(states[t - 1], events[t - 1]);
        assert(states[t - 1 + 1] == states[t - 1].next(events[t - 1]));
    }
}

/// Sequences that lie less than a round apart occupy different slots.
pub proof fn lemma_slots_differ(a: int, b: int, capacity: int)
    requires
        0 < a - b < capacity,
    ensures
        a % capacity != b % capacity,
{
    if a % capacity == b % capacity {
        vstd::arithmetic::div_mod::lemma_fundamental_div_mod(a, capacity);
        vstd::arithmetic::div_mod::lemma_fundamental_div_mod(b, capacity);
        let d = a / capacity - b / capacity;
        assert(a - b == capacity * d) by (nonlinear_arith)
            requires
                a == capacity * (a / capacity) + a % capacity,
                b == capacity * (b / capacity) + b % capacity,
                a % capacity == b % capacity,
                d == a / capacity - b / capacity,
        ;
        assert(d <= 0 || d >= 1);
        assert(false) by (nonlinear_arith)
            requires
                0 < capacity * d < capacity,
        ;
    }
}

/// While the producer writes an event, no stage works on an event in the same slot.
pub proof fn law_producer_is_alone_in_its_slot(sys: System, i: int)
    requires
        sys.inv(),
        0 <= i < sys.stages.len(),
        sys.producer.holds() is Some,
        sys.stages[i].holds() is Some,
    ensures
        sys.producer.holds()->0 % sys.capacity() != sys.stages[i].holds()->0 % sys.capacity(),
{
    assert(sys.stage_inv(i));
    assert(sys.stages[i].wf());
    lemma_gate_behind(sys, i);
    lemma_slots_differ(sys.producer.holds()->0, sys.stages[i].holds()->0, sys.capacity());
}

/// Two stages of which one is an ancestor of the other never work on events in the same
/// slot at the same time. A stage that is ordered against every other stage is therefore
/// alone in its slot, and may change the event in place.
pub proof fn law_ordered_stages_exclude_each_other(sys: System, i: int, j: int)
    requires
        sys.inv(),
        0 <= i < sys.stages.len(),
        0 <= j < sys.stages.len(),
        i != j,
        graph::comparable(sys.deps, i, j),
        sys.stages[i].holds() is Some,
        sys.stages[j].holds() is Some,
    ensures
        sys.stages[i].holds()->0 % sys.capacity() != sys.stages[j].holds()->0 % sys.capacity(),
{
    if graph::reaches(sys.deps, i, j) {
        lemma_ancestor_excludes(sys, i, j);
    } else {
        lemma_ancestor_excludes(sys, j, i);
    }
}

proof fn lemma_ancestor_excludes(sys: System, i: int, j: int)
    requires
        sys.inv(),
        0 <= i < sys.stages.len(),
        0 <= j < sys.stages.len(),
        graph::reaches(sys.deps, i, j),
        sys.stages[i].holds() is Some,
        sys.stages[j].holds() is Some,
    ensures
        sys.stages[i].holds()->0 % sys.capacity() != sys.stages[j].holds()->0 % sys.capacity(),
{
    assert(sys.stage_inv(i));
    assert(sys.stages[i].wf());
    assert(sys.stage_inv(j));
    assert(sys.stages[j].wf());
    lemma_behind(sys, i, j);
    lemma_slots_differ(sys.stages[i].holds()->0, sys.stages[j].holds()->0, sys.capacity());
}

/// What a stage works on has been published, and has been consumed by every ancestor of
/// the stage.
pub proof fn law_no_stage_overtakes_its_ancestors(sys: System, i: int, j: int)
    requires
        sys.inv(),
        0 <= j < sys.stages.len(),
        sys.stages[j].holds() is Some,
        graph::reaches(sys.deps, i, j),
    ensures
        sys.stages[j].holds()->0 <= sys.cursors[i],
        sys.stages[j].holds()->0 <= sys.published,
{
    assert(sys.stage_inv(j));
    assert(sys.stages[j].wf());
    lemma_behind(sys, i, j);
}

/// No stage works on an event that has not been published.
pub proof fn law_only_published_events_are_read(sys: System, i: int)
    requires
        sys.inv(),
        0 <= i < sys.stages.len(),
        sys.stages[i].holds() is Some,
    ensures
        0 <= sys.stages[i].holds()->0 <= sys.published,
{
    assert(sys.stage_inv(i));
    assert(sys.stages[i].wf());
}

/// The producer is never more than one round ahead of any stage, so no event is
/// overwritten before every stage has consumed it.
pub proof fn law_nothing_is_overwritten_unread(sys: System, i: int)
    requires
        sys.inv(),
        0 <= i < sys.stages.len(),
    ensures
        sys.published - sys.cursors[i] <= sys.capacity(),
        sys.producer.holds() is Some ==> sys.producer.holds()->0 - sys.capacity()
            <= sys.cursors[i],
{
    assert(sys.stage_inv(i));
    assert(sys.stages[i].wf());
    lemma_gate_behind(sys, i);
}

/// A batch holds at least one event and at most the configured number, and never more
/// than the ring has slots.
pub proof fn law_batches_are_bounded(sys: System, event: Event)
    requires
        sys.inv(),
        sys.enabled(event),
        event is Poll,
        sys.next(event).stages[event->Poll_stage].phase is Delivering,
    ensures
        ({
            let state = sys.next(event).stages[event->Poll_stage];
            let size = state.phase->batch_end - state.next + 1;
            1 <= size <= state.max_batch_size && size <= sys.capacity()
        }),
{
    let i = event->Poll_stage;
    law_steps_keep_the_invariant(sys, event);
    let post = sys.next(event);
    assert(post.stage_inv(i));
    assert(post.stages[i].wf());
    assert(sys.stages[i].phase is Waiting);
}

/// Cursors only rise.
pub proof fn law_cursors_only_rise(sys: System, event: Event, i: int)
    requires
        sys.inv(),
        sys.enabled(event),
        0 <= i < sys.stages.len(),
    ensures
        sys.cursors[i] <= sys.next(event).cursors[i],
        sys.published <= sys.next(event).published,
{
    assert(sys.stage_inv(i));
    assert(sys.stages[i].wf());
}

/// The sequences handed to stage `i` by the first `t` steps of a run.
pub open spec fn handed(states: Seq<System>, events: Seq<Event>, i: int, t: int) -> Seq<int>
    decreases t,
{
    if t <= 0 {
        Seq::empty()
    } else {
        let before = handed(states, events, i, t - 1);
        match events[t - 1] {
            Event::Advance { stage, alerted } => if stage == i {
                match states[t - 1].stages[i].delivery(alerted) {
                    Delivery::Event { sequence, end_of_batch } => before.push(sequence as int),
                    _ => before,
                }
            } else {
                before
            },
            _ => before,
        }
    }
}

/// In every run each stage is handed the events 0, 1, 2 and so on, each one once and
/// in this order.
#[verifier::rlimit(40)]
pub proof fn law_events_are_delivered_in_order(
    states: Seq<System>,
    events: Seq<Event>,
    capacity: int,
    max_batch_size: int,
    i: int,
    t: int,
)
    requires
        is_run(states, events),
        states[0].is_initial(capacity, max_batch_size),
        0 <= i < states[0].stages.len(),
        0 <= t < states.len(),
    ensures
        handed(states, events, i, t) == Seq::new(
            (states[t].stages[i].delivered() + 1) as nat,
            |k: int| k,
        ),
        states[t].stages.len() == states[0].stages.len(),
    decreases t,
{
    if t == 0 {
        assert(handed(states, events, i, 0) =~= Seq::new(
            (states[0].stages[i].delivered() + 1) as nat,
            |k: int| k,
        ));
    } else {
        law_events_are_delivered_in_order(states, events, capacity, max_batch_size, i, t - 1);
        law_invariant_holds_along_runs(states, events, capacity, max_batch_size);
        let pre = states[t - 1];
        assert(pre.inv());
        assert(pre.stage_inv(i));
        assert(pre.stages[i].wf());
        assert(pre.enabled(events[t - 1]));
        assert(states[t - 1 + 1] == pre.next(events[t - 1]));
        assert(handed(states, events, i, t) =~= Seq::new(
            (states[t].stages[i].delivered() + 1) as nat,
            |k: int| k,
        ));
    }
}

/// Stage `i` has something to do: it has not entered its loop, it is within a batch, or
/// its next event is available.
pub open spec fn can_move(sys: System, i: int) -> bool {
    match sys.stages[i].phase {
        StagePhase::Starting => true,
        StagePhase::Waiting { attempt } => sequence::least(sys.upstream(i)) >= sys.stages[i].next,
        StagePhase::Delivering { seq, batch_end } => true,
        StagePhase::Stopped => false,
    }
}

/// Where no stage can move and none has stopped, every stage has consumed all that was
/// published.
pub proof fn law_stages_rest_only_when_caught_up(sys: System, i: int)
    requires
        sys.inv(),
        forall|j: int|
            0 <= j < sys.stages.len() ==> !#[trigger] can_move(sys, j)
                && !(sys.stages[j].phase is Stopped),
        0 <= i < sys.stages.len(),
    ensures
        sys.cursors[i] == sys.published,
{
    let p = graph::lemma_position(sys.deps, sys.order, i);
    lemma_caught_up_at(sys, p);
}

proof fn lemma_caught_up_at(sys: System, p: int)
    requires
        sys.inv(),
        forall|j: int|
            0 <= j < sys.stages.len() ==> !#[trigger] can_move(sys, j)
                && !(sys.stages[j].phase is Stopped),
        0 <= p < sys.order.len(),
    ensures
        sys.cursors[sys.order[p]] == sys.published,
    decreases p,
{
    let i = sys.order[p];
    assert(sys.stage_inv(i));
    assert(sys.stages[i].wf());
    assert(!can_move(sys, i));
    let up = sys.upstream(i);
    sequence::lemma_least(up);
    assert forall|k: int| 0 <= k < up.len() implies #[trigger] up[k] == sys.published by {
        if sys.deps[i].len() > 0 {
            let d = sys.deps[i][k];
            assert(graph::stands_before(sys.order, sys.deps[sys.order[p]][k], p));
            let q = choose|q: int| 0 <= q < p && #[trigger] sys.order[q] == d;
            lemma_caught_up_at(sys, q);
            assert(up[k] == sys.cursors[d]);
        }
    }
    if up.contains(sequence::least(up)) {
        let k = choose|k: int| 0 <= k < up.len() && up[k] == sequence::least(up);
        assert(up[k] == sys.published);
    }
}

/// A producer that waits for room does not wait for ever: as long as the gating cursors
/// keep it back, some stage that has not stopped can move, or a stage has stopped.
pub proof fn law_a_full_ring_is_drained(sys: System)
    requires
        sys.inv(),
        sys.stages.len() > 0,
        sequence::least(sys.gates()) < sys.producer.wrap_point(),
    ensures
        exists|i: int|
            0 <= i < sys.stages.len() && (#[trigger] can_move(sys, i)
                || sys.stages[i].phase is Stopped),
{
    if forall|j: int|
        0 <= j < sys.stages.len() ==> !#[trigger] can_move(sys, j)
            && !(sys.stages[j].phase is Stopped) {
        let gates = sys.gates();
        sequence::lemma_least(gates);
        let k = choose|k: int| 0 <= k < gates.len() && gates[k] == sequence::least(gates);
        assert(sys.leaves.contains(sys.leaves[k]));
        law_stages_rest_only_when_caught_up(sys, sys.leaves[k]);
    }
}

/// Once the alert is seen, nothing more is published.
pub proof fn law_alerted_producer_publishes_nothing(sys: System)
    requires
        sys.enabled(Event::Begin { alerted: true }),
    ensures
        sys.next(Event::Begin { alerted: true }) == sys,
        sys.producer.begin(true) is Shutdown,
{
    assert(sys.producer.begun(true) == sys.producer);
}

/// A stage waits for the cursor of every stage that it depends on, or for the producer's
/// where it depends on none; the producer waits for the cursor of every leaf.
pub proof fn law_nobody_is_left_out_of_a_wait(sys: System, i: int)
    requires
        0 <= i < sys.deps.len(),
    ensures
        sys.deps[i].len() == 0 ==> sys.upstream(i).len() == 1 && sys.upstream(i)[0]
            == sys.published,
        sys.deps[i].len() > 0 ==> sys.upstream(i).len() == sys.deps[i].len() && forall|k: int|
            0 <= k < sys.deps[i].len() ==> #[trigger] sys.upstream(i)[k]
                == sys.cursors[sys.deps[i][k]],
        sys.gates().len() == sys.leaves.len(),
        forall|k: int|
            0 <= k < sys.leaves.len() ==> #[trigger] sys.gates()[k]
                == sys.cursors[sys.leaves[k]],
{
}

/// Cursors are seen all of them, and none further than it stands.
pub proof fn law_nobody_sees_ahead(observed: Seq<int>, actual: Seq<int>)
    ensures
        seen(observed, actual) <==> observed.len() == actual.len() && forall|k: int|
            #![trigger observed[k]]
            0 <= k < observed.len() ==> -1 <= observed[k] <= actual[k],
{
}

/// A waiting stage can move exactly if every cursor that it waits for has reached its next
/// event.
pub proof fn law_stages_move_when_all_is_there(sys: System, i: int)
    requires
        sys.inv(),
        0 <= i < sys.stages.len(),
        sys.stages[i].phase is Waiting,
    ensures
        can_move(sys, i) <==> {
            &&& sys.deps[i].len() == 0 ==> sys.published >= sys.stages[i].next
            &&& forall|k: int|
                0 <= k < sys.deps[i].len() ==> sys.cursors[#[trigger] sys.deps[i][k]]
                    >= sys.stages[i].next
        },
{
    let up = sys.upstream(i);
    sequence::lemma_least(up);
    assert(sys.stage_inv(i));
    assert(sys.stages[i].wf());
    if can_move(sys, i) {
        assert(up[0] >= sys.stages[i].next);
        assert forall|k: int| 0 <= k < sys.deps[i].len() implies sys.cursors[
            #[trigger] sys.deps[i][k]] >= sys.stages[i].next by {
            assert(up[k] == sys.cursors[sys.deps[i][k]]);
        }
    } else {
        let k = choose|k: int| 0 <= k < up.len() && up[k] == sequence::least(up);
        assert(up[k] < sys.stages[i].next);
        if sys.deps[i].len() > 0 {
            assert(up[k] == sys.cursors[sys.deps[i][k]]);
        }
    }
}

/// A step of the producer leaves the stages and their cursors alone, and moves its own
/// cursor only to the event that it publishes.
pub proof fn law_producers_move_only_their_cursor(sys: System, event: Event)
    requires
        event is Begin || event is CheckGate || event is Stall || event is Abandon
            || event is Commit,
    ensures
        sys.next(event).stages == sys.stages,
        sys.next(event).cursors == sys.cursors,
        sys.next(event).deps == sys.deps,
        sys.next(event).order == sys.order,
        sys.next(event).leaves == sys.leaves,
        !(event is Commit) ==> sys.next(event).published == sys.published,
        event is Commit ==> sys.next(event).published == sys.producer.next_seq,
        event is Commit ==> sys.next(event).producer.next_seq == sys.producer.next_seq + 1,
{
}

/// A step of a stage leaves the producer and the other stages alone. Its cursor moves only
/// from the end of one batch to the end of the next, or, if the alert stops it within a
/// batch, to the last event that it was handed.
pub proof fn law_stages_move_only_their_cursor(sys: System, event: Event, i: int)
    requires
        sys.inv(),
        sys.enabled(event),
        0 <= i < sys.stages.len(),
        event == (Event::Start { stage: i }) || (event is Poll && event->Poll_stage == i) || (
        event is Advance && event->Advance_stage == i),
    ensures
        sys.next(event).producer == sys.producer,
        sys.next(event).published == sys.published,
        sys.next(event).deps == sys.deps,
        forall|j: int|
            0 <= j < sys.stages.len() && j != i ==> #[trigger] sys.next(event).stages[j]
                == sys.stages[j],
        forall|j: int|
            0 <= j < sys.cursors.len() && j != i ==> #[trigger] sys.next(event).cursors[j]
                == sys.cursors[j],
        !(event is Advance) ==> sys.next(event).cursors[i] == sys.cursors[i],
        event matches Event::Advance { stage, alerted } ==> {
            let seq = sys.stages[i].phase->seq;
            let batch_end = sys.stages[i].phase->batch_end;
            &&& seq > batch_end ==> sys.next(event).cursors[i] == batch_end
            &&& seq <= batch_end && alerted ==> sys.next(event).cursors[i] == seq - 1
            &&& seq <= batch_end && !alerted ==> sys.next(event).cursors[i] == sys.cursors[i]
        },
{
    assert(sys.stage_inv(i));
    assert(sys.stages[i].wf());
}

} // verus!
