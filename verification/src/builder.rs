//! Registering consumers and checking the graph that they form.

use crate::consumer::Consumer;
use crate::consumer::MutConsumer;
use crate::consumer::Stage;
use crate::disruptor::Disruptor;
use crate::error::BuildError;
use crate::graph;
use crate::graph::Graph;
use crate::processor::StagePhase;
use crate::ring;
use crate::state;
use crate::state::DisruptorState;
use crate::state::Move;
use crate::text;
use crate::topology;
use crate::topology::NodeText;
use crate::topology::TopologyNode;
use crate::wait::WaitStrategy;
use vstd::arithmetic::power2;
use vstd::prelude::*;
use vstd::string::*;

verus! {

/// A registered consumer: its name, the names that it depends on, and whether it changes
/// events.
#[verifier::ext_equal]
pub struct Node {
    pub name: Seq<char>,
    pub deps: Seq<Seq<char>>,
    pub is_mut: bool,
}

/// What has been asked of a builder.
#[verifier::ext_equal]
pub struct Description {
    pub capacity: Option<usize>,
    pub max_batch_size: Option<usize>,
    pub nodes: Seq<Node>,
}

/// A name that the operating system does not take for a thread.
pub open spec fn has_nul(name: Seq<char>) -> bool {
    name.contains('\0')
}

/// The name of node `i` stands at an earlier node too.
pub open spec fn is_repeated(nodes: Seq<Node>, i: int) -> bool {
    exists|j: int| 0 <= j < i && #[trigger] nodes[j].name == nodes[i].name
}

/// Node `i` is the first whose name cannot be used.
pub open spec fn is_first_bad_name(nodes: Seq<Node>, i: int) -> bool {
    &&& 0 <= i < nodes.len()
    &&& has_nul(nodes[i].name) || is_repeated(nodes, i)
    &&& forall|j: int|
        #![trigger nodes[j]]
        0 <= j < i ==> !has_nul(nodes[j].name) && !is_repeated(nodes, j)
}

/// Every name can be used.
pub open spec fn names_are_good(nodes: Seq<Node>) -> bool {
    forall|j: int|
        #![trigger nodes[j]]
        0 <= j < nodes.len() ==> !has_nul(nodes[j].name) && !is_repeated(nodes, j)
}

/// A node has this name.
pub open spec fn is_known(nodes: Seq<Node>, name: Seq<char>) -> bool {
    exists|j: int| 0 <= j < nodes.len() && #[trigger] nodes[j].name == name
}

/// The dependency at position `k` of node `i` is the first that no node has for a name.
pub open spec fn is_first_unknown(nodes: Seq<Node>, i: int, k: int) -> bool {
    &&& 0 <= i < nodes.len()
    &&& 0 <= k < nodes[i].deps.len()
    &&& !is_known(nodes, nodes[i].deps[k])
    &&& forall|a: int, b: int|
        #![trigger nodes[a].deps[b]]
        0 <= a <= i && 0 <= b < nodes[a].deps.len() && (a < i || b < k) ==> is_known(
            nodes,
            nodes[a].deps[b],
        )
}

/// Every dependency is the name of a node.
pub open spec fn deps_are_known(nodes: Seq<Node>) -> bool {
    forall|a: int, b: int|
        #![trigger nodes[a].deps[b]]
        0 <= a < nodes.len() && 0 <= b < nodes[a].deps.len() ==> is_known(nodes, nodes[a].deps[b])
}

/// The number of the node with this name.
pub open spec fn number_of(nodes: Seq<Node>, name: Seq<char>) -> int {
    choose|j: int| 0 <= j < nodes.len() && #[trigger] nodes[j].name == name
}

/// The dependencies of each node, by number.
pub open spec fn graph_of(nodes: Seq<Node>) -> Seq<Seq<int>> {
    Seq::new(
        nodes.len(),
        |i: int|
            Seq::new(nodes[i].deps.len(), |k: int| number_of(nodes, nodes[i].deps[k])),
    )
}

/// Node `i` is ordered against every node.
pub open spec fn is_ordered(nodes: Seq<Node>, i: int) -> bool {
    forall|j: int| 0 <= j < nodes.len() ==> #[trigger] graph::comparable(graph_of(nodes), i, j)
}

/// Every node that changes events is ordered against every node.
pub open spec fn mutation_is_exclusive(nodes: Seq<Node>) -> bool {
    forall|i: int|
        0 <= i < nodes.len() && nodes[i].is_mut ==> #[trigger] is_ordered(nodes, i)
}

/// Node `i` is the first that changes events without being ordered against every node,
/// and node `j` the first that it is not ordered against.
pub open spec fn is_first_concurrent(nodes: Seq<Node>, i: int, j: int) -> bool {
    &&& 0 <= i < nodes.len()
    &&& nodes[i].is_mut
    &&& graph::is_first_unordered(graph_of(nodes), i, j)
    &&& forall|m: int| 0 <= m < i && nodes[m].is_mut ==> #[trigger] is_ordered(nodes, m)
}

impl Description {
    pub open spec fn empty() -> Description {
        Description { capacity: None, max_batch_size: None, nodes: Seq::empty() }
    }

    /// The description with one more consumer.
    pub open spec fn with(self, name: Seq<char>, deps: Seq<Seq<char>>, is_mut: bool) -> Description {
        Description { nodes: self.nodes.push(Node { name, deps, is_mut }), ..self }
    }

    /// The ring can have the number of slots that was asked for.
    pub open spec fn capacity_is_valid(self) -> bool {
        self.capacity is Some && ring::valid_capacity(self.capacity->0 as int)
    }

    /// There is a ring of a valid size, batches are not empty, and there are consumers.
    pub open spec fn sizes_are_valid(self) -> bool {
        self.capacity_is_valid() && self.max_batch_size != Some(0usize) && self.nodes.len() > 0
    }

    /// A disruptor can be built.
    pub open spec fn is_buildable(self) -> bool {
        &&& self.sizes_are_valid()
        &&& names_are_good(self.nodes)
        &&& deps_are_known(self.nodes)
        &&& graph::acyclic(graph_of(self.nodes))
        &&& mutation_is_exclusive(self.nodes)
    }

    /// The description is refused with this error. The checks are made in this order,
    /// and the first one that fails decides.
    pub open spec fn is_refused_with(self, error: BuildError) -> bool {
        let nodes = self.nodes;
        match error {
            BuildError::MissingCapacity => self.capacity is None,
            BuildError::InvalidCapacity { capacity } => self.capacity == Some(capacity)
                && !ring::valid_capacity(capacity as int),
            BuildError::InvalidMaxBatchSize => self.capacity_is_valid() && self.max_batch_size
                == Some(0usize),
            BuildError::EmptyDag => self.capacity_is_valid() && self.max_batch_size != Some(0usize)
                && nodes.len() == 0,
            BuildError::InvalidConsumerName { consumer } => self.sizes_are_valid() && exists|i: int|
                #[trigger] is_first_bad_name(nodes, i) && has_nul(nodes[i].name) && consumer@
                    == nodes[i].name,
            BuildError::DuplicateName(name) => self.sizes_are_valid() && exists|i: int| #[trigger]
                is_first_bad_name(nodes, i) && !has_nul(nodes[i].name) && name@ == nodes[i].name,
            BuildError::UnknownDependency { consumer, dep } => self.sizes_are_valid()
                && names_are_good(nodes) && exists|i: int, k: int| #[trigger]
                is_first_unknown(nodes, i, k) && consumer@ == nodes[i].name && dep@
                    == nodes[i].deps[k],
            BuildError::Cycle => self.sizes_are_valid() && names_are_good(nodes) && deps_are_known(
                nodes,
            ) && !graph::acyclic(graph_of(nodes)),
            BuildError::ConcurrentMutConsumer { consumer, concurrent } => self.sizes_are_valid()
                && names_are_good(nodes) && deps_are_known(nodes) && graph::acyclic(graph_of(nodes))
                && exists|i: int, j: int| #[trigger]
                is_first_concurrent(nodes, i, j) && consumer@ == nodes[i].name && concurrent@
                    == nodes[j].name,
            BuildError::SpawnFailed { consumer, kind } => false,
        }
    }

    /// The most events that are delivered in one batch: the configured number, and never
    /// more than the ring holds.
    pub open spec fn batch_limit(self) -> int {
        match self.max_batch_size {
            Some(n) => if n < self.capacity->0 {
                n as int
            } else {
                self.capacity->0 as int
            },
            None => self.capacity->0 as int,
        }
    }
}

/// A description is not both buildable and refused.
pub proof fn law_refused_is_not_buildable(d: Description, error: BuildError)
    requires
        d.is_refused_with(error),
    ensures
        !d.is_buildable(),
{
    let nodes = d.nodes;
    match error {
        BuildError::InvalidConsumerName { consumer } => {
            let i = choose|i: int| #[trigger] is_first_bad_name(nodes, i) && has_nul(nodes[i].name);
            assert(is_first_bad_name(nodes, i));
        },
        BuildError::DuplicateName(name) => {
            let i = choose|i: int| #[trigger] is_first_bad_name(nodes, i) && !has_nul(nodes[i].name);
            assert(is_first_bad_name(nodes, i));
        },
        BuildError::UnknownDependency { consumer, dep } => {
            let (i, k) = choose|i: int, k: int| #[trigger] is_first_unknown(nodes, i, k);
            assert(!is_known(nodes, nodes[i].deps[k]));
        },
        BuildError::ConcurrentMutConsumer { consumer, concurrent } => {
            let (i, j) = choose|i: int, j: int| #[trigger] is_first_concurrent(nodes, i, j);
            assert(!graph::comparable(graph_of(nodes), i, j));
            assert(!is_ordered(nodes, i));
        },
        _ => {},
    }
}

/// The first node with a bad name is one node.
proof fn lemma_first_bad_name(nodes: Seq<Node>, i: int, j: int)
    requires
        is_first_bad_name(nodes, i),
        is_first_bad_name(nodes, j),
    ensures
        i == j,
{
    if i < j {
        assert(!has_nul(nodes[i].name));
    } else if j < i {
        assert(!has_nul(nodes[j].name));
    }
}

/// A description is refused with one error only.
pub proof fn law_refusals_are_unique(d: Description, a: BuildError, b: BuildError)
    requires
        d.is_refused_with(a),
        d.is_refused_with(b),
    ensures
        a.message() == b.message(),
{
    let nodes = d.nodes;
    law_refused_is_not_buildable(d, a);
    match a {
        BuildError::InvalidConsumerName { consumer } => {
            let i = choose|i: int| #[trigger]
                is_first_bad_name(nodes, i) && has_nul(nodes[i].name) && consumer@ == nodes[i].name;
            lemma_verdict_on_names(d, i, b);
        },
        BuildError::DuplicateName(name) => {
            let i = choose|i: int| #[trigger]
                is_first_bad_name(nodes, i) && !has_nul(nodes[i].name) && name@ == nodes[i].name;
            lemma_verdict_on_names(d, i, b);
        },
        BuildError::UnknownDependency { consumer, dep } => {
            let (i, k) = choose|i: int, k: int| #[trigger]
                is_first_unknown(nodes, i, k) && consumer@ == nodes[i].name && dep@
                    == nodes[i].deps[k];
            assert(!is_known(nodes, nodes[i].deps[k]));
            lemma_names_are_not_blamed(d, b);
            if let BuildError::UnknownDependency { consumer: c, dep: e } = b {
                let (j, m) = choose|j: int, m: int| #[trigger]
                    is_first_unknown(nodes, j, m) && c@ == nodes[j].name && e@ == nodes[j].deps[m];
                assert(!is_known(nodes, nodes[j].deps[m]));
                assert(i == j && k == m);
            }
        },
        BuildError::ConcurrentMutConsumer { consumer, concurrent } => {
            let (i, k) = choose|i: int, k: int| #[trigger]
                is_first_concurrent(nodes, i, k) && consumer@ == nodes[i].name && concurrent@
                    == nodes[k].name;
            lemma_names_are_not_blamed(d, b);
            if let BuildError::UnknownDependency { consumer: c, dep: e } = b {
                let (j, m) = choose|j: int, m: int| #[trigger] is_first_unknown(nodes, j, m);
                assert(!is_known(nodes, nodes[j].deps[m]));
            }
            if let BuildError::ConcurrentMutConsumer { consumer: c, concurrent: e } = b {
                let (j, m) = choose|j: int, m: int| #[trigger]
                    is_first_concurrent(nodes, j, m) && c@ == nodes[j].name && e@ == nodes[m].name;
                assert(!graph::comparable(graph_of(nodes), i, k));
                assert(!graph::comparable(graph_of(nodes), j, m));
                assert(!is_ordered(nodes, i));
                assert(!is_ordered(nodes, j));
                assert(i == j && k == m);
            }
        },
        BuildError::Cycle => {
            lemma_names_are_not_blamed(d, b);
            if let BuildError::UnknownDependency { consumer: c, dep: e } = b {
                let (j, m) = choose|j: int, m: int| #[trigger] is_first_unknown(nodes, j, m);
                assert(!is_known(nodes, nodes[j].deps[m]));
            }
        },
        _ => {},
    }
}

/// Where the names are good, the error does not blame one.
proof fn lemma_names_are_not_blamed(d: Description, error: BuildError)
    requires
        d.is_refused_with(error),
        names_are_good(d.nodes),
    ensures
        !(error is InvalidConsumerName),
        !(error is DuplicateName),
{
    let nodes = d.nodes;
    if error is InvalidConsumerName || error is DuplicateName {
        let i = choose|i: int| #[trigger] is_first_bad_name(nodes, i);
        assert(nodes[i] == nodes[i]);
        assert(!has_nul(nodes[i].name) && !is_repeated(nodes, i));
    }
}

/// Where node `i` is the first with a bad name, the error blames it.
proof fn lemma_verdict_on_names(d: Description, i: int, error: BuildError)
    requires
        d.sizes_are_valid(),
        is_first_bad_name(d.nodes, i),
        d.is_refused_with(error),
    ensures
        match error {
            BuildError::InvalidConsumerName { consumer } => has_nul(d.nodes[i].name) && consumer@
                == d.nodes[i].name,
            BuildError::DuplicateName(name) => !has_nul(d.nodes[i].name) && name@
                == d.nodes[i].name,
            _ => false,
        },
{
    let nodes = d.nodes;
    assert(!names_are_good(nodes)) by {
        assert(nodes[i] == nodes[i]);
    }
    match error {
        BuildError::InvalidConsumerName { consumer } => {
            let j = choose|j: int| #[trigger]
                is_first_bad_name(nodes, j) && has_nul(nodes[j].name) && consumer@ == nodes[j].name;
            lemma_first_bad_name(nodes, i, j);
        },
        BuildError::DuplicateName(name) => {
            let j = choose|j: int| #[trigger]
                is_first_bad_name(nodes, j) && !has_nul(nodes[j].name) && name@ == nodes[j].name;
            lemma_first_bad_name(nodes, i, j);
        },
        _ => {},
    }
}

/// A single consumer that only reads can be built where the ring can have its size and
/// the consumer its name.
pub proof fn law_single_consumer(d: Description)
    requires
        d.capacity is Some,
        d.max_batch_size is None,
        d.nodes.len() == 1,
        d.nodes[0].deps.len() == 0,
        !d.nodes[0].is_mut,
    ensures
        d.is_buildable() <==> d.capacity_is_valid() && !has_nul(d.nodes[0].name),
        forall|error: BuildError| #[trigger]
            d.is_refused_with(error) ==> match error {
                BuildError::InvalidCapacity { capacity } => d.capacity == Some(capacity)
                    && !d.capacity_is_valid(),
                BuildError::InvalidConsumerName { consumer } => d.capacity_is_valid() && has_nul(
                    d.nodes[0].name,
                ) && consumer@ == d.nodes[0].name,
                _ => false,
            },
{
    let nodes = d.nodes;
    let g = graph_of(nodes);
    assert(!is_repeated(nodes, 0));
    if !has_nul(nodes[0].name) {
        assert(names_are_good(nodes));
    }
    assert(deps_are_known(nodes));
    assert(graph::acyclic(g)) by {
        assert forall|i: int| !#[trigger] graph::reaches(g, i, i) by {
            if graph::reaches(g, i, i) {
                graph::lemma_reaches_in_range(g, i, i);
                let last = graph::lemma_reaches_last(g, i, i);
                assert(g[0].len() == 0);
            }
        }
    }
    if !d.capacity_is_valid() || has_nul(nodes[0].name) {
        assert(!names_are_good(nodes) || !d.capacity_is_valid()) by {
            assert(nodes[0] == nodes[0]);
        }
    }
    assert forall|error: BuildError| #[trigger] d.is_refused_with(error) implies match error {
        BuildError::InvalidCapacity { capacity } => d.capacity == Some(capacity)
            && !d.capacity_is_valid(),
        BuildError::InvalidConsumerName { consumer } => d.capacity_is_valid() && has_nul(
            d.nodes[0].name,
        ) && consumer@ == d.nodes[0].name,
        _ => false,
    } by {
        law_refused_is_not_buildable(d, error);
    }
}

/// Registering a consumer adds one node at the end, with the name, with all of the
/// dependencies and with the kind that were given, and changes nothing else.
pub proof fn law_registration_adds_one_node(
    d: Description,
    name: Seq<char>,
    deps: Seq<Seq<char>>,
    is_mut: bool,
)
    ensures
        d.with(name, deps, is_mut).nodes.len() == d.nodes.len() + 1,
        forall|i: int|
            0 <= i < d.nodes.len() ==> #[trigger] d.with(name, deps, is_mut).nodes[i] == d.nodes[i],
        d.with(name, deps, is_mut).nodes[d.nodes.len() as int].name == name,
        d.with(name, deps, is_mut).nodes[d.nodes.len() as int].deps == deps,
        d.with(name, deps, is_mut).nodes[d.nodes.len() as int].is_mut == is_mut,
        d.with(name, deps, is_mut).capacity == d.capacity,
        d.with(name, deps, is_mut).max_batch_size == d.max_batch_size,
{
}

/// A new builder has been asked for nothing.
pub proof fn law_nothing_is_asked_at_first()
    ensures
        Description::empty().capacity is None,
        Description::empty().max_batch_size is None,
        Description::empty().nodes.len() == 0,
{
}

/// All of the given names are kept, one for one.
pub proof fn law_names_are_kept(strs: Seq<&str>)
    ensures
        names(strs).len() == strs.len(),
        forall|k: int| 0 <= k < strs.len() ==> #[trigger] names(strs)[k] == strs[k]@,
{
}

/// Where no two nodes share a name, a node depends on another by number exactly if it lists
/// the name of the other, and its dependencies keep their order.
pub proof fn law_dependencies_are_found_by_name(nodes: Seq<Node>, i: int, j: int)
    requires
        forall|a: int, b: int|
            #![trigger nodes[a], nodes[b]]
            0 <= a < b < nodes.len() ==> nodes[a].name != nodes[b].name,
        forall|k: int|
            0 <= k < nodes[i].deps.len() ==> exists|m: int|
                0 <= m < nodes.len() && (#[trigger] nodes[m]).name == #[trigger] nodes[i].deps[k],
        0 <= i < nodes.len(),
        0 <= j < nodes.len(),
    ensures
        graph_of(nodes).len() == nodes.len(),
        graph_of(nodes)[i].len() == nodes[i].deps.len(),
        forall|k: int|
            0 <= k < nodes[i].deps.len() ==> 0 <= #[trigger] graph_of(nodes)[i][k] < nodes.len()
                && nodes[graph_of(nodes)[i][k]].name == nodes[i].deps[k],
        graph::depends_on(graph_of(nodes), i, j) <==> nodes[i].deps.contains(nodes[j].name),
{
    let g = graph_of(nodes);
    assert forall|k: int| 0 <= k < nodes[i].deps.len() implies 0 <= #[trigger] g[i][k]
        < nodes.len() && nodes[g[i][k]].name == nodes[i].deps[k] by {
        let m = choose|m: int|
            0 <= m < nodes.len() && (#[trigger] nodes[m]).name == nodes[i].deps[k];
        assert(nodes[m].name == nodes[i].deps[k]);
        assert(g[i][k] == number_of(nodes, nodes[i].deps[k]));
    }
    if graph::depends_on(g, i, j) {
        let k = choose|k: int| 0 <= k < g[i].len() && g[i][k] == j;
        assert(nodes[g[i][k]].name == nodes[i].deps[k]);
    }
    if nodes[i].deps.contains(nodes[j].name) {
        let k = choose|k: int| 0 <= k < nodes[i].deps.len() && nodes[i].deps[k] == nodes[j].name;
        assert(nodes[g[i][k]].name == nodes[j].name);
        assert(g[i][k] == j);
    }
}

/// A consumer that is registered after others depends on every one of them, however many
/// there are, and on no other.
pub proof fn law_a_consumer_depends_on_all_that_it_names(
    d: Description,
    name: Seq<char>,
    deps: Seq<Seq<char>>,
    is_mut: bool,
    j: int,
)
    requires
        d.with(name, deps, is_mut).is_buildable(),
        0 <= j < d.nodes.len(),
    ensures
        graph::depends_on(
            graph_of(d.with(name, deps, is_mut).nodes),
            d.nodes.len() as int,
            j,
        ) <==> exists|k: int| 0 <= k < deps.len() && #[trigger] deps[k] == d.nodes[j].name,
{
    let nodes = d.with(name, deps, is_mut).nodes;
    let i = d.nodes.len() as int;
    assert(nodes[i].deps == deps);
    assert(nodes[j] == d.nodes[j]);
    lemma_names_are_distinct(nodes);
    lemma_names_are_known(nodes, i);
    law_dependencies_are_found_by_name(nodes, i, j);
    if deps.contains(nodes[j].name) {
        let k = choose|k: int| 0 <= k < deps.len() && deps[k] == nodes[j].name;
        assert(deps[k] == d.nodes[j].name);
    }
}

proof fn lemma_names_are_distinct(nodes: Seq<Node>)
    requires
        names_are_good(nodes),
    ensures
        forall|a: int, b: int|
            #![trigger nodes[a], nodes[b]]
            0 <= a < b < nodes.len() ==> nodes[a].name != nodes[b].name,
{
    assert forall|a: int, b: int|
        #![trigger nodes[a], nodes[b]]
        0 <= a < b < nodes.len() implies nodes[a].name != nodes[b].name by {
        assert(!is_repeated(nodes, b));
        assert(nodes[a].name == nodes[a].name);
    }
}

proof fn lemma_names_are_known(nodes: Seq<Node>, i: int)
    requires
        deps_are_known(nodes),
        0 <= i < nodes.len(),
    ensures
        forall|k: int|
            0 <= k < nodes[i].deps.len() ==> exists|m: int|
                0 <= m < nodes.len() && (#[trigger] nodes[m]).name == #[trigger] nodes[i].deps[k],
{
    assert forall|k: int| 0 <= k < nodes[i].deps.len() implies exists|m: int|
        0 <= m < nodes.len() && (#[trigger] nodes[m]).name == #[trigger] nodes[i].deps[k] by {
        assert(is_known(nodes, nodes[i].deps[k]));
        let m = choose|m: int| 0 <= m < nodes.len() && #[trigger] nodes[m].name == nodes[i].deps[k];
        assert(nodes[m].name == nodes[i].deps[k]);
    }
}

/// The configured number of events is the limit of a batch, as far as the ring holds as
/// many; otherwise, and where none is configured, the size of the ring is.
pub proof fn law_the_configured_limit_counts(d: Description)
    requires
        d.capacity is Some,
    ensures
        d.max_batch_size matches Some(n) ==> d.batch_limit() <= n,
        d.max_batch_size matches Some(n) ==> n <= d.capacity->0 ==> d.batch_limit() == n,
        d.max_batch_size matches Some(n) ==> n >= d.capacity->0 ==> d.batch_limit()
            == d.capacity->0,
        d.max_batch_size is None ==> d.batch_limit() == d.capacity->0,
{
}

/// In a disruptor that was built with a limit for batches no stage ever gets further than
/// that in one move, however its course goes; and every stage has this very limit, if the
/// ring holds as many events.
pub proof fn law_no_batch_is_longer_than_configured<T>(
    d: Description,
    n: usize,
    states: Seq<DisruptorState<T>>,
    moves: Seq<Move<T>>,
    t: int,
    i: int,
)
    requires
        d.is_buildable(),
        d.max_batch_size == Some(n),
        state::is_course(states, moves),
        state::is_fresh(states[0], d.capacity->0 as int, d.batch_limit()),
        0 <= t < moves.len(),
        0 <= i < states[0].handed.len(),
    ensures
        states[t].system.stages[i].max_batch_size <= n,
        n <= d.capacity->0 ==> states[t].system.stages[i].max_batch_size == n,
        states[t].system.stages[i].phase matches StagePhase::Delivering { seq, batch_end }
            ==> batch_end - states[t].system.cursors[i] <= n,
        states[t + 1].system.cursors[i] - states[t].system.cursors[i] <= n,
{
    law_the_configured_limit_counts(d);
    state::law_batches_keep_to_the_limit(
        states,
        moves,
        d.capacity->0 as int,
        d.batch_limit(),
        t,
        i,
    );
}

/// `walk` leads from node to node, each of which lists the name of the one before it.
pub open spec fn is_chain(nodes: Seq<Node>, walk: Seq<int>) -> bool {
    &&& walk.len() >= 2
    &&& forall|k: int| 0 <= k < walk.len() ==> 0 <= #[trigger] walk[k] < nodes.len()
    &&& forall|k: int|
        #![trigger walk[k]]
        0 < k < walk.len() ==> nodes[walk[k]].deps.contains(nodes[walk[k - 1]].name)
}

/// A chain of names leads from node `a` to node `b`.
pub open spec fn is_upstream(nodes: Seq<Node>, a: int, b: int) -> bool {
    exists|walk: Seq<int>| #[trigger] is_chain(nodes, walk) && walk[0] == a && walk.last() == b
}

/// A node depends on the nodes whose names it lists.
proof fn lemma_listed_is_dependency(nodes: Seq<Node>, i: int, j: int)
    requires
        names_are_good(nodes),
        deps_are_known(nodes),
    ensures
        graph::depends_on(graph_of(nodes), i, j) <==> 0 <= i < nodes.len() && 0 <= j < nodes.len()
            && nodes[i].deps.contains(nodes[j].name),
{
    let g = graph_of(nodes);
    if 0 <= i < nodes.len() {
        lemma_names_are_distinct(nodes);
        lemma_names_are_known(nodes, i);
        law_dependencies_are_found_by_name(nodes, i, i);
        if graph::depends_on(g, i, j) {
            let k = choose|k: int| 0 <= k < g[i].len() && g[i][k] == j;
            assert(0 <= g[i][k] < nodes.len());
        }
        if 0 <= j < nodes.len() {
            law_dependencies_are_found_by_name(nodes, i, j);
        }
    }
}

/// Chains of names are paths of the graph.
proof fn lemma_chain_is_path(nodes: Seq<Node>, walk: Seq<int>)
    requires
        names_are_good(nodes),
        deps_are_known(nodes),
        is_chain(nodes, walk),
    ensures
        graph::is_path(graph_of(nodes), walk),
{
    let g = graph_of(nodes);
    assert forall|k: int| #![trigger walk[k]] 0 < k < walk.len() implies graph::depends_on(
        g,
        walk[k],
        walk[k - 1],
    ) by {
        let j = walk[k - 1];
        assert(0 <= j < nodes.len());
        lemma_listed_is_dependency(nodes, walk[k], j);
    }
}

/// Paths of the graph are chains of names.
proof fn lemma_path_is_chain(nodes: Seq<Node>, path: Seq<int>)
    requires
        names_are_good(nodes),
        deps_are_known(nodes),
        path.len() >= 2,
        graph::is_path(graph_of(nodes), path),
    ensures
        is_chain(nodes, path),
{
    let g = graph_of(nodes);
    assert forall|k: int| #![trigger path[k]] 0 < k < path.len() implies nodes[path[k]].deps.contains(
        nodes[path[k - 1]].name,
    ) by {
        let j = path[k - 1];
        assert(graph::depends_on(g, path[k], j));
        lemma_listed_is_dependency(nodes, path[k], j);
    }
    assert forall|k: int| 0 <= k < path.len() implies 0 <= #[trigger] path[k] < nodes.len() by {
        if k == 0 {
            assert(graph::depends_on(g, path[1], path[1 - 1]));
            lemma_listed_is_dependency(nodes, path[1], path[0]);
        } else {
            let j = path[k - 1];
            assert(graph::depends_on(g, path[k], j));
            lemma_listed_is_dependency(nodes, path[k], j);
        }
    }
}

/// A chain of names leads from one node to another exactly if the graph does.
proof fn lemma_upstream_reaches(nodes: Seq<Node>, a: int, b: int)
    requires
        names_are_good(nodes),
        deps_are_known(nodes),
    ensures
        is_upstream(nodes, a, b) <==> graph::reaches(graph_of(nodes), a, b),
{
    let g = graph_of(nodes);
    if is_upstream(nodes, a, b) {
        let walk = choose|walk: Seq<int>| #[trigger]
            is_chain(nodes, walk) && walk[0] == a && walk.last() == b;
        lemma_chain_is_path(nodes, walk);
        assert(graph::joins(g, walk, a, b));
    }
    if graph::reaches(g, a, b) {
        let path = choose|path: Seq<int>| graph::joins(g, path, a, b);
        lemma_path_is_chain(nodes, path);
        assert(is_chain(nodes, path) && path[0] == a && path.last() == b);
    }
}

/// What can be built: a ring of 2, 4, 8 and so on slots, batches that are not empty, at
/// least one consumer, names without NUL and all different, dependencies that exist, no
/// chain of dependencies that leads back to where it began, and a chain between every
/// consumer that changes events and each of the others. Whatever else the names, the
/// numbers and the graph are, a description of which this holds is buildable.
pub proof fn law_sound_descriptions_are_buildable(d: Description)
    requires
        d.capacity is Some,
        2 <= d.capacity->0 <= i64::MAX,
        exists|k: nat| d.capacity->0 == #[trigger] power2::pow2(k),
        d.max_batch_size != Some(0usize),
        d.nodes.len() > 0,
        forall|i: int| 0 <= i < d.nodes.len() ==> !(#[trigger] d.nodes[i]).name.contains('\0'),
        forall|a: int, b: int|
            #![trigger d.nodes[a], d.nodes[b]]
            0 <= a < b < d.nodes.len() ==> d.nodes[a].name != d.nodes[b].name,
        forall|i: int, k: int|
            0 <= i < d.nodes.len() && 0 <= k < d.nodes[i].deps.len() ==> exists|j: int|
                0 <= j < d.nodes.len() && (#[trigger] d.nodes[j]).name
                    == #[trigger] d.nodes[i].deps[k],
        forall|i: int| !#[trigger] is_upstream(d.nodes, i, i),
        forall|i: int, j: int|
            0 <= i < d.nodes.len() && 0 <= j < d.nodes.len() && i != j && d.nodes[i].is_mut
                && !#[trigger] is_upstream(d.nodes, i, j) ==> is_upstream(d.nodes, j, i),
    ensures
        d.is_buildable(),
{
    let nodes = d.nodes;
    let g = graph_of(nodes);
    assert forall|j: int| #![trigger nodes[j]] 0 <= j < nodes.len() implies !has_nul(nodes[j].name)
        && !is_repeated(nodes, j) by {
        if is_repeated(nodes, j) {
            let a = choose|a: int| 0 <= a < j && #[trigger] nodes[a].name == nodes[j].name;
            assert(nodes[a].name != nodes[j].name);
        }
    }
    assert forall|a: int, b: int|
        #![trigger nodes[a].deps[b]]
        0 <= a < nodes.len() && 0 <= b < nodes[a].deps.len() implies is_known(
        nodes,
        nodes[a].deps[b],
    ) by {
        let j = choose|j: int|
            0 <= j < nodes.len() && (#[trigger] nodes[j]).name == nodes[a].deps[b];
        assert(nodes[j].name == nodes[a].deps[b]);
    }
    assert forall|i: int| !#[trigger] graph::reaches(g, i, i) by {
        lemma_upstream_reaches(nodes, i, i);
        assert(!is_upstream(nodes, i, i));
    }
    assert forall|i: int| 0 <= i < nodes.len() && nodes[i].is_mut implies #[trigger] is_ordered(
        nodes,
        i,
    ) by {
        assert forall|j: int| 0 <= j < nodes.len() implies #[trigger] graph::comparable(g, i, j) by {
            lemma_upstream_reaches(nodes, i, j);
            lemma_upstream_reaches(nodes, j, i);
            assert(is_upstream(nodes, i, j) || i == j || is_upstream(nodes, j, i));
        }
    }
}

/// Nothing else can be built.
pub proof fn law_buildable_descriptions_are_sound(d: Description)
    requires
        d.is_buildable(),
    ensures
        d.capacity is Some,
        2 <= d.capacity->0 <= i64::MAX,
        exists|k: nat| d.capacity->0 == #[trigger] power2::pow2(k),
        d.max_batch_size != Some(0usize),
        d.nodes.len() > 0,
        forall|i: int| 0 <= i < d.nodes.len() ==> !(#[trigger] d.nodes[i]).name.contains('\0'),
        forall|a: int, b: int|
            #![trigger d.nodes[a], d.nodes[b]]
            0 <= a < b < d.nodes.len() ==> d.nodes[a].name != d.nodes[b].name,
        forall|i: int, k: int|
            0 <= i < d.nodes.len() && 0 <= k < d.nodes[i].deps.len() ==> exists|j: int|
                0 <= j < d.nodes.len() && (#[trigger] d.nodes[j]).name
                    == #[trigger] d.nodes[i].deps[k],
        forall|i: int| !#[trigger] is_upstream(d.nodes, i, i),
        forall|i: int, j: int|
            0 <= i < d.nodes.len() && 0 <= j < d.nodes.len() && i != j && d.nodes[i].is_mut
                && !#[trigger] is_upstream(d.nodes, i, j) ==> is_upstream(d.nodes, j, i),
{
    let nodes = d.nodes;
    let g = graph_of(nodes);
    lemma_names_are_distinct(nodes);
    assert forall|i: int| 0 <= i < nodes.len() implies !(#[trigger] nodes[i]).name.contains(
        '\0',
    ) by {
        assert(!has_nul(nodes[i].name));
    }
    assert forall|i: int, k: int|
        0 <= i < nodes.len() && 0 <= k < nodes[i].deps.len() implies exists|j: int|
        0 <= j < nodes.len() && (#[trigger] nodes[j]).name == #[trigger] nodes[i].deps[k] by {
        lemma_names_are_known(nodes, i);
    }
    assert forall|i: int| !#[trigger] is_upstream(nodes, i, i) by {
        lemma_upstream_reaches(nodes, i, i);
        assert(!graph::reaches(g, i, i));
    }
    assert forall|i: int, j: int|
        0 <= i < nodes.len() && 0 <= j < nodes.len() && i != j && nodes[i].is_mut
            && !#[trigger] is_upstream(nodes, i, j) implies is_upstream(nodes, j, i) by {
        lemma_upstream_reaches(nodes, i, j);
        lemma_upstream_reaches(nodes, j, i);
        assert(is_ordered(nodes, i));
        assert(graph::comparable(g, i, j));
    }
}

/// Every refusal has its reason, and names the first consumer that gives it: a name that is
/// blamed does hold a NUL or does stand twice, a dependency that is blamed is the name of
/// nobody, and a consumer that is blamed changes events without a chain between it and the
/// other one.
pub proof fn law_refusals_have_their_reasons(d: Description, error: BuildError)
    requires
        d.is_refused_with(error),
    ensures
        match error {
            BuildError::MissingCapacity => d.capacity is None,
            BuildError::InvalidCapacity { capacity } => d.capacity == Some(capacity) && !(2
                <= capacity <= i64::MAX && exists|k: nat| capacity == #[trigger] power2::pow2(k)),
            BuildError::InvalidMaxBatchSize => d.max_batch_size == Some(0usize),
            BuildError::EmptyDag => d.nodes.len() == 0,
            BuildError::InvalidConsumerName { consumer } => consumer@.contains('\0') && exists|
                i: int,
            |
                {
                    &&& 0 <= i < d.nodes.len()
                    &&& (#[trigger] d.nodes[i]).name == consumer@
                    &&& forall|a: int|
                        0 <= a < i ==> !(#[trigger] d.nodes[a]).name.contains('\0')
                    &&& forall|a: int, b: int|
                        #![trigger d.nodes[a], d.nodes[b]]
                        0 <= a < b < i ==> d.nodes[a].name != d.nodes[b].name
                },
            BuildError::DuplicateName(name) => exists|i: int, j: int|
                {
                    &&& 0 <= i < j < d.nodes.len()
                    &&& (#[trigger] d.nodes[i]).name == name@
                    &&& (#[trigger] d.nodes[j]).name == name@
                    &&& forall|a: int|
                        0 <= a <= j ==> !(#[trigger] d.nodes[a]).name.contains('\0')
                    &&& forall|a: int, b: int|
                        #![trigger d.nodes[a], d.nodes[b]]
                        0 <= a < b < j ==> d.nodes[a].name != d.nodes[b].name
                },
            BuildError::UnknownDependency { consumer, dep } => exists|i: int, k: int|
                {
                    &&& 0 <= i < d.nodes.len()
                    &&& 0 <= k < d.nodes[i].deps.len()
                    &&& d.nodes[i].name == consumer@
                    &&& #[trigger] d.nodes[i].deps[k] == dep@
                    &&& forall|j: int|
                        0 <= j < d.nodes.len() ==> (#[trigger] d.nodes[j]).name != dep@
                    &&& forall|a: int, b: int|
                        0 <= a <= i && 0 <= b < d.nodes[a].deps.len() && (a < i || b < k)
                            ==> exists|j: int|
                            0 <= j < d.nodes.len() && (#[trigger] d.nodes[j]).name
                                == #[trigger] d.nodes[a].deps[b]
                },
            BuildError::Cycle => exists|i: int| #[trigger] is_upstream(d.nodes, i, i),
            BuildError::ConcurrentMutConsumer { consumer, concurrent } => exists|i: int, j: int|
                {
                    &&& 0 <= i < d.nodes.len()
                    &&& 0 <= j < d.nodes.len()
                    &&& i != j
                    &&& d.nodes[i].name == consumer@
                    &&& d.nodes[j].name == concurrent@
                    &&& d.nodes[i].is_mut
                    &&& !#[trigger] is_upstream(d.nodes, i, j)
                    &&& !is_upstream(d.nodes, j, i)
                    &&& forall|b: int|
                        0 <= b < j && b != i && !#[trigger] is_upstream(d.nodes, i, b)
                            ==> is_upstream(d.nodes, b, i)
                    &&& forall|a: int, b: int|
                        0 <= a < i && d.nodes[a].is_mut && 0 <= b < d.nodes.len() && a != b
                            && !#[trigger] is_upstream(d.nodes, a, b) ==> is_upstream(
                            d.nodes,
                            b,
                            a,
                        )
                },
            BuildError::SpawnFailed { consumer, kind } => false,
        },
{
    let nodes = d.nodes;
    let g = graph_of(nodes);
    match error {
        BuildError::InvalidConsumerName { consumer } => {
            let i = choose|i: int| #[trigger]
                is_first_bad_name(nodes, i) && has_nul(nodes[i].name) && consumer@ == nodes[i].name;
            assert forall|a: int| 0 <= a < i implies !(#[trigger] nodes[a]).name.contains('\0') by {
                assert(!has_nul(nodes[a].name));
            }
            assert forall|a: int, b: int|
                #![trigger nodes[a], nodes[b]]
                0 <= a < b < i implies nodes[a].name != nodes[b].name by {
                assert(!is_repeated(nodes, b));
                assert(nodes[a].name == nodes[a].name);
            }
            assert(nodes[i].name == consumer@);
        },
        BuildError::DuplicateName(name) => {
            let j = choose|j: int| #[trigger]
                is_first_bad_name(nodes, j) && !has_nul(nodes[j].name) && name@ == nodes[j].name;
            let i = choose|i: int| 0 <= i < j && #[trigger] nodes[i].name == nodes[j].name;
            assert forall|a: int| 0 <= a <= j implies !(#[trigger] nodes[a]).name.contains('\0') by {
                assert(!has_nul(nodes[a].name));
            }
            assert forall|a: int, b: int|
                #![trigger nodes[a], nodes[b]]
                0 <= a < b < j implies nodes[a].name != nodes[b].name by {
                assert(!is_repeated(nodes, b));
                assert(nodes[a].name == nodes[a].name);
            }
            assert(nodes[i].name == name@ && nodes[j].name == name@);
        },
        BuildError::UnknownDependency { consumer, dep } => {
            let (i, k) = choose|i: int, k: int| #[trigger]
                is_first_unknown(nodes, i, k) && consumer@ == nodes[i].name && dep@
                    == nodes[i].deps[k];
            assert(!is_known(nodes, nodes[i].deps[k]));
            assert forall|j: int| 0 <= j < nodes.len() implies (#[trigger] nodes[j]).name
                != dep@ by {
                assert(nodes[j].name == nodes[j].name);
            }
            assert forall|a: int, b: int|
                0 <= a <= i && 0 <= b < nodes[a].deps.len() && (a < i || b < k) implies exists|
                j: int,
            | 0 <= j < nodes.len() && (#[trigger] nodes[j]).name == #[trigger] nodes[a].deps[b] by {
                assert(is_known(nodes, nodes[a].deps[b]));
                let j = choose|j: int|
                    0 <= j < nodes.len() && #[trigger] nodes[j].name == nodes[a].deps[b];
                assert(nodes[j].name == nodes[a].deps[b]);
            }
            assert(nodes[i].deps[k] == dep@);
        },
        BuildError::Cycle => {
            let i = choose|i: int| #[trigger] graph::reaches(g, i, i);
            lemma_upstream_reaches(nodes, i, i);
            assert(is_upstream(nodes, i, i));
        },
        BuildError::ConcurrentMutConsumer { consumer, concurrent } => {
            let (i, j) = choose|i: int, j: int| #[trigger]
                is_first_concurrent(nodes, i, j) && consumer@ == nodes[i].name && concurrent@
                    == nodes[j].name;
            lemma_upstream_reaches(nodes, i, j);
            lemma_upstream_reaches(nodes, j, i);
            assert(!graph::comparable(g, i, j));
            assert forall|b: int|
                0 <= b < j && b != i && !#[trigger] is_upstream(nodes, i, b) implies is_upstream(
                nodes,
                b,
                i,
            ) by {
                assert(graph::comparable(g, i, b));
                lemma_upstream_reaches(nodes, i, b);
                lemma_upstream_reaches(nodes, b, i);
            }
            assert forall|a: int, b: int|
                0 <= a < i && nodes[a].is_mut && 0 <= b < nodes.len() && a != b
                    && !#[trigger] is_upstream(nodes, a, b) implies is_upstream(nodes, b, a) by {
                assert(is_ordered(nodes, a));
                assert(graph::comparable(g, a, b));
                lemma_upstream_reaches(nodes, a, b);
                lemma_upstream_reaches(nodes, b, a);
            }
            assert(!is_upstream(nodes, i, j));
        },
        _ => {},
    }
}

/// The checks are made in a fixed order, and the first that fails decides: the size of the
/// ring, the limit for batches, that there are consumers, their names, their dependencies,
/// and then the cycles.
pub proof fn law_the_first_failing_check_decides(d: Description, error: BuildError)
    requires
        d.is_refused_with(error),
    ensures
        d.capacity is None ==> error is MissingCapacity,
        d.capacity is Some && !ring::valid_capacity(d.capacity->0 as int)
            ==> error is InvalidCapacity,
        d.capacity is Some && ring::valid_capacity(d.capacity->0 as int) ==> {
            &&& d.max_batch_size == Some(0usize) ==> error is InvalidMaxBatchSize
            &&& d.max_batch_size != Some(0usize) && d.nodes.len() == 0 ==> error is EmptyDag
        },
        d.capacity is Some && ring::valid_capacity(d.capacity->0 as int) && d.max_batch_size
            != Some(0usize) && d.nodes.len() > 0 ==> {
            &&& forall|i: int|
                0 <= i < d.nodes.len() && (#[trigger] d.nodes[i]).name.contains('\0')
                    ==> error is InvalidConsumerName || error is DuplicateName
            &&& forall|i: int, j: int|
                #![trigger d.nodes[i], d.nodes[j]]
                0 <= i < j < d.nodes.len() && d.nodes[i].name == d.nodes[j].name
                    ==> error is InvalidConsumerName || error is DuplicateName
            &&& forall|i: int, k: int|
                0 <= i < d.nodes.len() && 0 <= k < d.nodes[i].deps.len() && (forall|j: int|
                    0 <= j < d.nodes.len() ==> (#[trigger] d.nodes[j]).name
                        != #[trigger] d.nodes[i].deps[k]) ==> !(error is Cycle)
                    && !(error is ConcurrentMutConsumer)
            &&& (exists|i: int| #[trigger] is_upstream(d.nodes, i, i)) ==> !(
            error is ConcurrentMutConsumer)
        },
{
    let nodes = d.nodes;
    if d.sizes_are_valid() {
        assert forall|i: int|
            0 <= i < nodes.len() && (#[trigger] nodes[i]).name.contains(
                '\0',
            ) implies error is InvalidConsumerName || error is DuplicateName by {
            assert(has_nul(nodes[i].name));
        }
        assert forall|i: int, j: int|
            #![trigger nodes[i], nodes[j]]
            0 <= i < j < nodes.len() && nodes[i].name
                == nodes[j].name implies error is InvalidConsumerName
            || error is DuplicateName by {
            assert(is_repeated(nodes, j));
        }
        assert forall|i: int, k: int|
            0 <= i < nodes.len() && 0 <= k < nodes[i].deps.len() && (forall|j: int|
                0 <= j < nodes.len() ==> (#[trigger] nodes[j]).name
                    != #[trigger] nodes[i].deps[k]) implies !(error is Cycle) && !(
        error is ConcurrentMutConsumer) by {
            if deps_are_known(nodes) {
                lemma_names_are_known(nodes, i);
            }
        }
        if exists|i: int| #[trigger] is_upstream(nodes, i, i) {
            let i = choose|i: int| #[trigger] is_upstream(nodes, i, i);
            if error is ConcurrentMutConsumer {
                lemma_upstream_reaches(nodes, i, i);
                assert(!graph::reaches(graph_of(nodes), i, i));
            }
        }
    }
}

/// A consumer with its name and the names that it depends on.
#[verifier::reject_recursive_types(T)]
pub struct ConsumerSpec<T> {
    name: String,
    deps: Vec<String>,
    consumer: Stage<T>,
}

impl<T> View for ConsumerSpec<T> {
    type V = Node;

    closed spec fn view(&self) -> Node {
        Node {
            name: self.name@,
            deps: text::texts(self.deps@),
            is_mut: self.consumer is Mut,
        }
    }
}

/// The nodes that a list of registered consumers describes.
pub open spec fn nodes_of<T>(specs: Seq<ConsumerSpec<T>>) -> Seq<Node> {
    Seq::new(specs.len(), |i: int| specs[i]@)
}

/// The first name that cannot be used, as an error.
fn check_names<T>(specs: &Vec<ConsumerSpec<T>>) -> (r: Result<(), BuildError>)
    ensures
        match r {
            Ok(_) => names_are_good(nodes_of(specs@)),
            Err(BuildError::InvalidConsumerName { consumer }) => exists|i: int| #[trigger]
                is_first_bad_name(nodes_of(specs@), i) && has_nul(nodes_of(specs@)[i].name)
                    && consumer@ == nodes_of(specs@)[i].name,
            Err(BuildError::DuplicateName(name)) => exists|i: int| #[trigger]
                is_first_bad_name(nodes_of(specs@), i) && !has_nul(nodes_of(specs@)[i].name)
                    && name@ == nodes_of(specs@)[i].name,
            Err(_) => false,
        },
{
    let ghost nodes = nodes_of(specs@);
    let mut i: usize = 0;
    while i < specs.len()
        invariant
            i <= specs@.len(),
            nodes == nodes_of(specs@),
            forall|j: int|
                #![trigger nodes[j]]
                0 <= j < i ==> !has_nul(nodes[j].name) && !is_repeated(nodes, j),
        decreases specs@.len() - i,
    {
        let name: &String = &specs[i].name;
        assert(nodes[i as int].name == name@);
        if text::has_char(name.as_str(), '\0') {
            assert(is_first_bad_name(nodes, i as int));
            return Err(BuildError::InvalidConsumerName { consumer: name.clone() });
        }
        let mut j: usize = 0;
        while j < i
            invariant
                j <= i,
                i < specs@.len(),
                nodes == nodes_of(specs@),
                name@ == nodes[i as int].name,
                !has_nul(nodes[i as int].name),
                forall|m: int|
                    #![trigger nodes[m]]
                    0 <= m < i ==> !has_nul(nodes[m].name) && !is_repeated(nodes, m),
                forall|m: int| 0 <= m < j ==> #[trigger] nodes[m].name != name@,
            decreases i - j,
        {
            assert(nodes[j as int].name == specs@[j as int].name@);
            if specs[j].name == *name {
                assert(is_first_bad_name(nodes, i as int));
                return Err(BuildError::DuplicateName(name.clone()));
            }
            j = j + 1;
        }
        i = i + 1;
    }
    Ok(())
}

/// The number of the node with this name, if there is one.
fn find<T>(specs: &Vec<ConsumerSpec<T>>, name: &String) -> (r: Option<usize>)
    requires
        names_are_good(nodes_of(specs@)),
    ensures
        match r {
            Some(i) => i < specs@.len() && is_known(nodes_of(specs@), name@) && i == number_of(
                nodes_of(specs@),
                name@,
            ),
            None => !is_known(nodes_of(specs@), name@),
        },
{
    let ghost nodes = nodes_of(specs@);
    let mut i: usize = 0;
    while i < specs.len()
        invariant
            i <= specs@.len(),
            nodes == nodes_of(specs@),
            names_are_good(nodes),
            forall|m: int| 0 <= m < i ==> #[trigger] nodes[m].name != name@,
        decreases specs@.len() - i,
    {
        assert(nodes[i as int].name == specs@[i as int].name@);
        if specs[i].name == *name {
            proof {
                lemma_number_of(nodes, i as int);
            }
            return Some(i);
        }
        i = i + 1;
    }
    None
}

/// Where names are not repeated, the number of a node's name is that of the node.
proof fn lemma_number_of(nodes: Seq<Node>, i: int)
    requires
        names_are_good(nodes),
        0 <= i < nodes.len(),
    ensures
        is_known(nodes, nodes[i].name),
        number_of(nodes, nodes[i].name) == i,
{
    let j = number_of(nodes, nodes[i].name);
    assert(nodes[i].name == nodes[i].name);
    assert(0 <= j < nodes.len() && nodes[j].name == nodes[i].name);
    if j < i {
        assert(!is_repeated(nodes, i));
    } else if i < j {
        assert(!is_repeated(nodes, j));
        assert(nodes[i].name == nodes[j].name);
    }
}

/// The dependencies by number, or the first that is not known, as an error.
fn resolve<T>(specs: &Vec<ConsumerSpec<T>>) -> (r: Result<Vec<Vec<usize>>, BuildError>)
    requires
        names_are_good(nodes_of(specs@)),
    ensures
        match r {
            Ok(rows) => deps_are_known(nodes_of(specs@)) && graph::rows(rows@) == graph_of(
                nodes_of(specs@),
            ) && graph::in_range(graph::rows(rows@)),
            Err(BuildError::UnknownDependency { consumer, dep }) => exists|i: int, k: int|
                #[trigger]
                is_first_unknown(nodes_of(specs@), i, k) && consumer@ == nodes_of(specs@)[i].name
                    && dep@ == nodes_of(specs@)[i].deps[k],
            Err(_) => false,
        },
{
    let ghost nodes = nodes_of(specs@);
    let ghost g = graph_of(nodes);
    let mut rows: Vec<Vec<usize>> = Vec::new();
    let mut i: usize = 0;
    while i < specs.len()
        invariant
            i <= specs@.len(),
            nodes == nodes_of(specs@),
            g == graph_of(nodes),
            names_are_good(nodes),
            rows@.len() == i,
            forall|a: int, b: int|
                #![trigger nodes[a].deps[b]]
                0 <= a < i && 0 <= b < nodes[a].deps.len() ==> is_known(nodes, nodes[a].deps[b]),
            forall|a: int| 0 <= a < i ==> graph::ints((#[trigger] rows@[a])@) == g[a],
            forall|a: int, b: int|
                #![trigger g[a][b]]
                0 <= a < i && 0 <= b < g[a].len() ==> 0 <= g[a][b] < nodes.len(),
        decreases specs@.len() - i,
    {
        let mut row: Vec<usize> = Vec::new();
        let mut k: usize = 0;
        assert(nodes[i as int].deps.len() == specs@[i as int].deps@.len());
        while k < specs[i].deps.len()
            invariant
                i < specs@.len(),
                k <= specs@[i as int].deps@.len(),
                nodes == nodes_of(specs@),
                g == graph_of(nodes),
                nodes[i as int].deps.len() == specs@[i as int].deps@.len(),
                names_are_good(nodes),
                row@.len() == k,
                forall|a: int, b: int|
                    #![trigger nodes[a].deps[b]]
                    0 <= a < i && 0 <= b < nodes[a].deps.len() ==> is_known(
                        nodes,
                        nodes[a].deps[b],
                    ),
                forall|b: int|
                    0 <= b < k ==> is_known(nodes, #[trigger] nodes[i as int].deps[b]),
                forall|b: int|
                    0 <= b < k ==> (#[trigger] row@[b]) as int == g[i as int][b] && row@[b]
                        < nodes.len(),
            decreases specs@[i as int].deps@.len() - k,
        {
            let dep: &String = &specs[i].deps[k];
            assert(nodes[i as int].deps[k as int] == dep@);
            match find(specs, dep) {
                Some(j) => {
                    assert(g[i as int][k as int] == number_of(nodes, nodes[i as int].deps[k as int]));
                    row.push(j);
                },
                None => {
                    assert(is_first_unknown(nodes, i as int, k as int));
                    return Err(
                        BuildError::UnknownDependency {
                            consumer: specs[i].name.clone(),
                            dep: dep.clone(),
                        },
                    );
                },
            }
            k = k + 1;
        }
        assert(graph::ints(row@) =~= g[i as int]);
        rows.push(row);
        i = i + 1;
    }
    assert(graph::rows(rows@) =~= g);
    Ok(rows)
}

/// The first node that changes events without being ordered against every node, as an
/// error.
fn check_exclusive<T>(specs: &Vec<ConsumerSpec<T>>, g: &Graph, order: &Vec<usize>) -> (r: Result<
    (),
    BuildError,
>)
    requires
        g.wf(),
        g@ == graph_of(nodes_of(specs@)),
        graph::is_topological(g@, graph::ints(order@)),
    ensures
        match r {
            Ok(_) => mutation_is_exclusive(nodes_of(specs@)),
            Err(BuildError::ConcurrentMutConsumer { consumer, concurrent }) => exists|
                i: int,
                j: int,
            | #[trigger]
                is_first_concurrent(nodes_of(specs@), i, j) && consumer@ == nodes_of(specs@)[i].name
                    && concurrent@ == nodes_of(specs@)[j].name,
            Err(_) => false,
        },
{
    let ghost nodes = nodes_of(specs@);
    let mut i: usize = 0;
    while i < specs.len()
        invariant
            i <= specs@.len(),
            nodes == nodes_of(specs@),
            g.wf(),
            g@ == graph_of(nodes),
            graph::is_topological(g@, graph::ints(order@)),
            forall|m: int| 0 <= m < i && nodes[m].is_mut ==> #[trigger] is_ordered(nodes, m),
        decreases specs@.len() - i,
    {
        assert(nodes[i as int] == specs@[i as int]@);
        if specs[i].consumer.is_mut() {
            match g.first_unordered(order, i) {
                Some(j) => {
                    assert(is_first_concurrent(nodes, i as int, j as int));
                    assert(nodes[j as int] == specs@[j as int]@);
                    return Err(
                        BuildError::ConcurrentMutConsumer {
                            consumer: specs[i].name.clone(),
                            concurrent: specs[j].name.clone(),
                        },
                    );
                },
                None => {
                    assert(is_ordered(nodes, i as int));
                },
            }
        }
        i = i + 1;
    }
    Ok(())
}

/// A consumer that is ready to run: its name, the numbers of the stages that it depends
/// on, and its handler.
#[verifier::reject_recursive_types(T)]
pub struct PlannedStage<T> {
    pub name: String,
    pub deps: Vec<usize>,
    pub consumer: Stage<T>,
}

impl<T> PlannedStage<T> {
    /// The name of the thread that runs the stage.
    pub fn thread_name(&self) -> (r: String)
        ensures
            r@ == "rdisruptor-"@ + self.name@,
    {
        let mut out: String = "rdisruptor-".to_owned();
        out.append(self.name.as_str());
        out
    }
}

/// What a valid description comes to: everything that is needed to run it, with the
/// consumers numbered in the order of their registration.
#[verifier::reject_recursive_types(T)]
pub struct Plan<T> {
    /// The number of slots.
    pub capacity: usize,
    /// The most events in one batch.
    pub max_batch_size: i64,
    pub stages: Vec<PlannedStage<T>>,
    /// The stages in topological order.
    pub order: Vec<usize>,
    /// The stages that gate the producer.
    pub leaves: Vec<usize>,
    /// The consumers in topological order, to be listed.
    pub topology: Vec<TopologyNode>,
}

/// The consumers in the given order, as text.
pub open spec fn listed(nodes: Seq<Node>, order: Seq<int>) -> Seq<NodeText> {
    Seq::new(
        order.len(),
        |p: int| NodeText { name: nodes[order[p]].name, deps: nodes[order[p]].deps },
    )
}

impl<T> Plan<T> {
    /// The dependencies of each stage, by number.
    pub open spec fn deps(&self) -> Seq<Seq<int>> {
        Seq::new(self.stages@.len(), |i: int| graph::ints(self.stages@[i].deps@))
    }

    /// The plan can be run.
    pub open spec fn is_sound(&self) -> bool {
        &&& ring::valid_capacity(self.capacity as int)
        &&& 1 <= self.max_batch_size
        &&& graph::in_range(self.deps())
        &&& graph::is_topological(self.deps(), graph::ints(self.order@))
        &&& graph::are_leaves(self.deps(), graph::ints(self.leaves@))
        &&& forall|i: int, j: int|
            0 <= i < self.stages@.len() && 0 <= j < self.stages@.len()
                && self.stages@[i].consumer is Mut ==> #[trigger] graph::comparable(
                self.deps(),
                i,
                j,
            )
    }

    /// The plan does what was described, with these consumers.
    pub open spec fn realises(&self, d: Description, stages: Seq<Stage<T>>) -> bool {
        let g = graph_of(d.nodes);
        &&& d.capacity == Some(self.capacity)
        &&& self.max_batch_size == d.batch_limit()
        &&& self.stages@.len() == d.nodes.len()
        &&& stages.len() == d.nodes.len()
        &&& forall|i: int|
            #![trigger self.stages@[i]]
            0 <= i < self.stages@.len() ==> {
                &&& self.stages@[i].name@ == d.nodes[i].name
                &&& graph::ints(self.stages@[i].deps@) == g[i]
                &&& self.stages@[i].consumer == stages[i]
                &&& (stages[i] is Mut) == d.nodes[i].is_mut
            }
        &&& graph::is_schedule(g, graph::ints(self.order@))
        &&& graph::are_leaves(g, graph::ints(self.leaves@))
        &&& topology::node_texts(self.topology@) == listed(d.nodes, graph::ints(self.order@))
    }
}

/// What a buildable description comes to can be run.
pub proof fn law_plans_are_sound<T>(plan: Plan<T>, d: Description, stages: Seq<Stage<T>>)
    requires
        d.is_buildable(),
        plan.realises(d, stages),
    ensures
        plan.is_sound(),
        plan.deps() == graph_of(d.nodes),
{
    let g = graph_of(d.nodes);
    assert(plan.deps() =~= g);
    assert forall|a: int, b: int|
        #![trigger g[a][b]]
        0 <= a < g.len() && 0 <= b < g[a].len() implies 0 <= g[a][b] < g.len() by {
        assert(is_known(d.nodes, d.nodes[a].deps[b]));
        let j = number_of(d.nodes, d.nodes[a].deps[b]);
        assert(0 <= j < d.nodes.len() && d.nodes[j].name == d.nodes[a].deps[b]);
        assert(g[a][b] == j);
    }
    assert forall|i: int, j: int|
        0 <= i < plan.stages@.len() && 0 <= j < plan.stages@.len()
            && plan.stages@[i].consumer is Mut implies #[trigger] graph::comparable(
        plan.deps(),
        i,
        j,
    ) by {
        assert(is_ordered(d.nodes, i));
    }
}

/// A plan has what was asked for: the ring, the limit for batches, and each consumer in its
/// place, under its name and behind exactly those that it names.
pub proof fn law_plans_do_what_was_described<T>(
    plan: Plan<T>,
    d: Description,
    stages: Seq<Stage<T>>,
    i: int,
)
    requires
        d.is_buildable(),
        plan.realises(d, stages),
        0 <= i < d.nodes.len(),
    ensures
        d.capacity == Some(plan.capacity),
        d.max_batch_size matches Some(n) ==> plan.max_batch_size <= n && (n <= plan.capacity
            ==> plan.max_batch_size == n),
        d.max_batch_size is None ==> plan.max_batch_size == plan.capacity,
        plan.stages@.len() == d.nodes.len(),
        plan.stages@[i].name@ == d.nodes[i].name,
        plan.stages@[i].consumer == stages[i],
        (plan.stages@[i].consumer is Mut) == d.nodes[i].is_mut,
        plan.stages@[i].deps@.len() == d.nodes[i].deps.len(),
        forall|k: int|
            0 <= k < d.nodes[i].deps.len() ==> (#[trigger] plan.stages@[i].deps@[k])
                < d.nodes.len() && d.nodes[plan.stages@[i].deps@[k] as int].name
                == d.nodes[i].deps[k],
{
    let nodes = d.nodes;
    let g = graph_of(nodes);
    law_the_configured_limit_counts(d);
    lemma_names_are_distinct(nodes);
    lemma_names_are_known(nodes, i);
    law_dependencies_are_found_by_name(nodes, i, i);
    let row = plan.stages@[i].deps@;
    assert(graph::ints(row) == g[i]);
    graph::law_numbers_are_kept(row);
    assert forall|k: int| 0 <= k < nodes[i].deps.len() implies (#[trigger] row[k]) < nodes.len()
        && nodes[row[k] as int].name == nodes[i].deps[k] by {
        assert(graph::ints(row)[k] == row[k]);
        assert(0 <= g[i][k] < nodes.len());
    }
}

/// The producer waits for the consumers that no other one names, and for all of those.
pub proof fn law_plans_gate_by_the_last_consumers<T>(
    plan: Plan<T>,
    d: Description,
    stages: Seq<Stage<T>>,
    i: int,
)
    requires
        d.is_buildable(),
        plan.realises(d, stages),
        0 <= i < d.nodes.len(),
    ensures
        (exists|q: int| 0 <= q < plan.leaves@.len() && #[trigger] plan.leaves@[q] == i)
            <==> forall|j: int|
            0 <= j < d.nodes.len() ==> !(#[trigger] d.nodes[j]).deps.contains(d.nodes[i].name),
{
    let nodes = d.nodes;
    let g = graph_of(nodes);
    let leaves = graph::ints(plan.leaves@);
    assert(leaves.contains(i) <==> graph::is_leaf(g, i));
    if exists|q: int| 0 <= q < plan.leaves@.len() && #[trigger] plan.leaves@[q] == i {
        let q = choose|q: int| 0 <= q < plan.leaves@.len() && #[trigger] plan.leaves@[q] == i;
        assert(leaves[q] == i);
        assert forall|j: int| 0 <= j < nodes.len() implies !(#[trigger] nodes[j]).deps.contains(
            nodes[i].name,
        ) by {
            lemma_listed_is_dependency(nodes, j, i);
            assert(!graph::depends_on(g, j, i));
        }
    }
    if forall|j: int| 0 <= j < nodes.len() ==> !(#[trigger] nodes[j]).deps.contains(nodes[i].name) {
        assert forall|j: int| !#[trigger] graph::depends_on(g, j, i) by {
            lemma_listed_is_dependency(nodes, j, i);
        }
        assert(graph::is_leaf(g, i));
        let q = choose|q: int| 0 <= q < leaves.len() && leaves[q] == i;
        assert(plan.leaves@[q] == i);
    }
}

/// Consumers are listed each once, under their names and with all that they depend on, and
/// after all of these.
pub proof fn law_plans_list_dependencies_first<T>(
    plan: Plan<T>,
    d: Description,
    stages: Seq<Stage<T>>,
    p: int,
)
    requires
        d.is_buildable(),
        plan.realises(d, stages),
        0 <= p < d.nodes.len(),
    ensures
        graph::is_schedule(graph_of(d.nodes), graph::ints(plan.order@)),
        plan.order@.len() == d.nodes.len(),
        plan.topology@.len() == d.nodes.len(),
        plan.order@[p] < d.nodes.len(),
        forall|q: int| 0 <= q < plan.order@.len() && q != p ==> #[trigger] plan.order@[q]
            != plan.order@[p],
        plan.topology@[p].name@ == d.nodes[plan.order@[p] as int].name,
        text::texts(plan.topology@[p].deps@) == d.nodes[plan.order@[p] as int].deps,
        forall|k: int|
            0 <= k < plan.stages@[plan.order@[p] as int].deps@.len() ==> plan.order@.take(
                p,
            ).contains(#[trigger] plan.stages@[plan.order@[p] as int].deps@[k]),
{
    let nodes = d.nodes;
    let g = graph_of(nodes);
    let order = graph::ints(plan.order@);
    let texts = topology::node_texts(plan.topology@);
    assert(texts.len() == plan.topology@.len());
    assert(order[p] == plan.order@[p]);
    assert(texts[p] == plan.topology@[p]@);
    assert forall|q: int| 0 <= q < plan.order@.len() && q != p implies #[trigger] plan.order@[q]
        != plan.order@[p] by {
        assert(order[q] == plan.order@[q]);
    }
    let i = order[p];
    let row = plan.stages@[i].deps@;
    assert(graph::ints(row) == g[i]);
    assert forall|k: int| 0 <= k < row.len() implies plan.order@.take(p).contains(
        #[trigger] row[k],
    ) by {
        assert(graph::ints(row)[k] == row[k]);
        assert(graph::stands_before(order, g[order[p]][k], p));
        let q = choose|q: int| 0 <= q < p && #[trigger] order[q] == g[order[p]][k];
        assert(order[q] == plan.order@[q]);
        assert(plan.order@.take(p)[q] == row[k]);
    }
}

fn copied(items: &Vec<String>) -> (r: Vec<String>)
    ensures
        text::texts(r@) == text::texts(items@),
{
    let mut v: Vec<String> = Vec::new();
    let mut k: usize = 0;
    while k < items.len()
        invariant
            k <= items@.len(),
            v@.len() == k,
            forall|m: int| 0 <= m < k ==> (#[trigger] v@[m])@ == items@[m]@,
        decreases items@.len() - k,
    {
        v.push(items[k].clone());
        k = k + 1;
    }
    assert(text::texts(v@) =~= text::texts(items@));
    v
}

/// The consumers in the given order, to be listed.
fn list<T>(specs: &Vec<ConsumerSpec<T>>, order: &Vec<usize>) -> (r: Vec<TopologyNode>)
    requires
        forall|p: int| 0 <= p < order@.len() ==> (#[trigger] order@[p]) < specs@.len(),
    ensures
        topology::node_texts(r@) == listed(nodes_of(specs@), graph::ints(order@)),
{
    let ghost nodes = nodes_of(specs@);
    let mut v: Vec<TopologyNode> = Vec::new();
    let mut p: usize = 0;
    while p < order.len()
        invariant
            p <= order@.len(),
            nodes == nodes_of(specs@),
            forall|q: int| 0 <= q < order@.len() ==> (#[trigger] order@[q]) < specs@.len(),
            v@.len() == p,
            forall|q: int|
                0 <= q < p ==> (#[trigger] v@[q])@ == listed(nodes, graph::ints(order@))[q],
        decreases order@.len() - p,
    {
        let i: usize = order[p];
        assert(nodes[i as int] == specs@[i as int]@);
        v.push(TopologyNode { name: specs[i].name.clone(), deps: copied(&specs[i].deps) });
        p = p + 1;
    }
    assert(topology::node_texts(v@) =~= listed(nodes, graph::ints(order@)));
    v
}

/// A consumer that reads events, as a stage.
fn read_stage<T, C>(consumer: C) -> (r: Stage<T>) where C: Consumer<T> + 'static
    ensures
        r == Stage::<T>::Read(Box::new(consumer)),
        r is Read,
{
    Stage::Read(Box::new(consumer))
}

/// A consumer that changes events, as a stage.
fn mut_stage<T, C>(consumer: C) -> (r: Stage<T>) where C: MutConsumer<T> + 'static
    ensures
        r == Stage::<T>::Mut(Box::new(consumer)),
        r is Mut,
{
    Stage::Mut(Box::new(consumer))
}

/// The characters of each name.
pub open spec fn names(strs: Seq<&str>) -> Seq<Seq<char>> {
    Seq::new(strs.len(), |k: int| strs[k]@)
}

fn owned(strs: &[&str]) -> (r: Vec<String>)
    ensures
        text::texts(r@) == names(strs@),
{
    let mut v: Vec<String> = Vec::new();
    let mut k: usize = 0;
    while k < strs.len()
        invariant
            k <= strs@.len(),
            v@.len() == k,
            forall|m: int| 0 <= m < k ==> (#[trigger] v@[m])@ == strs@[m]@,
        decreases strs@.len() - k,
    {
        v.push(strs[k].to_owned());
        k = k + 1;
    }
    assert(text::texts(v@) =~= names(strs@));
    v
}

/// Describes a disruptor: the size of its ring and the graph of its consumers.
#[verifier::reject_recursive_types(T)]
pub struct DisruptorBuilder<T> {
    capacity: Option<usize>,
    max_batch_size: Option<usize>,
    nodes: Vec<ConsumerSpec<T>>,
}

impl<T> View for DisruptorBuilder<T> {
    type V = Description;

    closed spec fn view(&self) -> Description {
        Description {
            capacity: self.capacity,
            max_batch_size: self.max_batch_size,
            nodes: nodes_of(self.nodes@),
        }
    }
}

impl<T> Default for DisruptorBuilder<T> {
    fn default() -> (r: Self)
        ensures
            r@ == Description::empty(),
            r@.capacity is None && r@.max_batch_size is None && r@.nodes.len() == 0,
            r.stages() == Seq::<Stage<T>>::empty(),
    {
        let r = DisruptorBuilder { capacity: None, max_batch_size: None, nodes: Vec::new() };
        assert(r@ =~= Description::empty());
        assert(r.stages() =~= Seq::<Stage<T>>::empty());
        r
    }
}

impl<T> DisruptorBuilder<T> {
    /// The registered consumers.
    pub closed spec fn stages(&self) -> Seq<Stage<T>> {
        Seq::new(self.nodes@.len(), |i: int| self.nodes@[i].consumer)
    }

    pub fn new() -> (r: Self)
        ensures
            r@ == Description::empty(),
            r@.capacity is None && r@.max_batch_size is None && r@.nodes.len() == 0,
            r.stages() == Seq::<Stage<T>>::empty(),
    {
        Self::default()
    }

    pub fn capacity(self, cap: usize) -> (r: Self)
        ensures
            r@ == (Description { capacity: Some(cap), ..self@ }),
            r.stages() == self.stages(),
    {
        DisruptorBuilder {
            capacity: Some(cap),
            max_batch_size: self.max_batch_size,
            nodes: self.nodes,
        }
    }

    /// Limit the number of events delivered to a consumer in one batch.
    ///
    /// The limit applies independently to every consumer. By default it is
    /// the ring capacity, so that all currently available events are drained as one
    /// batch.
    pub fn max_batch_size(self, max_batch_size: usize) -> (r: Self)
        ensures
            r@ == (Description { max_batch_size: Some(max_batch_size), ..self@ }),
            r.stages() == self.stages(),
    {
        DisruptorBuilder {
            capacity: self.capacity,
            max_batch_size: Some(max_batch_size),
            nodes: self.nodes,
        }
    }

    fn register(self, name: String, deps: Vec<String>, consumer: Stage<T>) -> (r: Self)
        ensures
            r@ == self@.with(name@, text::texts(deps@), consumer is Mut),
            r@.nodes == self@.nodes.push(
                (Node { name: name@, deps: text::texts(deps@), is_mut: consumer is Mut }),
            ),
            r.stages() == self.stages().push(consumer),
    {
        let mut nodes: Vec<ConsumerSpec<T>> = self.nodes;
        let added = ConsumerSpec { name, deps, consumer };
        nodes.push(added);
        let r = DisruptorBuilder {
            capacity: self.capacity,
            max_batch_size: self.max_batch_size,
            nodes,
        };
        assert(r.stages() =~= self.stages().push(consumer));
        assert(r@.nodes =~= self@.nodes.push(added@));
        r
    }

    /// Register a consumer that depends only on the producer cursor.
    pub fn consumer<C>(self, consumer: C) -> (r: Self) where C: Consumer<T> + 'static
        ensures
            exists|name: &str| #[trigger]
                call_ensures(<C as Consumer<T>>::name, (&consumer,), name) && r@ == self@.with(
                    name@,
                    Seq::empty(),
                    false,
                ) && r@.nodes == self@.nodes.push(
                    (Node { name: name@, deps: Seq::empty(), is_mut: false }),
                ),
            r@.capacity == self@.capacity,
            r@.max_batch_size == self@.max_batch_size,
            exists|stage: Stage<T>|
                stage == Stage::<T>::Read(Box::new(consumer)) && r.stages()
                    == #[trigger] self.stages().push(stage),
    {
        let name: String = consumer.name().to_owned();
        let deps: Vec<String> = Vec::new();
        assert(text::texts(deps@) =~= Seq::<Seq<char>>::empty());
        self.register(name, deps, read_stage(consumer))
    }

    /// Register a consumer that depends on all named upstream consumers.
    pub fn consumer_after<C>(self, deps: &[&str], consumer: C) -> (r: Self) where
        C: Consumer<T> + 'static,

        ensures
            exists|name: &str| #[trigger]
                call_ensures(<C as Consumer<T>>::name, (&consumer,), name) && r@ == self@.with(
                    name@,
                    names(deps@),
                    false,
                ) && r@.nodes == self@.nodes.push(
                    (Node { name: name@, deps: names(deps@), is_mut: false }),
                ),
            r@.capacity == self@.capacity,
            r@.max_batch_size == self@.max_batch_size,
            r@.nodes.last().deps.len() == deps@.len(),
            forall|k: int|
                0 <= k < deps@.len() ==> #[trigger] r@.nodes.last().deps[k] == deps@[k]@,
            exists|stage: Stage<T>|
                stage == Stage::<T>::Read(Box::new(consumer)) && r.stages()
                    == #[trigger] self.stages().push(stage),
    {
        let name: String = consumer.name().to_owned();
        self.register(name, owned(deps), read_stage(consumer))
    }

    /// Register a mutable consumer that depends only on the producer cursor.
    ///
    /// See [`MutConsumer`] for the exclusivity rule enforced by [`build`].
    ///
    /// [`build`]: Self::build
    pub fn consumer_mut<C>(self, consumer: C) -> (r: Self) where C: MutConsumer<T> + 'static
        ensures
            exists|name: &str| #[trigger]
                call_ensures(<C as MutConsumer<T>>::name, (&consumer,), name) && r@ == self@.with(
                    name@,
                    Seq::empty(),
                    true,
                ) && r@.nodes == self@.nodes.push(
                    (Node { name: name@, deps: Seq::empty(), is_mut: true }),
                ),
            r@.capacity == self@.capacity,
            r@.max_batch_size == self@.max_batch_size,
            exists|stage: Stage<T>|
                stage == Stage::<T>::Mut(Box::new(consumer)) && r.stages()
                    == #[trigger] self.stages().push(stage),
    {
        let name: String = consumer.name().to_owned();
        let deps: Vec<String> = Vec::new();
        assert(text::texts(deps@) =~= Seq::<Seq<char>>::empty());
        self.register(name, deps, mut_stage(consumer))
    }

    /// Register a mutable consumer that depends on all named upstream
    /// consumers.
    ///
    /// See [`MutConsumer`] for the exclusivity rule enforced by [`build`].
    ///
    /// [`build`]: Self::build
    pub fn consumer_after_mut<C>(self, deps: &[&str], consumer: C) -> (r: Self) where
        C: MutConsumer<T> + 'static,

        ensures
            exists|name: &str| #[trigger]
                call_ensures(<C as MutConsumer<T>>::name, (&consumer,), name) && r@ == self@.with(
                    name@,
                    names(deps@),
                    true,
                ) && r@.nodes == self@.nodes.push(
                    (Node { name: name@, deps: names(deps@), is_mut: true }),
                ),
            r@.capacity == self@.capacity,
            r@.max_batch_size == self@.max_batch_size,
            r@.nodes.last().deps.len() == deps@.len(),
            forall|k: int|
                0 <= k < deps@.len() ==> #[trigger] r@.nodes.last().deps[k] == deps@[k]@,
            exists|stage: Stage<T>|
                stage == Stage::<T>::Mut(Box::new(consumer)) && r.stages()
                    == #[trigger] self.stages().push(stage),
    {
        let name: String = consumer.name().to_owned();
        self.register(name, owned(deps), mut_stage(consumer))
    }

    /// Checks the description and works out how to run it. The first check that fails
    /// decides the error.
    pub fn plan(self) -> (r: Result<Plan<T>, BuildError>)
        ensures
            r is Ok == self@.is_buildable(),
            match r {
                Ok(plan) => plan.realises(self@, self.stages()),
                Err(error) => self@.is_refused_with(error),
            },
            r matches Err(BuildError::InvalidConsumerName { consumer }) ==> consumer@.contains(
                '\0',
            ),
    {
        let ghost d = self@;
        let r: Result<Plan<T>, BuildError> = self.checked();
        proof {
            if r is Err {
                law_refused_is_not_buildable(d, r->Err_0);
                law_refusals_have_their_reasons(d, r->Err_0);
            }
        }
        r
    }

    fn checked(self) -> (r: Result<Plan<T>, BuildError>)
        ensures
            match r {
                Ok(plan) => self@.is_buildable() && plan.realises(self@, self.stages()),
                Err(error) => self@.is_refused_with(error),
            },
    {
        let ghost d = self@;
        let capacity: usize = match self.capacity {
            Some(cap) => cap,
            None => {
                return Err(BuildError::MissingCapacity);
            },
        };
        if !ring::is_valid_capacity(capacity) {
            return Err(BuildError::InvalidCapacity { capacity });
        }
        let limit: usize = match self.max_batch_size {
            Some(n) => {
                if n == 0 {
                    return Err(BuildError::InvalidMaxBatchSize);
                }
                if n < capacity {
                    n
                } else {
                    capacity
                }
            },
            None => capacity,
        };
        if self.nodes.len() == 0 {
            return Err(BuildError::EmptyDag);
        }
        let specs: Vec<ConsumerSpec<T>> = self.nodes;
        match check_names(&specs) {
            Ok(_) => {},
            Err(error) => {
                assert(d.sizes_are_valid());
                assert(error is InvalidConsumerName || error is DuplicateName);
                assert(error is InvalidConsumerName ==> d.is_refused_with(error));
                assert(error is DuplicateName ==> d.is_refused_with(error));
                return Err(error);
            },
        }
        let rows: Vec<Vec<usize>> = match resolve(&specs) {
            Ok(rows) => rows,
            Err(error) => {
                return Err(error);
            },
        };
        let g: Graph = Graph::new(rows);
        let order: Vec<usize> = match g.topological_order() {
            Some(order) => order,
            None => {
                return Err(BuildError::Cycle);
            },
        };
        match check_exclusive(&specs, &g, &order) {
            Ok(_) => {},
            Err(error) => {
                return Err(error);
            },
        }
        assert forall|p: int| 0 <= p < order@.len() implies (#[trigger] order@[p])
            < specs@.len() by {
            assert(graph::ints(order@)[p] == order@[p]);
        }
        let topology: Vec<TopologyNode> = list(&specs, &order);
        let leaves: Vec<usize> = g.leaves();
        let mut stages: Vec<PlannedStage<T>> = Vec::new();
        for node in it: specs.into_iter()
            invariant
                it.seq() == self.nodes@,
                d == self@,
                g@ == graph_of(d.nodes),
                stages@.len() == it.index(),
                forall|i: int|
                    #![trigger stages@[i]]
                    0 <= i < stages@.len() ==> {
                        &&& stages@[i].name@ == d.nodes[i].name
                        &&& graph::ints(stages@[i].deps@) == g@[i]
                        &&& stages@[i].consumer == self.stages()[i]
                    },
        {
            let i: usize = stages.len();
            assert(d.nodes[i as int] == node@);
            stages.push(
                PlannedStage {
                    name: node.name,
                    deps: g.dependencies(i),
                    consumer: node.consumer,
                },
            );
        }
        Ok(
            Plan {
                capacity,
                max_batch_size: limit as i64,
                stages,
                order,
                leaves,
                topology,
            },
        )
    }
}

/// The disruptor is as described, with these consumers, and nothing has happened to it.
pub open spec fn is_built<T: Default, W: WaitStrategy>(
    disruptor: Disruptor<T, W>,
    d: Description,
    stages: Seq<Stage<T>>,
    wait: W,
) -> bool {
    let made = disruptor@;
    &&& disruptor.wf()
    &&& disruptor.has_producer()
    &&& made.registered == stages
    &&& disruptor.strategy() == wait
    &&& disruptor.listed() == listed(d.nodes, made.system.order)
    &&& state::is_fresh(made, d.capacity->0 as int, d.batch_limit())
    &&& made.system.deps == graph_of(d.nodes)
    &&& graph::is_schedule(made.system.deps, made.system.order)
    &&& made.names == Seq::new(d.nodes.len(), |i: int| d.nodes[i].name)
    &&& made.is_mut == Seq::new(d.nodes.len(), |i: int| d.nodes[i].is_mut)
    &&& forall|k: int|
        0 <= k < made.slots.len() ==> call_ensures(T::default, (), #[trigger] made.slots[k])
}

/// A disruptor is built as described: a ring of the size that was asked for, nothing
/// published and nothing consumed, the strategy that was given, and each consumer in its
/// place, under its name, behind exactly those that it names and with the limit for batches
/// that was asked for.
pub proof fn law_disruptors_are_built_as_described<T: Default, W: WaitStrategy>(
    disruptor: Disruptor<T, W>,
    d: Description,
    stages: Seq<Stage<T>>,
    wait: W,
    i: int,
)
    requires
        d.is_buildable(),
        is_built(disruptor, d, stages, wait),
        0 <= i < d.nodes.len(),
    ensures
        disruptor.strategy() == wait,
        disruptor.has_producer(),
        disruptor@.slots.len() == d.capacity->0,
        disruptor@.written.len() == 0,
        !disruptor@.alerted,
        disruptor@.system.published == -1,
        disruptor@.system.producer.next_seq == 0,
        disruptor@.system.producer.capacity == d.capacity->0,
        disruptor@.system.stages.len() == d.nodes.len(),
        disruptor@.handed.len() == d.nodes.len(),
        disruptor@.handed[i].len() == 0,
        disruptor@.system.cursors[i] == -1,
        disruptor@.system.stages[i].phase is Starting,
        disruptor@.system.stages[i].next == 0,
        disruptor@.registered[i] == stages[i],
        disruptor@.consumers[i] == stages[i],
        disruptor@.names[i] == d.nodes[i].name,
        disruptor@.is_mut[i] == d.nodes[i].is_mut,
        !disruptor@.panicked[i],
        d.max_batch_size matches Some(n) ==> disruptor@.system.stages[i].max_batch_size <= n && (n
            <= d.capacity->0 ==> disruptor@.system.stages[i].max_batch_size == n),
        d.max_batch_size is None ==> disruptor@.system.stages[i].max_batch_size == d.capacity->0,
        graph::is_schedule(disruptor@.system.deps, disruptor@.system.order),
        disruptor.listed().len() == d.nodes.len(),
        disruptor.listed()[i].name == d.nodes[disruptor@.system.order[i]].name,
        disruptor.listed()[i].deps == d.nodes[disruptor@.system.order[i]].deps,
        disruptor@.system.deps[i].len() == d.nodes[i].deps.len(),
        forall|k: int|
            0 <= k < d.nodes[i].deps.len() ==> 0 <= #[trigger] disruptor@.system.deps[i][k]
                < d.nodes.len() && d.nodes[disruptor@.system.deps[i][k]].name
                == d.nodes[i].deps[k],
        forall|k: int|
            0 <= k < disruptor@.slots.len() ==> call_ensures(
                T::default,
                (),
                #[trigger] disruptor@.slots[k],
            ),
{
    law_the_configured_limit_counts(d);
    lemma_names_are_distinct(d.nodes);
    lemma_names_are_known(d.nodes, i);
    law_dependencies_are_found_by_name(d.nodes, i, i);
}

/// A consumer is called with an event only after every consumer that it names is done with
/// the event.
pub proof fn law_named_consumers_come_first<T>(
    state: DisruptorState<T>,
    d: Description,
    i: int,
    j: int,
)
    requires
        d.is_buildable(),
        state.wf(),
        state.system.deps == graph_of(d.nodes),
        0 <= i < d.nodes.len(),
        0 <= j < d.nodes.len(),
        d.nodes[i].deps.contains(d.nodes[j].name),
    ensures
        state.handed[i].len() <= state.system.cursors[j] + 1,
        state.system.cursors[j] < state.handed[j].len(),
{
    lemma_listed_is_dependency(d.nodes, i, j);
    graph::lemma_reaches_edge(state.system.deps, j, i);
    state::law_no_consumer_is_called_before_its_ancestors(state, j, i);
}

impl<T: Default> DisruptorBuilder<T> {
    /// Checks the description and sets up the disruptor. The first check that fails
    /// decides the error.
    pub fn build<W: WaitStrategy>(self, wait: W) -> (r: Result<Disruptor<T, W>, BuildError>)
        ensures
            r is Ok == self@.is_buildable(),
            match r {
                Ok(disruptor) => is_built(disruptor, self@, self.stages(), wait),
                Err(error) => self@.is_refused_with(error),
            },
            r matches Err(BuildError::InvalidConsumerName { consumer }) ==> consumer@.contains(
                '\0',
            ),
    {
        let ghost d = self@;
        let ghost stages = self.stages();
        match self.plan() {
            Ok(plan) => {
                proof {
                    law_plans_are_sound(plan, d, stages);
                }
                let disruptor: Disruptor<T, W> = Disruptor::new(plan, wait);
                proof {
                    assert(disruptor@.registered =~= stages);
                    assert(disruptor@.names =~= Seq::new(d.nodes.len(), |i: int| d.nodes[i].name));
                    assert(disruptor@.is_mut =~= Seq::new(
                        d.nodes.len(),
                        |i: int| d.nodes[i].is_mut,
                    ));
                }
                Ok(disruptor)
            },
            Err(error) => Err(error),
        }
    }
}

} // verus!
