//! Dependency graphs over stages numbered from zero.
//!
//! A graph is given by listing, for every stage, the stages it depends on. The
//! specifications below speak of the graph as a `Seq<Seq<int>>`: entry `j` holds
//! the dependencies of stage `j`, in the order in which they were registered.

use vstd::prelude::*;

verus! {

/// Every dependency names a stage of the graph.
pub open spec fn in_range(g: Seq<Seq<int>>) -> bool {
    forall|j: int, k: int|
        #![trigger g[j][k]]
        0 <= j < g.len() && 0 <= k < g[j].len() ==> 0 <= g[j][k] < g.len()
}

/// Stage `j` lists stage `i` among its dependencies.
pub open spec fn depends_on(g: Seq<Seq<int>>, j: int, i: int) -> bool {
    0 <= j < g.len() && g[j].contains(i)
}

/// Every stage of `path` is a dependency of the stage that follows it.
pub open spec fn is_path(g: Seq<Seq<int>>, path: Seq<int>) -> bool {
    forall|k: int|
        #![trigger path[k]]
        0 < k < path.len() ==> depends_on(g, path[k], path[k - 1])
}

/// `path` leads from `a` to `b` over at least one dependency.
pub open spec fn joins(g: Seq<Seq<int>>, path: Seq<int>, a: int, b: int) -> bool {
    path.len() >= 2 && path.first() == a && path.last() == b && is_path(g, path)
}

/// Stage `a` is an ancestor of stage `b`.
pub open spec fn reaches(g: Seq<Seq<int>>, a: int, b: int) -> bool {
    exists|path: Seq<int>| joins(g, path, a, b)
}

/// No stage is its own ancestor.
pub open spec fn acyclic(g: Seq<Seq<int>>) -> bool {
    forall|i: int| !#[trigger] reaches(g, i, i)
}

/// The two stages are ordered against each other, or are one stage.
pub open spec fn comparable(g: Seq<Seq<int>>, i: int, j: int) -> bool {
    i == j || reaches(g, i, j) || reaches(g, j, i)
}

/// No stage depends on stage `i`.
pub open spec fn is_leaf(g: Seq<Seq<int>>, i: int) -> bool {
    0 <= i < g.len() && forall|j: int| !#[trigger] depends_on(g, j, i)
}

/// `leaves` holds the leaves of the graph, by rising number.
pub open spec fn are_leaves(g: Seq<Seq<int>>, leaves: Seq<int>) -> bool {
    &&& forall|a: int, b: int|
        #![trigger leaves[a], leaves[b]]
        0 <= a < b < leaves.len() ==> leaves[a] < leaves[b]
    &&& forall|i: int| #[trigger] leaves.contains(i) <==> is_leaf(g, i)
}

/// `d` stands in `order` before position `p`.
pub open spec fn stands_before(order: Seq<int>, d: int, p: int) -> bool {
    exists|q: int| 0 <= q < p && #[trigger] order[q] == d
}

/// `order` lists every stage once, each one after all of its dependencies.
pub open spec fn is_topological(g: Seq<Seq<int>>, order: Seq<int>) -> bool {
    &&& order.len() == g.len()
    &&& order.no_duplicates()
    &&& forall|p: int| 0 <= p < order.len() ==> 0 <= #[trigger] order[p] < g.len()
    &&& forall|p: int, k: int|
        #![trigger g[order[p]][k]]
        0 <= p < order.len() && 0 <= k < g[order[p]].len() ==> stands_before(
            order,
            g[order[p]][k],
            p,
        )
}

/// The last of the dependencies `ds` to appear in `order` stands at position `r`;
/// `r` is -1 where there are no dependencies.
pub open spec fn ready_at(order: Seq<int>, ds: Seq<int>, r: int) -> bool {
    &&& ds.len() == 0 ==> r == -1
    &&& ds.len() > 0 ==> 0 <= r < order.len() && ds.contains(order[r])
    &&& forall|k: int| 0 <= k < ds.len() ==> stands_before(order, #[trigger] ds[k], r + 1)
}

/// Stages are taken in the order in which they became ready, and stages that became
/// ready together are taken in the order of their numbers.
pub open spec fn is_first_come(g: Seq<Seq<int>>, order: Seq<int>) -> bool {
    forall|p: int, q: int, r: int, s: int|
        #![trigger ready_at(order, g[order[p]], r), ready_at(order, g[order[q]], s)]
        0 <= p < q < order.len() && ready_at(order, g[order[p]], r) && ready_at(
            order,
            g[order[q]],
            s,
        ) ==> r < s || (r == s && order[p] < order[q])
}

/// The order in which stages leave a first-in first-out queue of ready stages.
pub open spec fn is_schedule(g: Seq<Seq<int>>, order: Seq<int>) -> bool {
    is_topological(g, order) && is_first_come(g, order)
}

/// Stage `j` is the first that is not ordered against stage `i`.
pub open spec fn is_first_unordered(g: Seq<Seq<int>>, i: int, j: int) -> bool {
    &&& 0 <= j < g.len()
    &&& !comparable(g, i, j)
    &&& forall|k: int| 0 <= k < j ==> #[trigger] comparable(g, i, k)
}

/// How often `x` occurs in `s`.
pub open spec fn occurrences(s: Seq<int>, x: int) -> nat
    decreases s.len(),
{
    if s.len() == 0 {
        0
    } else {
        occurrences(s.drop_last(), x) + if s.last() == x {
            1nat
        } else {
            0nat
        }
    }
}

/// How many entries of `ds` are not in `done`.
pub open spec fn pending(ds: Seq<int>, done: Seq<int>) -> nat
    decreases ds.len(),
{
    if ds.len() == 0 {
        0
    } else {
        pending(ds.drop_last(), done) + if done.contains(ds.last()) {
            0nat
        } else {
            1nat
        }
    }
}

proof fn lemma_occurrences_push(s: Seq<int>, y: int, x: int)
    ensures
        occurrences(s.push(y), x) == occurrences(s, x) + if y == x {
            1nat
        } else {
            0nat
        },
{
    assert(s.push(y).drop_last() =~= s);
}

proof fn lemma_occurrences_contains(s: Seq<int>, x: int)
    ensures
        occurrences(s, x) > 0 <==> s.contains(x),
    decreases s.len(),
{
    if s.len() > 0 {
        lemma_occurrences_contains(s.drop_last(), x);
        if s.contains(x) {
            let k = choose|k: int| 0 <= k < s.len() && s[k] == x;
            if k < s.len() - 1 {
                assert(s.drop_last()[k] == x);
            }
        }
        if s.drop_last().contains(x) {
            let k = choose|k: int| 0 <= k < s.drop_last().len() && s.drop_last()[k] == x;
            assert(s[k] == x);
        }
    }
}

/// The occurrences in a prefix that is followed by one more `x` fall short of all.
proof fn lemma_occurrences_prefix(s: Seq<int>, t: int, x: int)
    requires
        0 <= t <= s.len(),
    ensures
        occurrences(s.take(t), x) <= occurrences(s, x),
        t < s.len() && s[t] == x ==> occurrences(s.take(t), x) < occurrences(s, x),
    decreases s.len() - t,
{
    if t == s.len() {
        assert(s.take(t) =~= s);
    } else {
        assert(s.take(t + 1) =~= s.take(t).push(s[t]));
        lemma_occurrences_push(s.take(t), s[t], x);
        lemma_occurrences_prefix(s, t + 1, x);
    }
}

proof fn lemma_pending_none(ds: Seq<int>, done: Seq<int>)
    ensures
        pending(ds, done) <= ds.len(),
        done.len() == 0 ==> pending(ds, done) == ds.len(),
        pending(ds, done) == 0 <==> forall|k: int|
            0 <= k < ds.len() ==> done.contains(#[trigger] ds[k]),
    decreases ds.len(),
{
    if ds.len() > 0 {
        let head = ds.drop_last();
        lemma_pending_none(head, done);
        if pending(ds, done) == 0 {
            assert forall|k: int| 0 <= k < ds.len() implies done.contains(#[trigger] ds[k]) by {
                if k < head.len() {
                    assert(head[k] == ds[k]);
                }
            }
        }
        if forall|k: int| 0 <= k < ds.len() ==> done.contains(#[trigger] ds[k]) {
            assert forall|k: int| 0 <= k < head.len() implies done.contains(
                #[trigger] head[k],
            ) by {
                assert(head[k] == ds[k]);
            }
        }
    }
}

proof fn lemma_pending_step(ds: Seq<int>, done: Seq<int>, x: int)
    requires
        !done.contains(x),
    ensures
        pending(ds, done) == pending(ds, done.push(x)) + occurrences(ds, x),
    decreases ds.len(),
{
    if ds.len() > 0 {
        lemma_pending_step(ds.drop_last(), done, x);
        let y = ds.last();
        if done.contains(y) {
            let k = choose|k: int| 0 <= k < done.len() && done[k] == y;
            assert(done.push(x)[k] == y);
        }
        if done.push(x).contains(y) {
            let k = choose|k: int| 0 <= k < done.push(x).len() && done.push(x)[k] == y;
            if k < done.len() {
                assert(done[k] == y);
            }
        }
        assert(done.push(x)[done.len() as int] == x);
    }
}

/// Distinct numbers below `n` are at most `n` many, and where there are `n` of them
/// every number below `n` is among them.
proof fn lemma_distinct_below(s: Seq<int>, n: int)
    requires
        s.no_duplicates(),
        0 <= n,
        forall|k: int| 0 <= k < s.len() ==> 0 <= #[trigger] s[k] < n,
    ensures
        s.len() <= n,
        s.len() == n ==> forall|x: int| 0 <= x < n ==> #[trigger] s.contains(x),
{
    vstd::set_lib::lemma_int_range(0, n);
    s.unique_seq_to_set();
    let all = vstd::set_lib::set_int_range(0, n);
    assert(s.to_set().subset_of(all));
    vstd::set_lib::lemma_len_subset(s.to_set(), all);
    if s.len() == n {
        vstd::set_lib::lemma_subset_equality(s.to_set(), all);
        assert forall|x: int| 0 <= x < n implies #[trigger] s.contains(x) by {
            assert(all.contains(x));
            assert(s.to_set().contains(x));
        }
    }
}

pub proof fn lemma_reaches_edge(g: Seq<Seq<int>>, a: int, b: int)
    requires
        depends_on(g, b, a),
    ensures
        reaches(g, a, b),
{
    let path = seq![a, b];
    assert(path[1] == b && path[0] == a);
    assert(joins(g, path, a, b));
}

pub proof fn lemma_reaches_extend(g: Seq<Seq<int>>, a: int, b: int, c: int)
    requires
        reaches(g, a, b),
        depends_on(g, c, b),
    ensures
        reaches(g, a, c),
{
    let path = choose|path: Seq<int>| joins(g, path, a, b);
    let longer = path.push(c);
    assert(is_path(g, longer)) by {
        assert forall|k: int| #![trigger longer[k]] 0 < k < longer.len() implies depends_on(
            g,
            longer[k],
            longer[k - 1],
        ) by {
            if k < path.len() {
                assert(longer[k] == path[k] && longer[k - 1] == path[k - 1]);
            }
        }
    }
    assert(joins(g, longer, a, c));
}

pub proof fn lemma_reaches_transitive(g: Seq<Seq<int>>, a: int, b: int, c: int)
    requires
        reaches(g, a, b),
        reaches(g, b, c),
    ensures
        reaches(g, a, c),
{
    let p = choose|path: Seq<int>| joins(g, path, a, b);
    let q = choose|path: Seq<int>| joins(g, path, b, c);
    let whole = p + q.skip(1);
    assert forall|k: int| #![trigger whole[k]] 0 < k < whole.len() implies depends_on(
        g,
        whole[k],
        whole[k - 1],
    ) by {
        if k < p.len() {
            assert(whole[k] == p[k] && whole[k - 1] == p[k - 1]);
        } else {
            let m = k - p.len() + 1;
            assert(whole[k] == q[m]);
            if m == 1 {
                assert(whole[k - 1] == p.last());
                assert(q[0] == b);
            } else {
                assert(whole[k - 1] == q[m - 1]);
            }
        }
    }
    assert(whole.last() == q.last());
    assert(joins(g, whole, a, c));
}

/// What reaches `b` is a dependency of `b`, or reaches one.
pub proof fn lemma_reaches_last(g: Seq<Seq<int>>, a: int, b: int) -> (d: int)
    requires
        reaches(g, a, b),
    ensures
        depends_on(g, b, d),
        d == a || reaches(g, a, d),
{
    let path = choose|path: Seq<int>| joins(g, path, a, b);
    let d = path[path.len() - 2];
    assert(path[path.len() - 1] == b);
    if path.len() > 2 {
        let shorter = path.drop_last();
        assert forall|k: int| #![trigger shorter[k]] 0 < k < shorter.len() implies depends_on(
            g,
            shorter[k],
            shorter[k - 1],
        ) by {
            assert(shorter[k] == path[k] && shorter[k - 1] == path[k - 1]);
        }
        assert(joins(g, shorter, a, d));
    }
    d
}

/// What `a` reaches depends on `a`, or is reached from a stage that does.
pub proof fn lemma_reaches_first(g: Seq<Seq<int>>, a: int, b: int) -> (d: int)
    requires
        reaches(g, a, b),
    ensures
        depends_on(g, d, a),
        d == b || reaches(g, d, b),
{
    let path = choose|path: Seq<int>| joins(g, path, a, b);
    let d = path[1];
    assert(path[0] == a);
    if path.len() > 2 {
        let shorter = path.skip(1);
        assert forall|k: int| #![trigger shorter[k]] 0 < k < shorter.len() implies depends_on(
            g,
            shorter[k],
            shorter[k - 1],
        ) by {
            assert(shorter[k] == path[k + 1] && shorter[k - 1] == path[k]);
        }
        assert(joins(g, shorter, d, b));
    }
    d
}

/// A stage that reaches another stands before it in every topological order.
pub proof fn lemma_reaches_ordered(g: Seq<Seq<int>>, order: Seq<int>, p: int, q: int)
    requires
        is_topological(g, order),
        0 <= p < order.len(),
        0 <= q < order.len(),
        reaches(g, order[p], order[q]),
    ensures
        p < q,
    decreases q,
{
    let d = lemma_reaches_last(g, order[p], order[q]);
    let k = choose|k: int| 0 <= k < g[order[q]].len() && g[order[q]][k] == d;
    assert(stands_before(order, g[order[q]][k], q));
    let r = choose|r: int| 0 <= r < q && #[trigger] order[r] == d;
    if d != order[p] {
        lemma_reaches_ordered(g, order, p, r);
    }
}

/// Every stage has a position in a topological order.
pub proof fn lemma_position(g: Seq<Seq<int>>, order: Seq<int>, i: int) -> (p: int)
    requires
        is_topological(g, order),
        0 <= i < g.len(),
    ensures
        0 <= p < order.len(),
        order[p] == i,
{
    lemma_distinct_below(order, g.len() as int);
    assert(order.contains(i));
    choose|p: int| 0 <= p < order.len() && order[p] == i
}

/// What is reached, and what reaches, are stages of the graph.
pub proof fn lemma_reaches_in_range(g: Seq<Seq<int>>, a: int, b: int)
    requires
        in_range(g),
        reaches(g, a, b),
    ensures
        0 <= a < g.len(),
        0 <= b < g.len(),
{
    let d = lemma_reaches_last(g, a, b);
    let e = lemma_reaches_first(g, a, b);
    let k = choose|k: int| 0 <= k < g[e].len() && g[e][k] == a;
    assert(0 <= g[e][k] < g.len());
}

/// A graph that can be ordered has no cycle.
pub proof fn lemma_ordered_is_acyclic(g: Seq<Seq<int>>, order: Seq<int>)
    requires
        in_range(g),
        is_topological(g, order),
    ensures
        acyclic(g),
{
    assert forall|i: int| !#[trigger] reaches(g, i, i) by {
        if reaches(g, i, i) {
            lemma_reaches_in_range(g, i, i);
            let p = lemma_position(g, order, i);
            lemma_reaches_ordered(g, order, p, p);
        }
    }
}

/// The stage met after `k` steps back along dependencies that are not in `done`.
spec fn walk_back(g: Seq<Seq<int>>, done: Seq<int>, start: int, k: nat) -> int
    decreases k,
{
    if k == 0 {
        start
    } else {
        let at = walk_back(g, done, start, (k - 1) as nat);
        choose|d: int| depends_on(g, at, d) && !done.contains(d)
    }
}

/// Every stage outside `done` depends on another one outside `done`.
spec fn all_blocked(g: Seq<Seq<int>>, done: Seq<int>) -> bool {
    forall|j: int|
        0 <= j < g.len() && !(#[trigger] done.contains(j)) ==> exists|d: int|
            depends_on(g, j, d) && !done.contains(d)
}

proof fn lemma_walk_back(g: Seq<Seq<int>>, done: Seq<int>, start: int, k: nat)
    requires
        in_range(g),
        all_blocked(g, done),
        0 <= start < g.len(),
        !done.contains(start),
    ensures
        0 <= walk_back(g, done, start, k) < g.len(),
        !done.contains(walk_back(g, done, start, k)),
        depends_on(g, walk_back(g, done, start, k), walk_back(g, done, start, k + 1)),
    decreases k,
{
    let at = walk_back(g, done, start, k);
    if k > 0 {
        lemma_walk_back(g, done, start, (k - 1) as nat);
        let before = walk_back(g, done, start, (k - 1) as nat);
        assert(at == choose|d: int| depends_on(g, before, d) && !done.contains(d));
        assert(exists|d: int| depends_on(g, before, d) && !done.contains(d));
        let m = choose|m: int| 0 <= m < g[before].len() && g[before][m] == at;
        assert(0 <= g[before][m] < g.len());
    }
    assert(exists|d: int| depends_on(g, at, d) && !done.contains(d));
    assert(walk_back(g, done, start, k + 1) == choose|d: int|
        depends_on(g, at, d) && !done.contains(d));
}

proof fn lemma_walk_back_reaches(g: Seq<Seq<int>>, done: Seq<int>, start: int, a: nat, b: nat)
    requires
        in_range(g),
        all_blocked(g, done),
        0 <= start < g.len(),
        !done.contains(start),
        a < b,
    ensures
        reaches(g, walk_back(g, done, start, b), walk_back(g, done, start, a)),
    decreases b,
{
    let before = (b - 1) as nat;
    lemma_walk_back(g, done, start, before);
    assert((before + 1) as nat == b);
    lemma_reaches_edge(
        g,
        walk_back(g, done, start, b),
        walk_back(g, done, start, before),
    );
    if a < before {
        lemma_walk_back_reaches(g, done, start, a, before);
        lemma_reaches_transitive(
            g,
            walk_back(g, done, start, b),
            walk_back(g, done, start, before),
            walk_back(g, done, start, a),
        );
    }
}

/// Where every remaining stage waits for another remaining stage, there is a cycle.
proof fn lemma_blocked_has_cycle(g: Seq<Seq<int>>, done: Seq<int>, start: int)
    requires
        in_range(g),
        all_blocked(g, done),
        0 <= start < g.len(),
        !done.contains(start),
    ensures
        !acyclic(g),
{
    let steps = Seq::new(g.len() + 1, |k: int| walk_back(g, done, start, k as nat));
    assert forall|k: int| 0 <= k < steps.len() implies 0 <= #[trigger] steps[k] < g.len() by {
        lemma_walk_back(g, done, start, k as nat);
    }
    if steps.no_duplicates() {
        lemma_distinct_below(steps, g.len() as int);
    }
    let (a, b) = choose|a: int, b: int|
        0 <= a < steps.len() && 0 <= b < steps.len() && a != b && steps[a] == steps[b];
    let lo = if a < b {
        a
    } else {
        b
    };
    let hi = if a < b {
        b
    } else {
        a
    };
    lemma_walk_back_reaches(g, done, start, lo as nat, hi as nat);
    assert(steps[lo] == steps[hi]);
    assert(reaches(g, steps[lo], steps[lo]));
}

/// Every stage is a leaf, or reaches one.
pub proof fn lemma_leaf_below(g: Seq<Seq<int>>, order: Seq<int>, i: int) -> (leaf: int)
    requires
        in_range(g),
        is_topological(g, order),
        0 <= i < g.len(),
    ensures
        is_leaf(g, leaf),
        leaf == i || reaches(g, i, leaf),
{
    let p = lemma_position(g, order, i);
    lemma_leaf_from(g, order, p)
}

proof fn lemma_leaf_from(g: Seq<Seq<int>>, order: Seq<int>, p: int) -> (leaf: int)
    requires
        in_range(g),
        is_topological(g, order),
        0 <= p < order.len(),
    ensures
        is_leaf(g, leaf),
        leaf == order[p] || reaches(g, order[p], leaf),
    decreases order.len() - p,
{
    let i = order[p];
    if is_leaf(g, i) {
        i
    } else {
        let j = choose|j: int| #[trigger] depends_on(g, j, i);
        let q = lemma_position(g, order, j);
        lemma_reaches_edge(g, i, j);
        lemma_reaches_ordered(g, order, p, q);
        let leaf = lemma_leaf_from(g, order, q);
        if leaf != j {
            lemma_reaches_transitive(g, i, j, leaf);
        }
        leaf
    }
}

/// Fewer than `n` numbers leave out some number below `n`.
proof fn lemma_left_out(s: Seq<int>, n: int) -> (x: int)
    requires
        s.len() < n,
    ensures
        0 <= x < n,
        !s.contains(x),
{
    if forall|x: int| 0 <= x < n ==> #[trigger] s.contains(x) {
        vstd::set_lib::lemma_int_range(0, n);
        let all = vstd::set_lib::set_int_range(0, n);
        s.lemma_cardinality_of_set();
        assert forall|x: int| all.contains(x) implies s.to_set().contains(x) by {
            assert(s.contains(x));
        }
        vstd::set_lib::lemma_len_subset(all, s.to_set());
    }
    choose|x: int| 0 <= x < n && !#[trigger] s.contains(x)
}

/// A stage becomes ready at one position only.
proof fn lemma_ready_once(order: Seq<int>, ds: Seq<int>, r: int, s: int)
    requires
        order.no_duplicates(),
        ready_at(order, ds, r),
        ready_at(order, ds, s),
    ensures
        r == s,
{
    if ds.len() > 0 {
        let a = choose|a: int| 0 <= a < ds.len() && ds[a] == order[r];
        assert(stands_before(order, ds[a], s + 1));
        let b = choose|b: int| 0 <= b < ds.len() && ds[b] == order[s];
        assert(stands_before(order, ds[b], r + 1));
    }
}

/// `ready` tells, for each position of `order`, when the stage there became ready;
/// nobody was ready after position `h`, and the stages stand in the order in which
/// they became ready.
spec fn arrivals(g: Seq<Seq<int>>, order: Seq<int>, ready: Seq<int>, h: int) -> bool {
    &&& ready.len() == order.len()
    &&& forall|p: int|
        #![trigger order[p]]
        #![trigger ready[p]]
        0 <= p < order.len() ==> 0 <= order[p] < g.len() && ready_at(
            order,
            g[order[p]],
            ready[p],
        ) && ready[p] < p && ready[p] < h
    &&& forall|p: int, q: int|
        #![trigger order[p], order[q]]
        0 <= p < q < order.len() ==> ready[p] < ready[q] || (ready[p] == ready[q] && order[p]
            < order[q])
}

proof fn lemma_ready_stable(order: Seq<int>, ds: Seq<int>, r: int, x: int)
    requires
        ready_at(order, ds, r),
    ensures
        ready_at(order.push(x), ds, r),
{
    let longer = order.push(x);
    assert forall|k: int| 0 <= k < ds.len() implies stands_before(
        longer,
        #[trigger] ds[k],
        r + 1,
    ) by {
        assert(stands_before(order, ds[k], r + 1));
        let q = choose|q: int| 0 <= q < r + 1 && #[trigger] order[q] == ds[k];
        assert(longer[q] == ds[k]);
    }
    if ds.len() > 0 {
        assert(longer[r] == order[r]);
    }
}

proof fn lemma_arrival(
    g: Seq<Seq<int>>,
    order: Seq<int>,
    ready: Seq<int>,
    h: int,
    j: int,
    r: int,
)
    requires
        arrivals(g, order, ready, h),
        0 <= j < g.len(),
        ready_at(order, g[j], r),
        r < h,
        r < order.len(),
        forall|p: int|
            #![trigger order[p]]
            0 <= p < order.len() ==> ready[p] < r || (ready[p] == r && order[p] < j),
    ensures
        arrivals(g, order.push(j), ready.push(r), h),
{
    let longer = order.push(j);
    let times = ready.push(r);
    assert forall|p: int|
        #![trigger longer[p]]
        #![trigger times[p]]
        0 <= p < longer.len() implies 0 <= longer[p] < g.len() && ready_at(
        longer,
        g[longer[p]],
        times[p],
    ) && times[p] < p && times[p] < h by {
        if p < order.len() {
            assert(longer[p] == order[p] && times[p] == ready[p]);
            lemma_ready_stable(order, g[order[p]], ready[p], j);
        } else {
            lemma_ready_stable(order, g[j], r, j);
        }
    }
    assert forall|p: int, q: int|
        #![trigger longer[p], longer[q]]
        0 <= p < q < longer.len() implies times[p] < times[q] || (times[p] == times[q]
        && longer[p] < longer[q]) by {
        assert(longer[p] == order[p] && times[p] == ready[p]);
        if q < order.len() {
            assert(longer[q] == order[q] && times[q] == ready[q]);
        }
    }
}

/// A complete list of arrivals is the schedule.
proof fn lemma_arrivals_schedule(g: Seq<Seq<int>>, order: Seq<int>, ready: Seq<int>, h: int)
    requires
        arrivals(g, order, ready, h),
        order.no_duplicates(),
        order.len() == g.len(),
    ensures
        is_schedule(g, order),
{
    assert forall|p: int, k: int|
        #![trigger g[order[p]][k]]
        0 <= p < order.len() && 0 <= k < g[order[p]].len() implies stands_before(
        order,
        g[order[p]][k],
        p,
    ) by {
        assert(ready_at(order, g[order[p]], ready[p]));
        assert(stands_before(order, g[order[p]][k], ready[p] + 1));
        let q = choose|q: int| 0 <= q < ready[p] + 1 && #[trigger] order[q] == g[order[p]][k];
        assert(0 <= q < p && order[q] == g[order[p]][k]);
    }
    assert forall|p: int, q: int, r: int, s: int|
        #![trigger ready_at(order, g[order[p]], r), ready_at(order, g[order[q]], s)]
        0 <= p < q < order.len() && ready_at(order, g[order[p]], r) && ready_at(
            order,
            g[order[q]],
            s,
        ) implies r < s || (r == s && order[p] < order[q]) by {
        lemma_ready_once(order, g[order[p]], r, ready[p]);
        lemma_ready_once(order, g[order[q]], s, ready[q]);
    }
}

/// The numbers held by a vector of machine integers.
pub open spec fn ints(v: Seq<usize>) -> Seq<int> {
    Seq::new(v.len(), |k: int| v[k] as int)
}

/// The graph written down by one vector of dependencies per stage.
pub open spec fn rows(v: Seq<Vec<usize>>) -> Seq<Seq<int>> {
    Seq::new(v.len(), |j: int| ints(v[j]@))
}

/// `es` lists, for every stage, the stages that depend on it, by rising number and as
/// often as they name it.
pub open spec fn are_edges(g: Seq<Seq<int>>, es: Seq<Seq<int>>) -> bool {
    &&& es.len() == g.len()
    &&& in_range(es)
    &&& forall|i: int, a: int, b: int|
        #![trigger es[i][a], es[i][b]]
        0 <= i < es.len() && 0 <= a <= b < es[i].len() ==> es[i][a] <= es[i][b]
    &&& forall|i: int, j: int|
        #![trigger occurrences(es[i], j)]
        0 <= i < es.len() && 0 <= j < g.len() ==> occurrences(es[i], j) == occurrences(g[j], i)
}

/// Among the first `m` of the dependencies `ds` of the stage at position `p` one is the
/// last to appear.
proof fn lemma_ready_exists(order: Seq<int>, ds: Seq<int>, p: int, m: int) -> (r: int)
    requires
        0 <= m <= ds.len(),
        p <= order.len(),
        forall|k: int| 0 <= k < ds.len() ==> stands_before(order, #[trigger] ds[k], p),
    ensures
        -1 <= r,
        r < p || m == 0,
        ready_at(order, ds.take(m), r),
    decreases m,
{
    let head = ds.take(m);
    if m == 0 {
        -1
    } else {
        let before = lemma_ready_exists(order, ds, p, m - 1);
        let shorter = ds.take(m - 1);
        let q = choose|q: int| 0 <= q < p && #[trigger] order[q] == ds[m - 1];
        let r = if before < q {
            q
        } else {
            before
        };
        assert forall|k: int| 0 <= k < head.len() implies stands_before(
            order,
            #[trigger] head[k],
            r + 1,
        ) by {
            if k < m - 1 {
                assert(head[k] == shorter[k]);
                assert(stands_before(order, shorter[k], before + 1));
                let w = choose|w: int| 0 <= w < before + 1 && #[trigger] order[w] == shorter[k];
                assert(0 <= w < r + 1 && order[w] == head[k]);
            } else {
                assert(0 <= q < r + 1 && order[q] == head[k]);
            }
        }
        if r == q {
            assert(head[m - 1] == order[r]);
        } else {
            let w = choose|w: int| 0 <= w < shorter.len() && shorter[w] == order[r];
            assert(head[w] == order[r]);
        }
        r
    }
}

/// Where two orders agree on the positions that hold the dependencies `ds`, these
/// become complete at the same position.
proof fn lemma_ready_shared(a: Seq<int>, b: Seq<int>, ds: Seq<int>, m: int, r: int)
    requires
        0 <= m <= a.len(),
        m <= b.len(),
        a.take(m) == b.take(m),
        ready_at(a, ds, r),
        r < m,
    ensures
        ready_at(b, ds, r),
{
    assert forall|q: int| 0 <= q < m implies a[q] == #[trigger] b[q] by {
        assert(a.take(m)[q] == a[q]);
        assert(b.take(m)[q] == b[q]);
    }
    assert forall|k: int| 0 <= k < ds.len() implies stands_before(b, #[trigger] ds[k], r + 1) by {
        assert(stands_before(a, ds[k], r + 1));
        let q = choose|q: int| 0 <= q < r + 1 && #[trigger] a[q] == ds[k];
        assert(b[q] == ds[k]);
    }
}

proof fn lemma_schedule_prefix(g: Seq<Seq<int>>, a: Seq<int>, b: Seq<int>, m: int)
    requires
        in_range(g),
        is_schedule(g, a),
        is_schedule(g, b),
        0 <= m <= g.len(),
    ensures
        a.take(m) == b.take(m),
    decreases m,
{
    if m == 0 {
        assert(a.take(0) =~= b.take(0));
    } else {
        let k = m - 1;
        lemma_schedule_prefix(g, a, b, k);
        let x = a[k];
        let y = b[k];
        if x != y {
            let p = lemma_position(g, a, y);
            let q = lemma_position(g, b, x);
            assert forall|w: int| 0 <= w < k implies a[w] == #[trigger] b[w] by {
                assert(a.take(k)[w] == b.take(k)[w]);
            }
            assert(p > k) by {
                if p < k {
                    assert(a[p] == b[p]);
                }
            }
            assert(q > k) by {
                if q < k {
                    assert(a[q] == b[q]);
                }
            }
            let r = lemma_ready_exists(a, g[x], k, g[x].len() as int);
            assert(g[x].take(g[x].len() as int) =~= g[x]);
            let s = lemma_ready_exists(b, g[y], k, g[y].len() as int);
            assert(g[y].take(g[y].len() as int) =~= g[y]);
            lemma_ready_shared(a, b, g[x], k, r);
            lemma_ready_shared(b, a, g[y], k, s);
            assert(ready_at(a, g[a[k]], r) && ready_at(a, g[a[p]], s));
            assert(ready_at(b, g[b[k]], s) && ready_at(b, g[b[q]], r));
        }
        assert(a.take(m) =~= a.take(k).push(x));
        assert(b.take(m) =~= b.take(k).push(y));
    }
}

/// A graph has at most one schedule: the order in which stages are listed depends on
/// the graph alone.
pub proof fn law_schedule_is_unique(g: Seq<Seq<int>>, a: Seq<int>, b: Seq<int>)
    requires
        in_range(g),
        is_schedule(g, a),
        is_schedule(g, b),
    ensures
        a == b,
{
    lemma_schedule_prefix(g, a, b, g.len() as int);
    assert(a.take(g.len() as int) =~= a);
    assert(b.take(g.len() as int) =~= b);
}

/// How many entries are still false.
spec fn unmarked(marks: Seq<bool>) -> nat
    decreases marks.len(),
{
    if marks.len() == 0 {
        0
    } else {
        unmarked(marks.drop_last()) + if marks.last() {
            0nat
        } else {
            1nat
        }
    }
}

proof fn lemma_unmarked_drops(marks: Seq<bool>, i: int)
    requires
        0 <= i < marks.len(),
        !marks[i],
    ensures
        unmarked(marks.update(i, true)) + 1 == unmarked(marks),
    decreases marks.len(),
{
    let after = marks.update(i, true);
    if i == marks.len() - 1 {
        assert(after.drop_last() =~= marks.drop_last());
    } else {
        lemma_unmarked_drops(marks.drop_last(), i);
        assert(after.drop_last() =~= marks.drop_last().update(i, true));
    }
}

/// A marking that is closed under dependents holds everything that is reached from it.
proof fn lemma_closed_marks(g: Seq<Seq<int>>, marks: Seq<bool>, i: int, j: int)
    requires
        in_range(g),
        marks.len() == g.len(),
        0 <= i < g.len(),
        marks[i],
        forall|u: int, v: int|
            #![trigger depends_on(g, v, u)]
            0 <= u < g.len() && marks[u] && depends_on(g, v, u) ==> marks[v],
        reaches(g, i, j),
    ensures
        0 <= j < g.len(),
        marks[j],
{
    let path = choose|path: Seq<int>| joins(g, path, i, j);
    lemma_closed_marks_along(g, marks, path, path.len() - 1);
}

proof fn lemma_closed_marks_along(g: Seq<Seq<int>>, marks: Seq<bool>, path: Seq<int>, k: int)
    requires
        marks.len() == g.len(),
        is_path(g, path),
        0 <= k < path.len(),
        0 <= path[0] < g.len(),
        marks[path[0]],
        forall|u: int, v: int|
            #![trigger depends_on(g, v, u)]
            0 <= u < g.len() && marks[u] && depends_on(g, v, u) ==> marks[v],
    ensures
        0 <= path[k] < g.len(),
        marks[path[k]],
    decreases k,
{
    if k > 0 {
        lemma_closed_marks_along(g, marks, path, k - 1);
        assert(depends_on(g, path[k], path[k - 1]));
    }
}

proof fn lemma_edge_is_dependent(g: Seq<Seq<int>>, es: Seq<Seq<int>>, i: int, j: int)
    requires
        are_edges(g, es),
        0 <= i < g.len(),
    ensures
        depends_on(g, j, i) <==> es[i].contains(j),
{
    if es[i].contains(j) {
        let a = choose|a: int| 0 <= a < es[i].len() && es[i][a] == j;
        assert(0 <= es[i][a] < g.len());
    }
    if 0 <= j < g.len() {
        lemma_occurrences_contains(es[i], j);
        lemma_occurrences_contains(g[j], i);
        assert(occurrences(es[i], j) == occurrences(g[j], i));
    }
}

/// A dependency graph together with its edges in the direction of the flow.
pub struct Graph {
    deps: Vec<Vec<usize>>,
    edges: Vec<Vec<usize>>,
}

impl View for Graph {
    type V = Seq<Seq<int>>;

    closed spec fn view(&self) -> Seq<Seq<int>> {
        rows(self.deps@)
    }
}

impl Graph {
    /// The listed dependencies exist and the edges are those of the graph.
    pub closed spec fn wf(&self) -> bool {
        in_range(self@) && are_edges(self@, rows(self.edges@))
    }

    /// The stages that stage `j` depends on.
    pub fn dependencies(&self, j: usize) -> (r: Vec<usize>)
        requires
            j < self@.len(),
        ensures
            ints(r@) == self@[j as int],
    {
        let r: Vec<usize> = self.deps[j].clone();
        assert(r@ =~= self.deps@[j as int]@);
        r
    }

    /// The graph in which stage `j` depends on the stages `deps[j]`.
    pub fn new(deps: Vec<Vec<usize>>) -> (r: Graph)
        requires
            in_range(rows(deps@)),
        ensures
            r.wf(),
            r@ == rows(deps@),
    {
        let n: usize = deps.len();
        let ghost g = rows(deps@);
        let mut edges: Vec<Vec<usize>> = Vec::new();
        let mut i: usize = 0;
        while i < n
            invariant
                i <= n,
                edges@.len() == i,
                forall|m: int| 0 <= m < i ==> (#[trigger] edges@[m])@.len() == 0,
            decreases n - i,
        {
            edges.push(Vec::new());
            i = i + 1;
        }
        let mut j: usize = 0;
        while j < n
            invariant
                n == deps@.len(),
                edges@.len() == n,
                j <= n,
                g == rows(deps@),
                in_range(g),
                forall|m: int, a: int|
                    #![trigger rows(edges@)[m][a]]
                    0 <= m < n && 0 <= a < rows(edges@)[m].len() ==> 0 <= rows(edges@)[m][a] < j,
                forall|m: int, a: int, b: int|
                    #![trigger rows(edges@)[m][a], rows(edges@)[m][b]]
                    0 <= m < n && 0 <= a <= b < rows(edges@)[m].len() ==> rows(edges@)[m][a]
                        <= rows(edges@)[m][b],
                forall|m: int, x: int|
                    #![trigger occurrences(rows(edges@)[m], x)]
                    0 <= m < n && 0 <= x < j ==> occurrences(rows(edges@)[m], x) == occurrences(
                        g[x],
                        m,
                    ),
            decreases n - j,
        {
            let ghost es0 = rows(edges@);
            let mut k: usize = 0;
            assert forall|m: int| 0 <= m < n implies occurrences(
                #[trigger] rows(edges@)[m],
                j as int,
            ) == occurrences(g[j as int].take(0), m) by {
                lemma_occurrences_contains(rows(edges@)[m], j as int);
            }
            while k < deps[j].len()
                invariant
                    n == deps@.len(),
                    edges@.len() == n,
                    j < n,
                    k <= deps@[j as int]@.len(),
                    g == rows(deps@),
                    in_range(g),
                    forall|m: int, a: int|
                        #![trigger rows(edges@)[m][a]]
                        0 <= m < n && 0 <= a < rows(edges@)[m].len() ==> 0 <= rows(edges@)[m][a]
                            <= j,
                    forall|m: int, a: int, b: int|
                        #![trigger rows(edges@)[m][a], rows(edges@)[m][b]]
                        0 <= m < n && 0 <= a <= b < rows(edges@)[m].len() ==> rows(edges@)[m][a]
                            <= rows(edges@)[m][b],
                    forall|m: int, x: int|
                        #![trigger occurrences(rows(edges@)[m], x)]
                        0 <= m < n && 0 <= x < j ==> occurrences(rows(edges@)[m], x)
                            == occurrences(g[x], m),
                    forall|m: int|
                        0 <= m < n ==> occurrences(#[trigger] rows(edges@)[m], j as int)
                            == occurrences(g[j as int].take(k as int), m),
                decreases deps@[j as int]@.len() - k,
            {
                let d: usize = deps[j][k];
                assert(g[j as int][k as int] == d as int);
                let ghost before = rows(edges@);
                edges[d].push(j);
                let ghost after = rows(edges@);
                proof {
                    assert(after[d as int] =~= before[d as int].push(j as int));
                    assert forall|m: int| 0 <= m < n && m != d implies #[trigger] after[m]
                        == before[m] by {}
                    assert(g[j as int].take(k + 1) =~= g[j as int].take(k as int).push(d as int));
                    assert forall|m: int, x: int|
                        #![trigger occurrences(after[m], x)]
                        0 <= m < n && 0 <= x < j implies occurrences(after[m], x) == occurrences(
                        g[x],
                        m,
                    ) by {
                        lemma_occurrences_push(before[d as int], j as int, x);
                        assert(occurrences(before[m], x) == occurrences(g[x], m));
                    }
                    assert forall|m: int| 0 <= m < n implies occurrences(
                        #[trigger] after[m],
                        j as int,
                    ) == occurrences(g[j as int].take(k + 1), m) by {
                        lemma_occurrences_push(before[d as int], j as int, j as int);
                        lemma_occurrences_push(g[j as int].take(k as int), d as int, m);
                        assert(occurrences(before[m], j as int) == occurrences(
                            g[j as int].take(k as int),
                            m,
                        ));
                    }
                    assert forall|m: int, a: int|
                        #![trigger after[m][a]]
                        0 <= m < n && 0 <= a < after[m].len() implies 0 <= after[m][a] <= j by {
                        if m != d || a < before[m].len() {
                            assert(after[m][a] == before[m][a]);
                        }
                    }
                    assert forall|m: int, a: int, b: int|
                        #![trigger after[m][a], after[m][b]]
                        0 <= m < n && 0 <= a <= b < after[m].len() implies after[m][a]
                        <= after[m][b] by {
                        if m != d || b < before[m].len() {
                            assert(after[m][a] == before[m][a] && after[m][b] == before[m][b]);
                        } else if a < before[m].len() {
                            assert(after[m][a] == before[m][a]);
                        }
                    }
                }
                k = k + 1;
            }
            assert(g[j as int].take(k as int) =~= g[j as int]);
            j = j + 1;
        }
        Graph { deps, edges }
    }

    /// The stages in the order in which a first-in first-out queue of ready stages
    /// hands them out, or `None` where a cycle keeps some stage from getting ready.
    pub fn topological_order(&self) -> (r: Option<Vec<usize>>)
        requires
            self.wf(),
        ensures
            match r {
                Some(order) => is_schedule(self@, ints(order@)) && acyclic(self@),
                None => !acyclic(self@),
            },
    {
        let n: usize = self.deps.len();
        let ghost g = self@;
        let ghost es = rows(self.edges@);
        let mut in_degree: Vec<usize> = Vec::new();
        let mut order: Vec<usize> = Vec::new();
        let ghost mut ready: Seq<int> = Seq::empty();
        let mut i: usize = 0;
        while i < n
            invariant
                i <= n,
                n == self.deps@.len(),
                g == self@,
                in_degree@.len() == i,
                forall|m: int| 0 <= m < i ==> (#[trigger] in_degree@[m]) as int == g[m].len(),
                arrivals(g, ints(order@), ready, 0),
                forall|p: int| 0 <= p < ready.len() ==> #[trigger] ready[p] == -1,
                forall|p: int| 0 <= p < order@.len() ==> (#[trigger] ints(order@)[p]) < i,
                forall|m: int|
                    0 <= m < i ==> (#[trigger] ints(order@).contains(m) <==> in_degree@[m] == 0),
            decreases n - i,
        {
            let count: usize = self.deps[i].len();
            assert(g[i as int].len() == count);
            in_degree.push(count);
            let ghost before = ints(order@);
            if count == 0 {
                order.push(i);
                proof {
                    let after = ints(order@);
                    assert(after =~= before.push(i as int));
                    lemma_arrival(g, before, ready, 0, i as int, -1);
                    ready = ready.push(-1);
                    assert forall|m: int| 0 <= m < i + 1 implies (#[trigger] after.contains(m)
                        <==> in_degree@[m] == 0) by {
                        if m < i {
                            if before.contains(m) {
                                let p = choose|p: int| 0 <= p < before.len() && before[p] == m;
                                assert(after[p] == m);
                            }
                            if after.contains(m) {
                                let p = choose|p: int| 0 <= p < after.len() && after[p] == m;
                                assert(before[p] == m);
                            }
                        } else {
                            assert(after[before.len() as int] == i);
                        }
                    }
                }
            } else {
                assert(!before.contains(i as int));
            }
            i = i + 1;
        }
        let mut head: usize = 0;
        proof {
            assert(ints(order@).no_duplicates());
            lemma_distinct_below(ints(order@), n as int);
        }
        assert forall|m: int| 0 <= m < n implies (#[trigger] in_degree@[m]) as int == pending(
            g[m],
            ints(order@).take(0),
        ) by {
            lemma_pending_none(g[m], ints(order@).take(0));
        }
        while head < order.len()
            invariant
                n == self.deps@.len(),
                g == self@,
                es == rows(self.edges@),
                in_range(g),
                are_edges(g, es),
                in_degree@.len() == n,
                head <= order@.len(),
                order@.len() <= n,
                arrivals(g, ints(order@), ready, head as int),
                ints(order@).no_duplicates(),
                forall|m: int|
                    0 <= m < n ==> (#[trigger] in_degree@[m]) as int == pending(
                        g[m],
                        ints(order@).take(head as int),
                    ),
                forall|m: int|
                    0 <= m < n ==> (#[trigger] ints(order@).contains(m) <==> in_degree@[m] == 0),
            decreases n - head,
        {
            let i: usize = order[head];
            let ghost h = head as int;
            let ghost done = ints(order@).take(h);
            let ghost now = i as int;
            assert(ints(order@)[h] == now);
            assert(!done.contains(now));
            let mut t: usize = 0;
            proof {
                assert(es[now].take(0) =~= Seq::<int>::empty());
                assert(arrivals(g, ints(order@), ready, h + 1));
            }
            while t < self.edges[i].len()
                invariant
                    n == self.deps@.len(),
                    g == self@,
                    es == rows(self.edges@),
                    in_range(g),
                    are_edges(g, es),
                    in_degree@.len() == n,
                    0 <= now < n,
                    now == i,
                    h == head,
                    h < order@.len(),
                    order@.len() <= n,
                    t <= es[now].len(),
                    ints(order@).take(h) == done,
                    ints(order@)[h] == now,
                    !done.contains(now),
                    arrivals(g, ints(order@), ready, h + 1),
                    ints(order@).no_duplicates(),
                    forall|p: int|
                        #![trigger ints(order@)[p]]
                        0 <= p < order@.len() && ready[p] == h ==> t > 0 && ints(order@)[p]
                            <= es[now][t - 1],
                    forall|m: int|
                        0 <= m < n ==> (#[trigger] in_degree@[m]) as int + occurrences(
                            es[now].take(t as int),
                            m,
                        ) == pending(g[m], done),
                    forall|m: int|
                        0 <= m < n ==> (#[trigger] ints(order@).contains(m) <==> in_degree@[m]
                            == 0),
                decreases es[now].len() - t,
            {
                let j: usize = self.edges[i][t];
                let ghost before = ints(order@);
                proof {
                    assert(es[now][t as int] == j as int);
                    lemma_occurrences_prefix(es[now], t as int, j as int);
                    lemma_occurrences_prefix(es[now], t + 1, j as int);
                    lemma_pending_step(g[j as int], done, now);
                    assert(occurrences(es[now], j as int) == occurrences(g[j as int], now));
                    assert(es[now].take(t + 1) =~= es[now].take(t as int).push(j as int));
                    assert forall|m: int| 0 <= m < n implies #[trigger] occurrences(
                        es[now].take(t + 1),
                        m,
                    ) == occurrences(es[now].take(t as int), m) + if m == j {
                        1nat
                    } else {
                        0nat
                    } by {
                        lemma_occurrences_push(es[now].take(t as int), j as int, m);
                    }
                    assert(in_degree@[j as int] > 0);
                    assert(!before.contains(j as int));
                }
                let left: usize = in_degree[j] - 1;
                in_degree[j] = left;
                if left == 0 {
                    order.push(j);
                    proof {
                        let after = ints(order@);
                        assert(after =~= before.push(j as int));
                        assert(pending(g[j as int], done.push(now)) == 0);
                        lemma_pending_none(g[j as int], done.push(now));
                        assert(occurrences(g[j as int], now) > 0);
                        lemma_occurrences_contains(g[j as int], now);
                        assert(before.take(h + 1) =~= done.push(now));
                        assert(ready_at(before, g[j as int], h)) by {
                            assert forall|k: int| 0 <= k < g[j as int].len() implies stands_before(
                                before,
                                #[trigger] g[j as int][k],
                                h + 1,
                            ) by {
                                assert(done.push(now).contains(g[j as int][k]));
                                let q = choose|q: int|
                                    0 <= q < done.push(now).len() && done.push(now)[q] == g[j as int][k];
                                assert(before.take(h + 1)[q] == before[q]);
                            }
                        }
                        assert forall|p: int|
                            #![trigger before[p]]
                            0 <= p < before.len() implies ready[p] < h || (ready[p] == h
                            && before[p] < j as int) by {
                            assert(before[p] != j as int);
                            if ready[p] == h {
                                assert(es[now][t - 1] <= es[now][t as int]);
                            }
                        }
                        lemma_arrival(g, before, ready, h + 1, j as int, h);
                        ready = ready.push(h);
                        assert(after.no_duplicates());
                        assert(after.take(h) =~= before.take(h));
                        lemma_distinct_below(after, n as int);
                    }
                }
                proof {
                    let after = ints(order@);
                    assert forall|m: int| 0 <= m < n implies (#[trigger] after.contains(m)
                        <==> in_degree@[m] == 0) by {
                        if before.contains(m) {
                            let p = choose|p: int| 0 <= p < before.len() && before[p] == m;
                            assert(after[p] == m);
                        }
                        if m != j && after.contains(m) {
                            let p = choose|p: int| 0 <= p < after.len() && after[p] == m;
                            assert(before[p] == m);
                        }
                        if left == 0 && m == j {
                            assert(after[before.len() as int] == m);
                        }
                    }
                    assert forall|p: int|
                        #![trigger after[p]]
                        0 <= p < order@.len() && ready[p] == h implies after[p]
                        <= es[now][t as int] by {
                        if p < before.len() {
                            assert(after[p] == before[p]);
                            assert(es[now][t - 1] <= es[now][t as int]);
                        }
                    }
                }
                t = t + 1;
            }
            proof {
                assert(es[now].take(t as int) =~= es[now]);
                assert(ints(order@).take(h + 1) =~= done.push(now));
                assert forall|m: int| 0 <= m < n implies (#[trigger] in_degree@[m]) as int
                    == pending(g[m], ints(order@).take(h + 1)) by {
                    lemma_pending_step(g[m], done, now);
                    assert(occurrences(es[now], m) == occurrences(g[m], now));
                }
            }
            head = head + 1;
        }
        let ghost all = ints(order@);
        assert(all.take(head as int) =~= all);
        if order.len() == n {
            proof {
                lemma_arrivals_schedule(g, all, ready, head as int);
                lemma_ordered_is_acyclic(g, all);
            }
            Some(order)
        } else {
            proof {
                let start = lemma_left_out(all, n as int);
                assert forall|j: int|
                    0 <= j < g.len() && !(#[trigger] all.contains(j)) implies exists|d: int|
                    depends_on(g, j, d) && !all.contains(d) by {
                    lemma_pending_none(g[j], all);
                    assert(in_degree@[j] as int == pending(g[j], all));
                    let k = choose|k: int|
                        0 <= k < g[j].len() && !all.contains(#[trigger] g[j][k]);
                    assert(depends_on(g, j, g[j][k]));
                }
                lemma_blocked_has_cycle(g, all, start);
            }
            None
        }
    }

    /// Marks stage `i` and everything that it reaches.
    fn descendants(&self, i: usize) -> (r: Vec<bool>)
        requires
            self.wf(),
            i < self@.len(),
        ensures
            r@.len() == self@.len(),
            forall|j: int|
                0 <= j < r@.len() ==> (#[trigger] r@[j] <==> j == i || reaches(self@, i as int, j)),
    {
        let n: usize = self.deps.len();
        let ghost g = self@;
        let ghost es = rows(self.edges@);
        let mut marks: Vec<bool> = none_marked(n);
        marks[i] = true;
        let mut stack: Vec<usize> = Vec::new();
        stack.push(i);
        assert(stack@[0] == i);
        while stack.len() > 0
            invariant
                n == self.deps@.len(),
                i < n,
                g == self@,
                es == rows(self.edges@),
                in_range(g),
                are_edges(g, es),
                marks@.len() == n,
                marks@[i as int],
                forall|j: int|
                    0 <= j < n && #[trigger] marks@[j] ==> j == i || reaches(g, i as int, j),
                forall|k: int|
                    0 <= k < stack@.len() ==> (#[trigger] stack@[k]) < n && marks@[stack@[k] as int],
                forall|u: int, v: int|
                    #![trigger depends_on(g, v, u)]
                    0 <= u < n && marks@[u] && depends_on(g, v, u) ==> marks@[v]
                        || stack@.contains(u as usize),
            decreases unmarked(marks@), stack@.len(),
        {
            let ghost whole = stack@;
            let node: usize = stack[stack.len() - 1];
            stack.pop();
            assert(whole =~= stack@.push(node));
            assert(whole[stack@.len() as int] == node);
            assert forall|k: int| 0 <= k < stack@.len() implies (#[trigger] stack@[k]) < n
                && marks@[stack@[k] as int] by {
                assert(stack@[k] == whole[k]);
            }
            let ghost marks0 = marks@;
            let ghost rest = stack@;
            let mut t: usize = 0;
            assert forall|u: int, v: int|
                #![trigger depends_on(g, v, u)]
                0 <= u < n && u != node && marks@[u] && depends_on(g, v, u) implies marks@[v]
                || rest.contains(u as usize) by {
                if !marks@[v] {
                    let k = choose|k: int| 0 <= k < whole.len() && whole[k] == u as usize;
                    assert(rest[k] == u as usize);
                }
            }
            while t < self.edges[node].len()
                invariant
                    n == self.deps@.len(),
                    i < n,
                    node < n,
                    g == self@,
                    es == rows(self.edges@),
                    in_range(g),
                    are_edges(g, es),
                    t <= es[node as int].len(),
                    marks@.len() == n,
                    marks@[i as int],
                    marks@[node as int],
                    forall|j: int|
                        0 <= j < n && #[trigger] marks@[j] ==> j == i || reaches(g, i as int, j),
                    forall|k: int|
                        0 <= k < stack@.len() ==> (#[trigger] stack@[k]) < n
                            && marks@[stack@[k] as int],
                    forall|u: int, v: int|
                        #![trigger depends_on(g, v, u)]
                        0 <= u < n && u != node && marks@[u] && depends_on(g, v, u) ==> marks@[v]
                            || stack@.contains(u as usize),
                    forall|a: int| 0 <= a < t ==> marks@[#[trigger] es[node as int][a]],
                    unmarked(marks@) < unmarked(marks0) || (marks@ == marks0 && stack@ == rest),
                decreases es[node as int].len() - t,
            {
                let next: usize = self.edges[node][t];
                assert(es[node as int][t as int] == next as int);
                if !marks[next] {
                    let ghost before = marks@;
                    let ghost waiting = stack@;
                    marks[next] = true;
                    stack.push(next);
                    proof {
                        assert(es[node as int].contains(next as int));
                        lemma_edge_is_dependent(g, es, node as int, next as int);
                        if node == i {
                            lemma_reaches_edge(g, i as int, next as int);
                        } else {
                            lemma_reaches_extend(g, i as int, node as int, next as int);
                        }
                        lemma_unmarked_drops(before, next as int);
                        assert(marks@ =~= before.update(next as int, true));
                        assert forall|u: int, v: int|
                            #![trigger depends_on(g, v, u)]
                            0 <= u < n && u != node && marks@[u] && depends_on(g, v, u) implies marks@[v]
                            || stack@.contains(u as usize) by {
                            if u == next {
                                assert(stack@[waiting.len() as int] == next);
                            } else if waiting.contains(u as usize) {
                                let k = choose|k: int|
                                    0 <= k < waiting.len() && waiting[k] == u as usize;
                                assert(stack@[k] == u as usize);
                            }
                        }
                    }
                }
                t = t + 1;
            }
            assert forall|u: int, v: int|
                #![trigger depends_on(g, v, u)]
                0 <= u < n && marks@[u] && depends_on(g, v, u) implies marks@[v]
                || stack@.contains(u as usize) by {
                if u == node {
                    lemma_edge_is_dependent(g, es, u, v);
                    let a = choose|a: int| 0 <= a < es[u].len() && es[u][a] == v;
                    assert(marks@[es[node as int][a]]);
                }
            }
        }
        assert forall|j: int| 0 <= j < n && reaches(g, i as int, j) implies marks@[j] by {
            assert forall|u: int, v: int|
                #![trigger depends_on(g, v, u)]
                0 <= u < g.len() && marks@[u] && depends_on(g, v, u) implies marks@[v] by {
                assert(!stack@.contains(u as usize));
            }
            lemma_closed_marks(g, marks@, i as int, j);
        }
        marks
    }

    /// Marks stage `i` and everything that reaches it.
    fn ancestors(&self, order: &Vec<usize>, i: usize) -> (r: Vec<bool>)
        requires
            self.wf(),
            is_topological(self@, ints(order@)),
            i < self@.len(),
        ensures
            r@.len() == self@.len(),
            forall|j: int|
                0 <= j < r@.len() ==> (#[trigger] r@[j] <==> j == i || reaches(self@, j, i as int)),
    {
        let n: usize = self.deps.len();
        let ghost g = self@;
        let ghost es = rows(self.edges@);
        let ghost all = ints(order@);
        let mut marks: Vec<bool> = none_marked(n);
        marks[i] = true;
        let mut p: usize = n;
        while p > 0
            invariant
                n == self.deps@.len(),
                i < n,
                p <= n,
                g == self@,
                es == rows(self.edges@),
                in_range(g),
                are_edges(g, es),
                all == ints(order@),
                is_topological(g, all),
                marks@.len() == n,
                forall|q: int|
                    #![trigger all[q]]
                    p <= q < n ==> (marks@[all[q]] <==> all[q] == i || reaches(
                        g,
                        all[q],
                        i as int,
                    )),
                forall|q: int| #![trigger all[q]] 0 <= q < p ==> (marks@[all[q]] <==> all[q] == i),
            decreases p,
        {
            p = p - 1;
            let node: usize = order[p];
            assert(all[p as int] == node as int);
            let mut found: bool = false;
            let mut t: usize = 0;
            while t < self.edges[node].len()
                invariant
                    n == self.deps@.len(),
                    node < n,
                    es == rows(self.edges@),
                    in_range(es),
                    es.len() == n,
                    marks@.len() == n,
                    t <= es[node as int].len(),
                    found <==> exists|a: int| 0 <= a < t && marks@[#[trigger] es[node as int][a]],
                decreases es[node as int].len() - t,
            {
                let next: usize = self.edges[node][t];
                assert(es[node as int][t as int] == next as int);
                if marks[next] {
                    found = true;
                }
                t = t + 1;
            }
            let ghost before = marks@;
            proof {
                if found {
                    let a = choose|a: int|
                        0 <= a < t && before[#[trigger] es[node as int][a]];
                    let next = es[node as int][a];
                    lemma_edge_is_dependent(g, es, node as int, next);
                    lemma_reaches_edge(g, node as int, next);
                    let q = lemma_position(g, all, next);
                    lemma_reaches_ordered(g, all, p as int, q);
                    if next != i {
                        lemma_reaches_transitive(g, node as int, next, i as int);
                    }
                }
                if reaches(g, node as int, i as int) {
                    let d = lemma_reaches_first(g, node as int, i as int);
                    lemma_edge_is_dependent(g, es, node as int, d);
                    let a = choose|a: int| 0 <= a < es[node as int].len() && es[node as int][a] == d;
                    let q = lemma_position(g, all, d);
                    lemma_reaches_edge(g, node as int, d);
                    lemma_reaches_ordered(g, all, p as int, q);
                    assert(before[es[node as int][a]]);
                }
            }
            if found {
                marks[node] = true;
            }
            assert forall|q: int| #![trigger all[q]] 0 <= q < n && q != p implies marks@[all[q]]
                == before[all[q]] by {
                assert(all[q] != all[p as int]);
            }
        }
        assert forall|j: int| 0 <= j < n implies (#[trigger] marks@[j] <==> j == i || reaches(
            g,
            j,
            i as int,
        )) by {
            let q = lemma_position(g, all, j);
            assert(all[q] == j);
        }
        marks
    }

    /// The first stage that is not ordered against stage `i`, if there is one.
    pub fn first_unordered(&self, order: &Vec<usize>, i: usize) -> (r: Option<usize>)
        requires
            self.wf(),
            is_topological(self@, ints(order@)),
            i < self@.len(),
        ensures
            match r {
                Some(j) => is_first_unordered(self@, i as int, j as int),
                None => forall|j: int|
                    0 <= j < self@.len() ==> #[trigger] comparable(self@, i as int, j),
            },
    {
        let n: usize = self.deps.len();
        let below: Vec<bool> = self.descendants(i);
        let above: Vec<bool> = self.ancestors(order, i);
        let mut j: usize = 0;
        while j < n
            invariant
                n == self.deps@.len(),
                n == self@.len(),
                i < n,
                j <= n,
                below@.len() == n,
                above@.len() == n,
                forall|k: int|
                    0 <= k < n ==> (#[trigger] below@[k] <==> k == i || reaches(
                        self@,
                        i as int,
                        k,
                    )),
                forall|k: int|
                    0 <= k < n ==> (#[trigger] above@[k] <==> k == i || reaches(
                        self@,
                        k,
                        i as int,
                    )),
                forall|k: int| 0 <= k < j ==> #[trigger] comparable(self@, i as int, k),
            decreases n - j,
        {
            if !below[j] && !above[j] {
                return Some(j);
            }
            j = j + 1;
        }
        None
    }

    /// The leaves of the graph, by rising number.
    pub fn leaves(&self) -> (r: Vec<usize>)
        requires
            self.wf(),
        ensures
            are_leaves(self@, ints(r@)),
    {
        let n: usize = self.deps.len();
        let ghost g = self@;
        let ghost es = rows(self.edges@);
        let mut found: Vec<usize> = Vec::new();
        let mut i: usize = 0;
        while i < n
            invariant
                n == self.deps@.len(),
                i <= n,
                g == self@,
                es == rows(self.edges@),
                are_edges(g, es),
                forall|a: int, b: int|
                    #![trigger found@[a], found@[b]]
                    0 <= a < b < found@.len() ==> found@[a] < found@[b],
                forall|a: int| 0 <= a < found@.len() ==> (#[trigger] found@[a]) < i,
                forall|k: int|
                    0 <= k < i ==> (#[trigger] ints(found@).contains(k) <==> is_leaf(g, k)),
            decreases n - i,
        {
            let ghost before = ints(found@);
            proof {
                assert forall|j: int| #[trigger] depends_on(g, j, i as int) implies es[i as int].len()
                    > 0 by {
                    lemma_edge_is_dependent(g, es, i as int, j);
                }
                if es[i as int].len() > 0 {
                    let j = es[i as int][0];
                    lemma_edge_is_dependent(g, es, i as int, j);
                    assert(depends_on(g, j, i as int));
                }
            }
            if self.edges[i].len() == 0 {
                found.push(i);
                assert(ints(found@)[before.len() as int] == i);
            }
            proof {
                let after = ints(found@);
                assert forall|k: int| 0 <= k < i + 1 implies (#[trigger] after.contains(k)
                    <==> is_leaf(g, k)) by {
                    if before.contains(k) {
                        let a = choose|a: int| 0 <= a < before.len() && before[a] == k;
                        assert(after[a] == k);
                    }
                    if after.contains(k) && k < i {
                        let a = choose|a: int| 0 <= a < after.len() && after[a] == k;
                        assert(before[a] == k);
                    }
                }
            }
            i = i + 1;
        }
        assert forall|k: int| #[trigger] ints(found@).contains(k) <==> is_leaf(g, k) by {
            if ints(found@).contains(k) {
                let a = choose|a: int| 0 <= a < found@.len() && ints(found@)[a] == k;
                assert(found@[a] < n);
            }
        }
        found
    }
}

/// `n` marks, none of them set.
fn none_marked(n: usize) -> (r: Vec<bool>)
    ensures
        r@ == Seq::new(n as nat, |k: int| false),
{
    let mut marks: Vec<bool> = Vec::new();
    while marks.len() < n
        invariant
            marks@.len() <= n,
            forall|k: int| 0 <= k < marks@.len() ==> !#[trigger] marks@[k],
        decreases n - marks@.len(),
    {
        marks.push(false);
    }
    assert(marks@ =~= Seq::new(n as nat, |k: int| false));
    marks
}

/// Machine integers stand for the same numbers, one for one.
pub proof fn law_numbers_are_kept(v: Seq<usize>)
    ensures
        ints(v).len() == v.len(),
        forall|k: int| 0 <= k < v.len() ==> #[trigger] ints(v)[k] == v[k],
{
}

/// One vector of dependencies per stage writes down the graph in which each stage depends
/// on just these.
pub proof fn law_rows_are_dependencies(v: Seq<Vec<usize>>, j: int, k: int)
    requires
        0 <= j < v.len(),
        0 <= k < v[j]@.len(),
    ensures
        rows(v).len() == v.len(),
        rows(v)[j].len() == v[j]@.len(),
        rows(v)[j][k] == v[j]@[k],
        depends_on(rows(v), j, v[j]@[k] as int),
{
    assert(rows(v)[j][k] == v[j]@[k] as int);
}

/// One stage reaches another exactly if there is a chain of stages from the one to the
/// other, in which each stage but the first lists the one before it.
pub proof fn law_reaching_is_by_chains(g: Seq<Seq<int>>, a: int, b: int)
    ensures
        reaches(g, a, b) <==> exists|chain: Seq<int>|
            {
                &&& chain.len() >= 2
                &&& chain[0] == a
                &&& #[trigger] chain[chain.len() - 1] == b
                &&& forall|k: int|
                    #![trigger chain[k]]
                    0 < k < chain.len() ==> 0 <= chain[k] < g.len() && exists|m: int|
                        0 <= m < g[chain[k]].len() && #[trigger] g[chain[k]][m] == chain[k - 1]
            },
{
    if reaches(g, a, b) {
        let path = choose|path: Seq<int>| joins(g, path, a, b);
        assert forall|k: int| #![trigger path[k]] 0 < k < path.len() implies 0 <= path[k] < g.len()
            && exists|m: int|
            0 <= m < g[path[k]].len() && #[trigger] g[path[k]][m] == path[k - 1] by {
            assert(depends_on(g, path[k], path[k - 1]));
            let m = choose|m: int| 0 <= m < g[path[k]].len() && g[path[k]][m] == path[k - 1];
            assert(g[path[k]][m] == path[k - 1]);
        }
        assert(path[path.len() - 1] == b);
    }
    if exists|chain: Seq<int>|
        {
            &&& chain.len() >= 2
            &&& chain[0] == a
            &&& #[trigger] chain[chain.len() - 1] == b
            &&& forall|k: int|
                #![trigger chain[k]]
                0 < k < chain.len() ==> 0 <= chain[k] < g.len() && exists|m: int|
                    0 <= m < g[chain[k]].len() && #[trigger] g[chain[k]][m] == chain[k - 1]
        } {
        let chain = choose|chain: Seq<int>|
            {
                &&& chain.len() >= 2
                &&& chain[0] == a
                &&& #[trigger] chain[chain.len() - 1] == b
                &&& forall|k: int|
                    #![trigger chain[k]]
                    0 < k < chain.len() ==> 0 <= chain[k] < g.len() && exists|m: int|
                        0 <= m < g[chain[k]].len() && #[trigger] g[chain[k]][m] == chain[k - 1]
            };
        assert forall|k: int| #![trigger chain[k]] 0 < k < chain.len() implies depends_on(
            g,
            chain[k],
            chain[k - 1],
        ) by {
            assert(0 <= chain[k] < g.len());
        }
        assert(joins(g, chain, a, b));
    }
}

/// The leaves are the stages that no stage lists, by rising number.
pub proof fn law_leaves_are_listed_by_nobody(g: Seq<Seq<int>>, leaves: Seq<int>, i: int)
    requires
        are_leaves(g, leaves),
        0 <= i < g.len(),
    ensures
        leaves.contains(i) <==> forall|j: int, k: int|
            #![trigger g[j][k]]
            0 <= j < g.len() && 0 <= k < g[j].len() ==> g[j][k] != i,
        forall|a: int, b: int|
            #![trigger leaves[a], leaves[b]]
            0 <= a < b < leaves.len() ==> leaves[a] < leaves[b],
        forall|a: int| 0 <= a < leaves.len() ==> 0 <= #[trigger] leaves[a] < g.len(),
{
    assert forall|a: int| 0 <= a < leaves.len() implies 0 <= #[trigger] leaves[a] < g.len() by {
        assert(leaves.contains(leaves[a]));
    }
    if leaves.contains(i) {
        assert(is_leaf(g, i));
        assert forall|j: int, k: int|
            #![trigger g[j][k]]
            0 <= j < g.len() && 0 <= k < g[j].len() implies g[j][k] != i by {
            assert(!depends_on(g, j, i));
        }
    }
    if forall|j: int, k: int|
        #![trigger g[j][k]]
        0 <= j < g.len() && 0 <= k < g[j].len() ==> g[j][k] != i {
        assert forall|j: int| !#[trigger] depends_on(g, j, i) by {
            if depends_on(g, j, i) {
                let k = choose|k: int| 0 <= k < g[j].len() && g[j][k] == i;
                assert(g[j][k] != i);
            }
        }
        assert(is_leaf(g, i));
    }
}

/// In a topological order every stage stands once, and whatever it lists stands before it.
pub proof fn law_dependencies_stand_first(g: Seq<Seq<int>>, order: Seq<int>, p: int, k: int)
    requires
        is_topological(g, order),
        0 <= p < order.len(),
        0 <= k < g[order[p]].len(),
    ensures
        order.len() == g.len(),
        forall|i: int| 0 <= i < g.len() ==> #[trigger] order.contains(i),
        forall|a: int, b: int|
            #![trigger order[a], order[b]]
            0 <= a < b < order.len() ==> order[a] != order[b],
        exists|q: int| 0 <= q < p && #[trigger] order[q] == g[order[p]][k],
{
    assert forall|i: int| 0 <= i < g.len() implies #[trigger] order.contains(i) by {
        let q = lemma_position(g, order, i);
        assert(order[q] == i);
    }
    assert(stands_before(order, g[order[p]][k], p));
    let q = choose|q: int| 0 <= q < p && #[trigger] order[q] == g[order[p]][k];
    assert(order[q] == g[order[p]][k]);
}

/// In a schedule a stage whose dependencies have all been taken by some time goes before a
/// stage that has to wait longer.
pub proof fn law_who_is_ready_first_goes_first(
    g: Seq<Seq<int>>,
    order: Seq<int>,
    p: int,
    q: int,
    k: int,
    last: int,
)
    requires
        is_schedule(g, order),
        0 <= p < order.len(),
        0 <= q < order.len(),
        0 <= k < g[order[q]].len(),
        0 <= last < order.len(),
        order[last] == g[order[q]][k],
        forall|m: int|
            0 <= m < g[order[p]].len() ==> exists|w: int|
                0 <= w < last && order[w] == #[trigger] g[order[p]][m],
    ensures
        p < q,
{
    let mine = g[order[p]];
    let other = g[order[q]];
    assert forall|m: int| 0 <= m < mine.len() implies stands_before(
        order,
        #[trigger] mine[m],
        last,
    ) by {
        assert(g[order[p]][m] == mine[m]);
        let w = choose|w: int| 0 <= w < last && order[w] == mine[m];
        assert(order[w] == mine[m]);
    }
    assert forall|m: int| 0 <= m < other.len() implies stands_before(
        order,
        #[trigger] other[m],
        q,
    ) by {
        assert(stands_before(order, g[order[q]][m], q));
    }
    let r = lemma_ready_exists(order, mine, last, mine.len() as int);
    assert(mine.take(mine.len() as int) =~= mine);
    let s = lemma_ready_exists(order, other, q, other.len() as int);
    assert(other.take(other.len() as int) =~= other);
    assert(stands_before(order, other[k], s + 1));
    assert(last <= s);
    assert(ready_at(order, g[order[p]], r) && ready_at(order, g[order[q]], s));
    if q < p {
        assert(s < r || (s == r && order[q] < order[p]));
    }
}

/// In a schedule the stages without dependencies go by their numbers.
pub proof fn law_roots_go_by_number(g: Seq<Seq<int>>, order: Seq<int>, p: int, q: int)
    requires
        is_schedule(g, order),
        0 <= p < order.len(),
        0 <= q < order.len(),
        order[p] < order[q],
        g[order[p]].len() == 0,
        g[order[q]].len() == 0,
    ensures
        p < q,
{
    assert(ready_at(order, g[order[p]], -1));
    assert(ready_at(order, g[order[q]], -1));
}

/// In a schedule the stages of which the same one is the last dependency to be taken go by
/// their numbers.
pub proof fn law_who_is_ready_together_goes_by_number(
    g: Seq<Seq<int>>,
    order: Seq<int>,
    p: int,
    q: int,
    last: int,
)
    requires
        is_schedule(g, order),
        0 <= p < order.len(),
        0 <= q < order.len(),
        order[p] < order[q],
        0 <= last < order.len(),
        g[order[p]].contains(order[last]),
        g[order[q]].contains(order[last]),
        forall|m: int|
            0 <= m < g[order[p]].len() ==> exists|w: int|
                0 <= w <= last && order[w] == #[trigger] g[order[p]][m],
        forall|m: int|
            0 <= m < g[order[q]].len() ==> exists|w: int|
                0 <= w <= last && order[w] == #[trigger] g[order[q]][m],
    ensures
        p < q,
{
    assert(ready_at(order, g[order[p]], last)) by {
        assert forall|m: int| 0 <= m < g[order[p]].len() implies stands_before(
            order,
            #[trigger] g[order[p]][m],
            last + 1,
        ) by {
            let w = choose|w: int| 0 <= w <= last && order[w] == g[order[p]][m];
            assert(order[w] == g[order[p]][m]);
        }
    }
    assert(ready_at(order, g[order[q]], last)) by {
        assert forall|m: int| 0 <= m < g[order[q]].len() implies stands_before(
            order,
            #[trigger] g[order[q]][m],
            last + 1,
        ) by {
            let w = choose|w: int| 0 <= w <= last && order[w] == g[order[q]][m];
            assert(order[w] == g[order[q]][m]);
        }
    }
}

} // verus!
