//! A* search with a caller-supplied heuristic and edge cost.

use std::collections::{HashMap, HashSet};
use vstd::prelude::*;

use crate::graph::{vec_contains, StrategyGraph, StrategyNode};
use crate::paths::{edge, is_walk, is_walk_between, lemma_walk_reach_in, reach_in, reachable};

verus! {

broadcast use vstd::std_specs::hash::group_hash_axioms;

/// A* search node.
struct AStarNode {
    node_id: usize,
    g_cost: i64,
    f_cost: i64,
    path: Vec<usize>,
    /// What the edge-cost function gave for each step of `path`.
    step_costs: Ghost<Seq<i64>>,
    /// What the heuristic gave for `node_id`.
    estimate: Ghost<i64>,
}

/// A* search result.
#[derive(Debug, Clone)]
pub struct AStarResult {
    pub path: Vec<usize>,
    pub cost: i64,
    pub explored: usize,
}

/// The sum of a sequence of integers.
pub open spec fn seq_sum(s: Seq<i64>) -> int
    decreases s.len(),
{
    if s.len() == 0 {
        0
    } else {
        seq_sum(s.drop_last()) + s.last()
    }
}

/// `costs[i]` is a value `edge_cost` may give for the step from `path[i]` to `path[i + 1]`.
pub open spec fn step_costs_of<E: Fn(usize, usize) -> i64>(
    edge_cost: E,
    path: Seq<usize>,
    costs: Seq<i64>,
) -> bool {
    &&& costs.len() + 1 == path.len()
    &&& forall|i: int|
        0 <= i < costs.len() ==> call_ensures(edge_cost, (path[i], path[i + 1]), #[trigger] costs[i])
}

/// `cost` is the sum of values `edge_cost` may give along `path`.
pub open spec fn is_path_cost<E: Fn(usize, usize) -> i64>(
    edge_cost: E,
    path: Seq<usize>,
    cost: int,
) -> bool {
    exists|costs: Seq<i64>| step_costs_of(edge_cost, path, costs) && cost == seq_sum(costs)
}

/// `p` is a walk of `g` from `start` that visits no node twice, and `cs` are
/// values `edge_cost` may give for its steps.
pub open spec fn simple_walk_costs<E: Fn(usize, usize) -> i64>(
    g: Map<usize, StrategyNode>,
    start: usize,
    edge_cost: E,
    p: Seq<usize>,
    cs: Seq<i64>,
) -> bool {
    &&& is_walk_between(g, p, start, p.last())
    &&& p.no_duplicates()
    &&& step_costs_of(edge_cost, p, cs)
}

/// `p` is a walk of `g` from `start` that visits no node twice and reaches
/// `goal`, if at all, only at its end, and `cs` are values `edge_cost` may give
/// for its steps: the walks along which A* sums costs.
pub open spec fn search_walk_costs<E: Fn(usize, usize) -> i64>(
    g: Map<usize, StrategyNode>,
    start: usize,
    goal: usize,
    edge_cost: E,
    p: Seq<usize>,
    cs: Seq<i64>,
) -> bool {
    &&& simple_walk_costs(g, start, edge_cost, p, cs)
    &&& forall|i: int| 0 <= i < p.len() - 1 ==> #[trigger] p[i] != goal
}

/// No cost or estimate sum that A* from `start` to `goal` computes can
/// overflow: along every walk from `start` that visits no node twice and
/// reaches `goal` only at its end, the summed step costs, and that sum plus an
/// estimate for the walk's last node, fit in an `i64`.
pub open spec fn sums_fit<H: Fn(usize) -> i64, E: Fn(usize, usize) -> i64>(
    g: Map<usize, StrategyNode>,
    start: usize,
    goal: usize,
    heuristic: H,
    edge_cost: E,
) -> bool {
    forall|p: Seq<usize>, cs: Seq<i64>|
        #[trigger] search_walk_costs(g, start, goal, edge_cost, p, cs) ==> {
            &&& i64::MIN <= seq_sum(cs) <= i64::MAX
            &&& forall|h: i64|
                #[trigger] call_ensures(heuristic, (p.last(),), h) ==> i64::MIN <= seq_sum(cs) + h
                    <= i64::MAX
        }
}

/// Every walk from `start` that visits no node twice and reaches `goal` only
/// at its end costs less than `i64::MAX`, the value that stands for "no cost
/// known yet".
pub open spec fn costs_below_max<E: Fn(usize, usize) -> i64>(
    g: Map<usize, StrategyNode>,
    start: usize,
    goal: usize,
    edge_cost: E,
) -> bool {
    forall|p: Seq<usize>, cs: Seq<i64>|
        #[trigger] search_walk_costs(g, start, goal, edge_cost, p, cs) ==> seq_sum(cs) < i64::MAX
}

/// The least cost under `ec` of a walk from `start` to `v` is `d`.
pub open spec fn least_cost(
    g: Map<usize, StrategyNode>,
    ec: spec_fn(usize, usize) -> int,
    start: usize,
    v: usize,
    d: int,
) -> bool {
    &&& exists|q: Seq<usize>| #[trigger] is_walk_between(g, q, start, v) && cost_along(ec, q) == d
    &&& forall|q: Seq<usize>| #[trigger] is_walk_between(g, q, start, v) ==> d <= cost_along(ec, q)
}

/// With costs `ec` and estimates `hf`, the sums A* computes when it expands a
/// node other than `goal` fit in an `i64`: the node's least cost plus the cost
/// of an edge out of it, and that plus the estimate for the edge's far end.
pub open spec fn least_sums_fit(
    g: Map<usize, StrategyNode>,
    start: usize,
    goal: usize,
    hf: spec_fn(usize) -> int,
    ec: spec_fn(usize, usize) -> int,
) -> bool {
    forall|u: usize, v: usize, d: int|
        #[trigger] edge(g, u, v) && u != goal && #[trigger] least_cost(g, ec, start, u, d) ==> {
            &&& i64::MIN <= d + ec(u, v) <= i64::MAX
            &&& i64::MIN <= d + ec(u, v) + hf(v) <= i64::MAX
        }
}

/// No sum A* from `start` to `goal` computes can overflow: either the sums
/// along every walk it could build fit (`sums_fit`), or the heuristic is
/// consistent with fixed costs, under which A* expands each node at its least
/// cost, and the sums from least costs fit (`least_sums_fit`).
pub open spec fn search_sums_fit<H: Fn(usize) -> i64, E: Fn(usize, usize) -> i64>(
    g: Map<usize, StrategyNode>,
    start: usize,
    goal: usize,
    heuristic: H,
    edge_cost: E,
) -> bool {
    ||| sums_fit(g, start, goal, heuristic, edge_cost)
    ||| exists|hf: spec_fn(usize) -> int, ec: spec_fn(usize, usize) -> int| #[trigger]
        consistency_premise(g, heuristic, edge_cost, hf, ec) && least_sums_fit(g, start, goal, hf, ec)
}

/// Every value `edge_cost` may give for an edge of `g` is `ec` of that edge.
pub open spec fn costs_by<E: Fn(usize, usize) -> i64>(
    g: Map<usize, StrategyNode>,
    edge_cost: E,
    ec: spec_fn(usize, usize) -> int,
) -> bool {
    forall|a: usize, b: usize, c: i64|
        edge(g, a, b) && #[trigger] call_ensures(edge_cost, (a, b), c) ==> c == ec(a, b)
}

/// The summed cost `ec` gives the steps of a walk.
pub open spec fn cost_along(ec: spec_fn(usize, usize) -> int, p: Seq<usize>) -> int
    decreases p.len(),
{
    if p.len() <= 1 {
        0
    } else {
        cost_along(ec, p.drop_last()) + ec(p[p.len() - 2], p[p.len() - 1])
    }
}

/// The heuristic never overestimates, counted from its value at `goal`: every
/// value it may give for a node, less every value it may give for `goal`, is
/// at most the cost of every walk from that node to `goal`. A heuristic that
/// gives `0` at `goal` and never more than the cost of a walk to `goal` meets
/// this, and so does every consistent one (`law_consistent_is_admissible`).
pub open spec fn admissible<H: Fn(usize) -> i64>(
    g: Map<usize, StrategyNode>,
    heuristic: H,
    ec: spec_fn(usize, usize) -> int,
    goal: usize,
) -> bool {
    forall|v: usize, h: i64, hg: i64, q: Seq<usize>|
        #[trigger] call_ensures(heuristic, (v,), h) && #[trigger] call_ensures(heuristic, (goal,), hg)
            && #[trigger] is_walk_between(g, q, v, goal) ==> h - hg <= cost_along(ec, q)
}

/// The heuristic gives `hf` of each node of `g`, and across every edge it drops
/// by at most the edge's cost under `ec`.
pub open spec fn consistent<H: Fn(usize) -> i64>(
    g: Map<usize, StrategyNode>,
    heuristic: H,
    hf: spec_fn(usize) -> int,
    ec: spec_fn(usize, usize) -> int,
) -> bool {
    &&& forall|v: usize, h: i64| g.contains_key(v) && #[trigger] call_ensures(heuristic, (v,), h) ==> h == hf(v)
    &&& forall|u: usize, v: usize| #[trigger] edge(g, u, v) ==> hf(u) <= ec(u, v) + hf(v)
}

/// Edge costs fixed by `ec` and never negative, and a consistent heuristic.
pub open spec fn consistency_premise<H: Fn(usize) -> i64, E: Fn(usize, usize) -> i64>(
    g: Map<usize, StrategyNode>,
    heuristic: H,
    edge_cost: E,
    hf: spec_fn(usize) -> int,
    ec: spec_fn(usize, usize) -> int,
) -> bool {
    &&& costs_by(g, edge_cost, ec)
    &&& forall|a: usize, b: usize| #[trigger] edge(g, a, b) ==> ec(a, b) >= 0
    &&& consistent(g, heuristic, hf, ec)
}

/// Along a walk, a consistent heuristic drops by at most the walk's cost.
proof fn lemma_consistent_along<H: Fn(usize) -> i64>(
    g: Map<usize, StrategyNode>,
    heuristic: H,
    hf: spec_fn(usize) -> int,
    ec: spec_fn(usize, usize) -> int,
    q: Seq<usize>,
)
    requires
        consistent(g, heuristic, hf, ec),
        is_walk(g, q),
    ensures
        hf(q[0]) <= cost_along(ec, q) + hf(q.last()),
    decreases q.len(),
{
    if q.len() > 1 {
        let r = q.drop_last();
        assert(is_walk(g, r)) by {
            assert forall|i: int| 0 <= i < r.len() implies g.contains_key(#[trigger] r[i]) by {
                assert(g.contains_key(q[i]));
            }
            assert forall|i: int| 0 <= i < r.len() - 1 implies edge(g, #[trigger] r[i], r[i + 1]) by {
                assert(edge(g, q[i], q[i + 1]));
            }
        }
        lemma_consistent_along(g, heuristic, hf, ec, r);
        assert(edge(g, q[q.len() - 2], q[q.len() - 1]));
    }
}

/// A consistent heuristic, with edge costs fixed and never negative, is
/// admissible towards every node: the premise under which A* finds a cheapest
/// walk holds for every goal.
pub proof fn law_consistent_is_admissible<H: Fn(usize) -> i64, E: Fn(usize, usize) -> i64>(
    g: Map<usize, StrategyNode>,
    heuristic: H,
    edge_cost: E,
    hf: spec_fn(usize) -> int,
    ec: spec_fn(usize, usize) -> int,
    goal: usize,
)
    requires
        consistency_premise(g, heuristic, edge_cost, hf, ec),
    ensures
        optimality_premise(g, heuristic, edge_cost, ec, goal),
{
    assert forall|v: usize, h: i64, hg: i64, q: Seq<usize>|
        #[trigger] call_ensures(heuristic, (v,), h) && #[trigger] call_ensures(heuristic, (goal,), hg)
            && #[trigger] is_walk_between(g, q, v, goal) implies h - hg <= cost_along(ec, q) by {
        lemma_consistent_along(g, heuristic, hf, ec, q);
        assert(g.contains_key(q[0]));
        assert(g.contains_key(q[q.len() - 1]));
    }
}

/// Edge costs fixed by `ec` and never negative, and an admissible heuristic.
pub open spec fn optimality_premise<H: Fn(usize) -> i64, E: Fn(usize, usize) -> i64>(
    g: Map<usize, StrategyNode>,
    heuristic: H,
    edge_cost: E,
    ec: spec_fn(usize, usize) -> int,
    goal: usize,
) -> bool {
    &&& costs_by(g, edge_cost, ec)
    &&& forall|a: usize, b: usize| #[trigger] edge(g, a, b) ==> ec(a, b) >= 0
    &&& admissible(g, heuristic, ec, goal)
}

/// Every value `edge_cost` may give for an edge of `g` is non-negative.
spec fn nonneg_steps<E: Fn(usize, usize) -> i64>(g: Map<usize, StrategyNode>, edge_cost: E) -> bool {
    forall|a: usize, b: usize, c: i64|
        edge(g, a, b) && #[trigger] call_ensures(edge_cost, (a, b), c) ==> c >= 0
}

/// The best-known cost of `w`, or `i64::MAX` if none is known.
spec fn known(gs: Map<usize, i64>, w: usize) -> int {
    if gs.contains_key(w) {
        gs[w] as int
    } else {
        i64::MAX as int
    }
}

/// The sum, over the nodes of `keys`, of how far their best-known cost lies
/// above `i64::MIN`.
spec fn potential(keys: Seq<usize>, gs: Map<usize, i64>) -> int
    decreases keys.len(),
{
    if keys.len() == 0 {
        0
    } else {
        potential(keys.drop_last(), gs) + (gs[keys.last()] - i64::MIN)
    }
}

/// What every improvement of a best-known cost lowers: the potential of the
/// nodes with a known cost, plus a full `i64` range for each other node.
spec fn measure(n: nat, keys: Seq<usize>, gs: Map<usize, i64>) -> int {
    potential(keys, gs) + (n - keys.len()) * 0x1_0000_0000_0000_0000int
}

proof fn lemma_potential_nonneg(keys: Seq<usize>, gs: Map<usize, i64>)
    ensures
        potential(keys, gs) >= 0,
    decreases keys.len(),
{
    if keys.len() > 0 {
        lemma_potential_nonneg(keys.drop_last(), gs);
    }
}

/// Changing the cost of one node changes the potential by the difference.
proof fn lemma_potential_update(keys: Seq<usize>, gs: Map<usize, i64>, k: usize, x: i64)
    requires
        keys.no_duplicates(),
    ensures
        keys.contains(k) ==> potential(keys, gs.insert(k, x)) == potential(keys, gs) + x - gs[k],
        !keys.contains(k) ==> potential(keys, gs.insert(k, x)) == potential(keys, gs),
    decreases keys.len(),
{
    if keys.len() > 0 {
        let r = keys.drop_last();
        assert(r.no_duplicates()) by {
            assert forall|i: int, j: int| 0 <= i < j < r.len() implies r[i] != r[j] by {
                assert(keys[i] == r[i] && keys[j] == r[j]);
            }
        }
        lemma_potential_update(r, gs, k, x);
        if keys.last() == k {
            assert(!r.contains(k)) by {
                if r.contains(k) {
                    let i = choose|i: int| 0 <= i < r.len() && r[i] == k;
                    assert(keys[i] == keys[keys.len() - 1]);
                }
            }
        } else {
            assert(keys.contains(k) ==> r.contains(k)) by {
                if keys.contains(k) {
                    let i = choose|i: int| 0 <= i < keys.len() && keys[i] == k;
                    assert(r[i] == k);
                }
            }
            assert(r.contains(k) ==> keys.contains(k)) by {
                if r.contains(k) {
                    let i = choose|i: int| 0 <= i < r.len() && r[i] == k;
                    assert(keys[i] == k);
                }
            }
        }
    }
}

/// A sequence of distinct nodes of a finite set is no longer than the set.
proof fn lemma_distinct_len(s: Seq<usize>, d: Set<usize>)
    requires
        s.no_duplicates(),
        d.finite(),
        forall|i: int| 0 <= i < s.len() ==> d.contains(#[trigger] s[i]),
    ensures
        s.len() <= d.len(),
{
    s.unique_seq_to_set();
    assert(s.to_set().subset_of(d)) by {
        assert forall|x: usize| s.to_set().contains(x) implies d.contains(x) by {
            let i = choose|i: int| 0 <= i < s.len() && s[i] == x;
        }
    }
    vstd::set_lib::lemma_len_subset(s.to_set(), d);
}

/// With costs fixed by `ec`, step costs recorded along a walk sum to its cost.
proof fn lemma_costs_sum<E: Fn(usize, usize) -> i64>(
    g: Map<usize, StrategyNode>,
    edge_cost: E,
    ec: spec_fn(usize, usize) -> int,
    p: Seq<usize>,
    cs: Seq<i64>,
)
    requires
        costs_by(g, edge_cost, ec),
        is_walk(g, p),
        step_costs_of(edge_cost, p, cs),
    ensures
        seq_sum(cs) == cost_along(ec, p),
    decreases p.len(),
{
    if p.len() > 1 {
        let q = p.drop_last();
        let ds = cs.drop_last();
        assert(step_costs_of(edge_cost, q, ds)) by {
            assert forall|i: int| 0 <= i < ds.len() implies call_ensures(edge_cost, (q[i], q[i + 1]), #[trigger] ds[i]) by {
                assert(call_ensures(edge_cost, (p[i], p[i + 1]), cs[i]));
            }
        }
        assert(is_walk(g, q)) by {
            assert forall|i: int| 0 <= i < q.len() implies g.contains_key(#[trigger] q[i]) by {
                assert(g.contains_key(p[i]));
            }
            assert forall|i: int| 0 <= i < q.len() - 1 implies edge(g, #[trigger] q[i], q[i + 1]) by {
                assert(edge(g, p[i], p[i + 1]));
            }
        }
        lemma_costs_sum(g, edge_cost, ec, q, ds);
        let n = cs.len() - 1;
        assert(call_ensures(edge_cost, (p[n], p[n + 1]), cs[n]));
        assert(edge(g, p[n], p[n + 1]));
    } else {
        assert(cs.len() == 0);
    }
}

/// Splitting a walk at position `j` splits its cost.
proof fn lemma_cost_split(ec: spec_fn(usize, usize) -> int, q: Seq<usize>, j: int)
    requires
        0 <= j < q.len(),
    ensures
        cost_along(ec, q) == cost_along(ec, q.take(j + 1)) + cost_along(ec, q.skip(j)),
    decreases q.len(),
{
    if j == q.len() - 1 {
        assert(q.take(j + 1) =~= q);
        assert(q.skip(j).len() == 1);
    } else {
        let r = q.drop_last();
        lemma_cost_split(ec, r, j);
        assert(r.take(j + 1) =~= q.take(j + 1));
        let s = q.skip(j);
        assert(s.drop_last() =~= r.skip(j));
        assert(s[s.len() - 2] == q[q.len() - 2] && s[s.len() - 1] == q[q.len() - 1]);
    }
}

/// A walk costs nothing negative when no edge does.
proof fn lemma_cost_nonneg(g: Map<usize, StrategyNode>, ec: spec_fn(usize, usize) -> int, q: Seq<usize>)
    requires
        forall|a: usize, b: usize| #[trigger] edge(g, a, b) ==> ec(a, b) >= 0,
        is_walk(g, q),
    ensures
        cost_along(ec, q) >= 0,
    decreases q.len(),
{
    if q.len() > 1 {
        let r = q.drop_last();
        assert(is_walk(g, r)) by {
            assert forall|i: int| 0 <= i < r.len() implies g.contains_key(#[trigger] r[i]) by {
                assert(g.contains_key(q[i]));
            }
            assert forall|i: int| 0 <= i < r.len() - 1 implies edge(g, #[trigger] r[i], r[i + 1]) by {
                assert(edge(g, q[i], q[i + 1]));
            }
        }
        lemma_cost_nonneg(g, ec, r);
        assert(edge(g, q[q.len() - 2], q[q.len() - 1]));
    }
}

/// A prefix and a suffix of a walk are walks.
proof fn lemma_walk_parts(g: Map<usize, StrategyNode>, q: Seq<usize>, j: int)
    requires
        is_walk(g, q),
        0 <= j < q.len(),
    ensures
        is_walk(g, q.take(j + 1)),
        is_walk(g, q.skip(j)),
{
    let a = q.take(j + 1);
    let b = q.skip(j);
    assert forall|i: int| 0 <= i < a.len() implies g.contains_key(#[trigger] a[i]) by {
        assert(g.contains_key(q[i]));
    }
    assert forall|i: int| 0 <= i < a.len() - 1 implies edge(g, #[trigger] a[i], a[i + 1]) by {
        assert(edge(g, q[i], q[i + 1]));
    }
    assert forall|i: int| 0 <= i < b.len() implies g.contains_key(#[trigger] b[i]) by {
        assert(g.contains_key(q[i + j]));
    }
    assert forall|i: int| 0 <= i < b.len() - 1 implies edge(g, #[trigger] b[i], b[i + 1]) by {
        assert(edge(g, q[i + j], q[i + j + 1]));
    }
}

/// Extending a walk from `start` that visits no node twice by an edge to a
/// node not on it gives such a walk again, with the step's cost appended.
proof fn lemma_extend_walk<E: Fn(usize, usize) -> i64>(
    g: Map<usize, StrategyNode>,
    start: usize,
    goal: usize,
    edge_cost: E,
    p: Seq<usize>,
    cs: Seq<i64>,
    w: usize,
    c: i64,
)
    requires
        search_walk_costs(g, start, goal, edge_cost, p, cs),
        p.last() != goal,
        edge(g, p.last(), w),
        !p.contains(w),
        call_ensures(edge_cost, (p.last(), w), c),
    ensures
        search_walk_costs(g, start, goal, edge_cost, p.push(w), cs.push(c)),
        seq_sum(cs.push(c)) == seq_sum(cs) + c,
        p.push(w).last() == w,
{
    let np = p.push(w);
    let ncs = cs.push(c);
    assert(ncs.drop_last() =~= cs);
    assert forall|i: int| 0 <= i < np.len() implies g.contains_key(#[trigger] np[i]) by {
        if i < p.len() {
            assert(g.contains_key(p[i]));
        }
    }
    assert forall|i: int| 0 <= i < np.len() - 1 implies edge(g, #[trigger] np[i], np[i + 1]) by {
        if i < p.len() - 1 {
            assert(edge(g, p[i], p[i + 1]));
        }
    }
    assert forall|i: int, j: int| 0 <= i < j < np.len() implies np[i] != np[j] by {
        if j == np.len() - 1 {
            assert(p[i] == np[i]);
        }
    }
    assert forall|i: int| 0 <= i < ncs.len() implies call_ensures(edge_cost, (np[i], np[i + 1]), #[trigger] ncs[i]) by {
        if i < cs.len() {
            assert(call_ensures(edge_cost, (p[i], p[i + 1]), cs[i]));
        }
    }
    assert forall|i: int| 0 <= i < np.len() - 1 implies #[trigger] np[i] != goal by {
        assert(np[i] == p[i]);
        if i == p.len() - 1 {
            assert(p[i] == p.last());
        }
    }
}

/// The position of an entry of least `f_cost`.
fn min_f_index(open: &Vec<AStarNode>) -> (idx: usize)
    requires
        open@.len() > 0,
    ensures
        idx < open@.len(),
        forall|i: int| 0 <= i < open@.len() ==> open@[idx as int].f_cost <= #[trigger] open@[i].f_cost,
{
    let mut best: usize = 0;
    let n = open.len();
    for i in 1..n
        invariant
            n == open@.len(),
            n > 0,
            best < n,
            forall|j: int| 0 <= j < i ==> open@[best as int].f_cost <= #[trigger] open@[j].f_cost,
    {
        if open[i].f_cost < open[best].f_cost {
            best = i;
        }
    }
    best
}

/// Every node reachable from `start` in `n` edges is closed, once the closed set
/// holds `start` and everything next to a closed node.
proof fn lemma_closed_complete(
    g: Map<usize, StrategyNode>,
    start: usize,
    closed: Set<usize>,
    v: usize,
    n: nat,
)
    requires
        closed.contains(start),
        forall|u: usize, w: usize| closed.contains(u) && #[trigger] edge(g, u, w) ==> closed.contains(w),
        reach_in(g, start, v, n),
    ensures
        closed.contains(v),
    decreases n,
{
    if n > 0 {
        let u = choose|u: usize| reach_in(g, start, u, (n - 1) as nat) && #[trigger] edge(g, u, v);
        lemma_closed_complete(g, start, closed, u, (n - 1) as nat);
    }
}

/// An entry of the open list: a walk from `start` that visits no node twice,
/// built within `explored` expansions, with its cost and estimate. Every node
/// on it has a best-known cost; its own node's is no higher than the entry's,
/// and when no step costs anything negative, neither is any other's.
spec fn entry_ok<H: Fn(usize) -> i64, E: Fn(usize, usize) -> i64>(
    g: Map<usize, StrategyNode>,
    start: usize,
    goal: usize,
    heuristic: H,
    edge_cost: E,
    gs: Map<usize, i64>,
    explored: int,
    e: AStarNode,
) -> bool {
    let p = e.path@;
    &&& is_walk_between(g, p, start, e.node_id)
    &&& p.no_duplicates()
    &&& forall|i: int| 0 <= i < p.len() - 1 ==> #[trigger] p[i] != goal
    &&& p.len() - 1 <= explored
    &&& step_costs_of(edge_cost, p, e.step_costs@)
    &&& e.g_cost == seq_sum(e.step_costs@)
    &&& call_ensures(heuristic, (e.node_id,), e.estimate@)
    &&& e.f_cost == e.g_cost + e.estimate@
    &&& forall|i: int| 0 <= i < p.len() ==> gs.contains_key(#[trigger] p[i])
    &&& gs[e.node_id] <= e.g_cost
    &&& nonneg_steps(g, edge_cost) ==> forall|i: int| 0 <= i < p.len() ==> gs[#[trigger] p[i]] <= e.g_cost
}

/// What the closed node `c` owes its neighbor `w`: a value `edge_cost` gave for
/// the edge bounds `w`'s best-known cost by `c`'s plus that value; or `w` has a
/// best-known cost, no higher than `c`'s when no step costs anything negative.
spec fn relaxed_edge<E: Fn(usize, usize) -> i64>(
    g: Map<usize, StrategyNode>,
    edge_cost: E,
    gs: Map<usize, i64>,
    c: usize,
    w: usize,
) -> bool {
    ||| exists|x: i64| #[trigger] call_ensures(edge_cost, (c, w), x) && known(gs, w) <= gs[c] + x
    ||| gs.contains_key(w) && (nonneg_steps(g, edge_cost) ==> gs[w] <= gs[c])
}

/// What the closed node `c` owes each of its neighbors.
spec fn relaxed_from<E: Fn(usize, usize) -> i64>(
    g: Map<usize, StrategyNode>,
    edge_cost: E,
    gs: Map<usize, i64>,
    c: usize,
) -> bool {
    forall|w: usize| #[trigger] edge(g, c, w) ==> relaxed_edge(g, edge_cost, gs, c, w)
}

/// `wit[v]` is a walk from `start` to `v` that visits no node twice, with step
/// costs that sum to `v`'s best-known cost, through nodes with known costs.
spec fn witness_ok<E: Fn(usize, usize) -> i64>(
    g: Map<usize, StrategyNode>,
    start: usize,
    goal: usize,
    edge_cost: E,
    gs: Map<usize, i64>,
    wit: Map<usize, (Seq<usize>, Seq<i64>)>,
    v: usize,
) -> bool {
    &&& search_walk_costs(g, start, goal, edge_cost, wit[v].0, wit[v].1)
    &&& wit[v].0.last() == v
    &&& gs[v] == seq_sum(wit[v].1)
    &&& forall|i: int| 0 <= i < wit[v].0.len() ==> gs.contains_key(#[trigger] wit[v].0[i])
}

/// The search state apart from what closed nodes owe their neighbors.
spec fn core_state<H: Fn(usize) -> i64, E: Fn(usize, usize) -> i64>(
    g: Map<usize, StrategyNode>,
    start: usize,
    goal: usize,
    heuristic: H,
    edge_cost: E,
    closed: Set<usize>,
    gs: Map<usize, i64>,
    wit: Map<usize, (Seq<usize>, Seq<i64>)>,
    keys: Seq<usize>,
    explored: int,
    open: Seq<AStarNode>,
) -> bool {
    &&& g.dom().finite()
    &&& gs.dom().subset_of(g.dom())
    &&& closed.subset_of(gs.dom())
    &&& !closed.contains(goal)
    &&& gs.contains_key(start)
    &&& gs[start] == 0
    &&& keys.no_duplicates()
    &&& forall|k: usize| #![trigger keys.contains(k)] #![trigger gs.contains_key(k)] keys.contains(k) <==> gs.contains_key(k)
    &&& wit.dom() == gs.dom()
    &&& forall|v: usize| #[trigger] gs.contains_key(v) ==> witness_ok(g, start, goal, edge_cost, gs, wit, v)
    &&& forall|i: int| 0 <= i < open.len() ==> entry_ok(g, start, goal, heuristic, edge_cost, gs, explored, #[trigger] open[i])
    &&& forall|w: usize| #![trigger gs.contains_key(w)]
        gs.contains_key(w) && !closed.contains(w) ==> exists|i: int|
            0 <= i < open.len() && (#[trigger] open[i]).node_id == w && open[i].g_cost == gs[w]
}

/// The state of the search between two steps.
spec fn search_state<H: Fn(usize) -> i64, E: Fn(usize, usize) -> i64>(
    g: Map<usize, StrategyNode>,
    start: usize,
    goal: usize,
    heuristic: H,
    edge_cost: E,
    closed: Set<usize>,
    gs: Map<usize, i64>,
    wit: Map<usize, (Seq<usize>, Seq<i64>)>,
    keys: Seq<usize>,
    explored: int,
    open: Seq<AStarNode>,
) -> bool {
    &&& core_state(g, start, goal, heuristic, edge_cost, closed, gs, wit, keys, explored, open)
    &&& forall|c: usize| closed.contains(c) ==> #[trigger] relaxed_from(g, edge_cost, gs, c)
}

/// The state while the node of `cur`, just closed, has its edges relaxed.
spec fn expanding<H: Fn(usize) -> i64, E: Fn(usize, usize) -> i64>(
    g: Map<usize, StrategyNode>,
    start: usize,
    goal: usize,
    heuristic: H,
    edge_cost: E,
    closed: Set<usize>,
    gs: Map<usize, i64>,
    wit: Map<usize, (Seq<usize>, Seq<i64>)>,
    keys: Seq<usize>,
    explored: int,
    open: Seq<AStarNode>,
    cur: AStarNode,
) -> bool {
    &&& core_state(g, start, goal, heuristic, edge_cost, closed, gs, wit, keys, explored, open)
    &&& forall|c: usize| closed.contains(c) && c != cur.node_id ==> #[trigger] relaxed_from(g, edge_cost, gs, c)
    &&& closed.contains(cur.node_id)
    &&& gs[cur.node_id] == cur.g_cost
    &&& entry_ok(g, start, goal, heuristic, edge_cost, gs, explored, cur)
    &&& cur.path@.len() <= explored
}

/// Lowering the best-known cost of a node other than `c` keeps what `c` owes `w`.
proof fn lemma_relaxed_edge_mono<E: Fn(usize, usize) -> i64>(
    g: Map<usize, StrategyNode>,
    edge_cost: E,
    gs: Map<usize, i64>,
    c: usize,
    w: usize,
    k: usize,
    t: i64,
)
    requires
        relaxed_edge(g, edge_cost, gs, c, w),
        t < known(gs, k),
        k != c,
    ensures
        relaxed_edge(g, edge_cost, gs.insert(k, t), c, w),
{
    let gs2 = gs.insert(k, t);
    assert(known(gs2, w) <= known(gs, w));
    if exists|x: i64| #[trigger] call_ensures(edge_cost, (c, w), x) && known(gs, w) <= gs[c] + x {
        let x = choose|x: i64| #[trigger] call_ensures(edge_cost, (c, w), x) && known(gs, w) <= gs[c] + x;
        assert(call_ensures(edge_cost, (c, w), x) && known(gs2, w) <= gs2[c] + x);
    }
}

/// Taking entry `idx` off the open list keeps every entry but it, and every
/// node but its own keeps a fresh entry.
proof fn lemma_remove_entry<H: Fn(usize) -> i64, E: Fn(usize, usize) -> i64>(
    g: Map<usize, StrategyNode>,
    start: usize,
    goal: usize,
    heuristic: H,
    edge_cost: E,
    closed: Set<usize>,
    gs: Map<usize, i64>,
    wit: Map<usize, (Seq<usize>, Seq<i64>)>,
    keys: Seq<usize>,
    explored: int,
    open: Seq<AStarNode>,
    idx: int,
)
    requires
        core_state(g, start, goal, heuristic, edge_cost, closed, gs, wit, keys, explored, open),
        0 <= idx < open.len(),
    ensures
        ({
            let rest = open.remove(idx);
            let u = open[idx].node_id;
            &&& entry_ok(g, start, goal, heuristic, edge_cost, gs, explored, open[idx])
            &&& forall|i: int| 0 <= i < rest.len() ==> entry_ok(g, start, goal, heuristic, edge_cost, gs, explored, #[trigger] rest[i])
            &&& forall|w: usize| #![trigger gs.contains_key(w)]
                gs.contains_key(w) && !closed.contains(w) && !(w == u && open[idx].g_cost == gs[w]) ==> exists|i: int|
                    0 <= i < rest.len() && (#[trigger] rest[i]).node_id == w && rest[i].g_cost == gs[w]
        }),
{
    let rest = open.remove(idx);
    assert(entry_ok(g, start, goal, heuristic, edge_cost, gs, explored, open[idx]));
    assert forall|i: int| 0 <= i < rest.len() implies entry_ok(g, start, goal, heuristic, edge_cost, gs, explored, #[trigger] rest[i]) by {
        if i < idx {
            assert(rest[i] == open[i]);
        } else {
            assert(rest[i] == open[i + 1]);
        }
    }
    assert forall|w: usize| #![trigger gs.contains_key(w)]
        gs.contains_key(w) && !closed.contains(w) && !(w == open[idx].node_id && open[idx].g_cost == gs[w]) implies exists|i: int|
            0 <= i < rest.len() && (#[trigger] rest[i]).node_id == w && rest[i].g_cost == gs[w] by {
        let i = choose|i: int| 0 <= i < open.len() && (#[trigger] open[i]).node_id == w && open[i].g_cost == gs[w];
        if i < idx {
            assert(rest[i] == open[i]);
        } else {
            assert(rest[i - 1] == open[i]);
        }
    }
}

/// Dropping an entry whose node is closed, or whose cost is above its node's
/// best-known cost, keeps the search state.
proof fn lemma_skip_entry<H: Fn(usize) -> i64, E: Fn(usize, usize) -> i64>(
    g: Map<usize, StrategyNode>,
    start: usize,
    goal: usize,
    heuristic: H,
    edge_cost: E,
    closed: Set<usize>,
    gs: Map<usize, i64>,
    wit: Map<usize, (Seq<usize>, Seq<i64>)>,
    keys: Seq<usize>,
    explored: int,
    open: Seq<AStarNode>,
    idx: int,
)
    requires
        search_state(g, start, goal, heuristic, edge_cost, closed, gs, wit, keys, explored, open),
        0 <= idx < open.len(),
        closed.contains(open[idx].node_id) || open[idx].g_cost > gs[open[idx].node_id],
    ensures
        search_state(g, start, goal, heuristic, edge_cost, closed, gs, wit, keys, explored, open.remove(idx)),
{
    lemma_remove_entry(g, start, goal, heuristic, edge_cost, closed, gs, wit, keys, explored, open, idx);
}

/// Closing the node of a fresh entry taken off the open list.
proof fn lemma_close_entry<H: Fn(usize) -> i64, E: Fn(usize, usize) -> i64>(
    g: Map<usize, StrategyNode>,
    start: usize,
    goal: usize,
    heuristic: H,
    edge_cost: E,
    closed: Set<usize>,
    gs: Map<usize, i64>,
    wit: Map<usize, (Seq<usize>, Seq<i64>)>,
    keys: Seq<usize>,
    explored: int,
    explored1: int,
    open: Seq<AStarNode>,
    idx: int,
)
    requires
        search_state(g, start, goal, heuristic, edge_cost, closed, gs, wit, keys, explored, open),
        0 <= idx < open.len(),
        !closed.contains(open[idx].node_id),
        open[idx].g_cost <= gs[open[idx].node_id],
        open[idx].node_id != goal,
        explored <= explored1,
        open[idx].path@.len() <= explored1,
    ensures
        expanding(
            g,
            start,
            goal,
            heuristic,
            edge_cost,
            closed.insert(open[idx].node_id),
            gs,
            wit,
            keys,
            explored1,
            open.remove(idx),
            open[idx],
        ),
{
    let cur = open[idx];
    let u = cur.node_id;
    let closed1 = closed.insert(u);
    let rest = open.remove(idx);
    lemma_remove_entry(g, start, goal, heuristic, edge_cost, closed, gs, wit, keys, explored, open, idx);
    assert(gs.contains_key(cur.path@[cur.path@.len() - 1]));
    assert forall|i: int| 0 <= i < rest.len() implies entry_ok(g, start, goal, heuristic, edge_cost, gs, explored1, #[trigger] rest[i]) by {
        assert(entry_ok(g, start, goal, heuristic, edge_cost, gs, explored, rest[i]));
    }
    assert(core_state(g, start, goal, heuristic, edge_cost, closed1, gs, wit, keys, explored1, rest));
}

/// Giving the neighbor `nb` of the node of `cur` the lower cost `t`, through the
/// walk of `cur` extended by `nb`, and opening an entry for it.
proof fn lemma_push_entry<H: Fn(usize) -> i64, E: Fn(usize, usize) -> i64>(
    g: Map<usize, StrategyNode>,
    start: usize,
    goal: usize,
    heuristic: H,
    edge_cost: E,
    closed: Set<usize>,
    gs: Map<usize, i64>,
    wit: Map<usize, (Seq<usize>, Seq<i64>)>,
    keys: Seq<usize>,
    explored: int,
    open: Seq<AStarNode>,
    cur: AStarNode,
    nb: usize,
    c: i64,
    t: i64,
    entry: AStarNode,
)
    requires
        expanding(g, start, goal, heuristic, edge_cost, closed, gs, wit, keys, explored, open, cur),
        edge(g, cur.node_id, nb),
        !cur.path@.contains(nb),
        call_ensures(edge_cost, (cur.node_id, nb), c),
        t == cur.g_cost + c,
        t < known(gs, nb),
        entry.node_id == nb,
        entry.g_cost == t,
        entry.path@ == cur.path@.push(nb),
        entry.step_costs@ == cur.step_costs@.push(c),
        call_ensures(heuristic, (nb,), entry.estimate@),
        entry.f_cost == t + entry.estimate@,
    ensures
        ({
            let gs2 = gs.insert(nb, t);
            let keys2 = if gs.contains_key(nb) { keys } else { keys.push(nb) };
            let wit2 = wit.insert(nb, (entry.path@, entry.step_costs@));
            &&& expanding(g, start, goal, heuristic, edge_cost, closed.remove(nb), gs2, wit2, keys2, explored, open.push(entry), cur)
            &&& measure(g.dom().len(), keys2, gs2) < measure(g.dom().len(), keys, gs)
            &&& relaxed_edge(g, edge_cost, gs2, cur.node_id, nb)
            &&& forall|w: usize| relaxed_edge(g, edge_cost, gs, cur.node_id, w) ==> #[trigger] relaxed_edge(g, edge_cost, gs2, cur.node_id, w)
        }),
{
    let u = cur.node_id;
    let p = cur.path@;
    let cs = cur.step_costs@;
    let np = entry.path@;
    let ncs = entry.step_costs@;
    let gs2 = gs.insert(nb, t);
    let keys2 = if gs.contains_key(nb) { keys } else { keys.push(nb) };
    let wit2 = wit.insert(nb, (np, ncs));
    let closed2 = closed.remove(nb);
    let open2 = open.push(entry);
    assert(entry_ok(g, start, goal, heuristic, edge_cost, gs, explored, cur));
    assert(p.last() == u);
    assert(search_walk_costs(g, start, goal, edge_cost, p, cs));
    assert(u != goal);
    lemma_extend_walk(g, start, goal, edge_cost, p, cs, nb, c);
    assert(nb != u) by {
        assert(p[p.len() - 1] == u);
    }
    assert(nb != start) by {
        assert(p[0] == start);
    }
    // the entries, old and new, with the lower cost
    assert forall|i: int| 0 <= i < open2.len() implies entry_ok(g, start, goal, heuristic, edge_cost, gs2, explored, #[trigger] open2[i]) by {
        if i < open.len() {
            let e = open[i];
            assert(open2[i] == e);
            assert(entry_ok(g, start, goal, heuristic, edge_cost, gs, explored, e));
            let ep = e.path@;
            if nonneg_steps(g, edge_cost) {
                assert forall|j: int| 0 <= j < ep.len() implies gs2[#[trigger] ep[j]] <= e.g_cost by {
                    assert(gs.contains_key(ep[j]));
                }
            }
            assert(gs.contains_key(ep[ep.len() - 1]));
        } else {
            assert(open2[i] == entry);
            assert forall|j: int| 0 <= j < np.len() implies gs2.contains_key(#[trigger] np[j]) by {
                if j < p.len() {
                    assert(np[j] == p[j]);
                    assert(gs.contains_key(p[j]));
                }
            }
            if nonneg_steps(g, edge_cost) {
                assert(c >= 0);
                assert forall|j: int| 0 <= j < np.len() implies gs2[#[trigger] np[j]] <= entry.g_cost by {
                    if j < p.len() {
                        assert(np[j] == p[j]);
                        assert(gs.contains_key(p[j]));
                        assert(gs[p[j]] <= cur.g_cost);
                    }
                }
            }
        }
    }
    assert(entry_ok(g, start, goal, heuristic, edge_cost, gs2, explored, cur)) by {
        assert forall|j: int| 0 <= j < p.len() implies gs2.contains_key(#[trigger] p[j]) by {
            assert(gs.contains_key(p[j]));
        }
        if nonneg_steps(g, edge_cost) {
            assert forall|j: int| 0 <= j < p.len() implies gs2[#[trigger] p[j]] <= cur.g_cost by {
                assert(gs.contains_key(p[j]));
            }
        }
    }
    // witnesses
    assert forall|v: usize| #[trigger] gs2.contains_key(v) implies witness_ok(g, start, goal, edge_cost, gs2, wit2, v) by {
        if v == nb {
            assert forall|j: int| 0 <= j < np.len() implies gs2.contains_key(#[trigger] np[j]) by {
                if j < p.len() {
                    assert(np[j] == p[j]);
                    assert(gs.contains_key(p[j]));
                }
            }
        } else {
            assert(witness_ok(g, start, goal, edge_cost, gs, wit, v));
        }
    }
    // fresh entries
    assert forall|w: usize| #![trigger gs2.contains_key(w)]
        gs2.contains_key(w) && !closed2.contains(w) implies exists|i: int|
            0 <= i < open2.len() && (#[trigger] open2[i]).node_id == w && open2[i].g_cost == gs2[w] by {
        if w == nb {
            assert(open2[open.len() as int] == entry);
        } else {
            assert(gs.contains_key(w));
            let i = choose|i: int| 0 <= i < open.len() && (#[trigger] open[i]).node_id == w && open[i].g_cost == gs[w];
            assert(open2[i] == open[i]);
        }
    }
    // keys and the measure
    let n = g.dom().len();
    lemma_potential_update(keys, gs, nb, t);
    if gs.contains_key(nb) {
        assert(keys.contains(nb));
    } else {
        assert(!keys.contains(nb));
        assert(keys2.drop_last() =~= keys);
        assert(keys2.no_duplicates()) by {
            assert forall|i: int, j: int| 0 <= i < j < keys2.len() implies keys2[i] != keys2[j] by {
                if j == keys2.len() - 1 {
                    assert(keys2[i] == keys[i]);
                } else {
                    assert(keys2[i] == keys[i] && keys2[j] == keys[j]);
                }
            }
        }
        assert forall|k: usize| keys2.contains(k) implies keys.contains(k) || k == nb by {
            let i = choose|i: int| 0 <= i < keys2.len() && keys2[i] == k;
            if i < keys.len() {
                assert(keys[i] == k);
            }
        }
        assert forall|k: usize| keys.contains(k) implies keys2.contains(k) by {
            let i = choose|i: int| 0 <= i < keys.len() && keys[i] == k;
            assert(keys2[i] == k);
        }
        assert(keys2.contains(nb)) by {
            assert(keys2[keys.len() as int] == nb);
        }
        assert(potential(keys2, gs2) == potential(keys, gs2) + (t - i64::MIN));
    }
    assert(core_state(g, start, goal, heuristic, edge_cost, closed2, gs2, wit2, keys2, explored, open2));
    // what closed nodes owe
    assert forall|c2: usize| closed2.contains(c2) && c2 != u implies #[trigger] relaxed_from(g, edge_cost, gs2, c2) by {
        assert(relaxed_from(g, edge_cost, gs, c2));
        assert forall|w: usize| #[trigger] edge(g, c2, w) implies relaxed_edge(g, edge_cost, gs2, c2, w) by {
            lemma_relaxed_edge_mono(g, edge_cost, gs, c2, w, nb, t);
        }
    }
    assert forall|w: usize| relaxed_edge(g, edge_cost, gs, u, w) implies #[trigger] relaxed_edge(g, edge_cost, gs2, u, w) by {
        lemma_relaxed_edge_mono(g, edge_cost, gs, u, w, nb, t);
    }
    assert(call_ensures(edge_cost, (u, nb), c) && known(gs2, nb) <= gs2[u] + c);
}

/// Costs fixed by `ec` and never negative give steps that cost nothing negative.
proof fn lemma_nonneg_steps<H: Fn(usize) -> i64, E: Fn(usize, usize) -> i64>(
    g: Map<usize, StrategyNode>,
    heuristic: H,
    edge_cost: E,
    ec: spec_fn(usize, usize) -> int,
    goal: usize,
)
    requires
        costs_by(g, edge_cost, ec),
        forall|a: usize, b: usize| #[trigger] edge(g, a, b) ==> ec(a, b) >= 0,
    ensures
        nonneg_steps(g, edge_cost),
{
    assert forall|a: usize, b: usize, c: i64|
        edge(g, a, b) && #[trigger] call_ensures(edge_cost, (a, b), c) implies c >= 0 by {
        assert(c == ec(a, b));
    }
}

/// Under the premise, what a closed node owes a neighbor bounds the neighbor's
/// best-known cost by the node's plus the edge's cost.
proof fn lemma_relaxed_bound<H: Fn(usize) -> i64, E: Fn(usize, usize) -> i64>(
    g: Map<usize, StrategyNode>,
    heuristic: H,
    edge_cost: E,
    ec: spec_fn(usize, usize) -> int,
    goal: usize,
    gs: Map<usize, i64>,
    c: usize,
    w: usize,
)
    requires
        costs_by(g, edge_cost, ec),
        forall|a: usize, b: usize| #[trigger] edge(g, a, b) ==> ec(a, b) >= 0,
        relaxed_edge(g, edge_cost, gs, c, w),
        edge(g, c, w),
    ensures
        known(gs, w) <= gs[c] + ec(c, w),
{
    lemma_nonneg_steps(g, heuristic, edge_cost, ec, goal);
    if exists|x: i64| #[trigger] call_ensures(edge_cost, (c, w), x) && known(gs, w) <= gs[c] + x {
        let x = choose|x: i64| #[trigger] call_ensures(edge_cost, (c, w), x) && known(gs, w) <= gs[c] + x;
        assert(x == ec(c, w));
    }
}

/// Every value the heuristic may give for a node, less `ht`, is at most the
/// cost of every walk from that node to `t`.
spec fn bounded_towards<H: Fn(usize) -> i64>(
    g: Map<usize, StrategyNode>,
    heuristic: H,
    ec: spec_fn(usize, usize) -> int,
    t: usize,
    ht: int,
) -> bool {
    forall|w: usize, h: i64, q: Seq<usize>|
        #[trigger] call_ensures(heuristic, (w,), h) && #[trigger] is_walk_between(g, q, w, t) ==> h - ht
            <= cost_along(ec, q)
}

/// Along a walk `q` from `start` to a node `t` that is not closed, past
/// position `k` whose node's best-known cost is at most the cost of `q` up to
/// it: either `q` costs at least `i64::MAX`, or some open entry's `f_cost` is at
/// most `q`'s cost plus `ht`, given that estimates less `ht` bound walks to `t`.
proof fn lemma_frontier<H: Fn(usize) -> i64, E: Fn(usize, usize) -> i64>(
    g: Map<usize, StrategyNode>,
    start: usize,
    goal: usize,
    heuristic: H,
    edge_cost: E,
    ec: spec_fn(usize, usize) -> int,
    closed: Set<usize>,
    gs: Map<usize, i64>,
    wit: Map<usize, (Seq<usize>, Seq<i64>)>,
    keys: Seq<usize>,
    explored: int,
    open: Seq<AStarNode>,
    t: usize,
    ht: int,
    q: Seq<usize>,
    k: int,
)
    requires
        costs_by(g, edge_cost, ec),
        forall|a: usize, b: usize| #[trigger] edge(g, a, b) ==> ec(a, b) >= 0,
        bounded_towards(g, heuristic, ec, t, ht),
        search_state(g, start, goal, heuristic, edge_cost, closed, gs, wit, keys, explored, open),
        is_walk_between(g, q, start, t),
        !closed.contains(t),
        0 <= k < q.len(),
        known(gs, q[k]) <= cost_along(ec, q.take(k + 1)),
    ensures
        cost_along(ec, q) >= i64::MAX || exists|i: int|
            0 <= i < open.len() && (#[trigger] open[i]).f_cost <= cost_along(ec, q) + ht,
    decreases q.len() - k,
{
    lemma_walk_parts(g, q, k);
    lemma_cost_split(ec, q, k);
    lemma_cost_nonneg(g, ec, q.skip(k));
    let v = q[k];
    assert(q.skip(k)[0] == v);
    if !gs.contains_key(v) {
    } else if closed.contains(v) {
        if k == q.len() - 1 {
            assert(v == t);
        }
        let w = q[k + 1];
        assert(edge(g, q[k], q[k + 1]));
        assert(relaxed_from(g, edge_cost, gs, v));
        lemma_relaxed_bound(g, heuristic, edge_cost, ec, t, gs, v, w);
        let t2 = q.take(k + 2);
        assert(t2.drop_last() =~= q.take(k + 1));
        assert(t2[t2.len() - 2] == v && t2[t2.len() - 1] == w);
        lemma_frontier(g, start, goal, heuristic, edge_cost, ec, closed, gs, wit, keys, explored, open, t, ht, q, k + 1);
    } else {
        let i = choose|i: int| 0 <= i < open.len() && (#[trigger] open[i]).node_id == v && open[i].g_cost == gs[v];
        assert(entry_ok(g, start, goal, heuristic, edge_cost, gs, explored, open[i]));
        assert(is_walk_between(g, q.skip(k), v, t));
        assert(call_ensures(heuristic, (v,), open[i].estimate@));
        assert(open[i].estimate@ - ht <= cost_along(ec, q.skip(k)));
    }
}

/// The entry of least `f_cost`, for a node `t` that is not closed, costs no more
/// than any walk from `start` to `t`, when the heuristic is admissible towards `t`.
proof fn lemma_pop_bound<H: Fn(usize) -> i64, E: Fn(usize, usize) -> i64>(
    g: Map<usize, StrategyNode>,
    start: usize,
    goal: usize,
    heuristic: H,
    edge_cost: E,
    ec: spec_fn(usize, usize) -> int,
    closed: Set<usize>,
    gs: Map<usize, i64>,
    wit: Map<usize, (Seq<usize>, Seq<i64>)>,
    keys: Seq<usize>,
    explored: int,
    open: Seq<AStarNode>,
    idx: int,
    q: Seq<usize>,
)
    requires
        optimality_premise(g, heuristic, edge_cost, ec, open[idx].node_id),
        search_state(g, start, goal, heuristic, edge_cost, closed, gs, wit, keys, explored, open),
        0 <= idx < open.len(),
        forall|i: int| 0 <= i < open.len() ==> open[idx].f_cost <= #[trigger] open[i].f_cost,
        !closed.contains(open[idx].node_id),
        is_walk_between(g, q, start, open[idx].node_id),
    ensures
        open[idx].g_cost <= cost_along(ec, q),
{
    let e = open[idx];
    assert(entry_ok(g, start, goal, heuristic, edge_cost, gs, explored, e));
    assert(q.take(1).len() == 1);
    assert(q[0] == start);
    assert(call_ensures(heuristic, (e.node_id,), e.estimate@));
    assert(bounded_towards(g, heuristic, ec, e.node_id, e.estimate@ as int));
    lemma_frontier(g, start, goal, heuristic, edge_cost, ec, closed, gs, wit, keys, explored, open, e.node_id, e.estimate@ as int, q, 0);
    if cost_along(ec, q) < i64::MAX {
        let i = choose|i: int| 0 <= i < open.len() && (#[trigger] open[i]).f_cost <= cost_along(ec, q) + e.estimate@;
        assert(open[idx].f_cost <= open[i].f_cost);
    }
}

/// What the entry taken off for the goal gives: a walk to the goal that visits
/// no node twice, with its cost; under the premise, the cost of no walk from
/// `start` to `goal` is lower.
proof fn lemma_goal_entry<H: Fn(usize) -> i64, E: Fn(usize, usize) -> i64>(
    g: Map<usize, StrategyNode>,
    start: usize,
    goal: usize,
    heuristic: H,
    edge_cost: E,
    closed: Set<usize>,
    gs: Map<usize, i64>,
    wit: Map<usize, (Seq<usize>, Seq<i64>)>,
    keys: Seq<usize>,
    explored: int,
    open: Seq<AStarNode>,
    idx: int,
)
    requires
        search_state(g, start, goal, heuristic, edge_cost, closed, gs, wit, keys, explored, open),
        0 <= idx < open.len(),
        forall|i: int| 0 <= i < open.len() ==> open[idx].f_cost <= #[trigger] open[i].f_cost,
        open[idx].node_id == goal,
    ensures
        ({
            let e = open[idx];
            &&& is_walk_between(g, e.path@, start, goal)
            &&& e.path@.no_duplicates()
            &&& is_path_cost(edge_cost, e.path@, e.g_cost as int)
            &&& e.path@.len() - 1 <= explored
            &&& reachable(g, start, goal)
            &&& forall|ec: spec_fn(usize, usize) -> int| #[trigger]
                optimality_premise(g, heuristic, edge_cost, ec, goal) ==> {
                    &&& e.g_cost == cost_along(ec, e.path@)
                    &&& forall|q: Seq<usize>| #[trigger]
                        is_walk_between(g, q, start, goal) ==> e.g_cost <= cost_along(ec, q)
                }
        }),
{
    let e = open[idx];
    assert(entry_ok(g, start, goal, heuristic, edge_cost, gs, explored, e));
    let p = e.path@;
    lemma_walk_reach_in(g, p, start, goal);
    assert forall|ec: spec_fn(usize, usize) -> int| #[trigger]
        optimality_premise(g, heuristic, edge_cost, ec, goal) implies {
            &&& e.g_cost == cost_along(ec, p)
            &&& forall|q: Seq<usize>| #[trigger]
                is_walk_between(g, q, start, goal) ==> e.g_cost <= cost_along(ec, q)
        } by {
        lemma_costs_sum(g, edge_cost, ec, p, e.step_costs@);
        assert forall|q: Seq<usize>| #[trigger] is_walk_between(g, q, start, goal) implies e.g_cost <= cost_along(ec, q) by {
            lemma_pop_bound(g, start, goal, heuristic, edge_cost, ec, closed, gs, wit, keys, explored, open, idx, q);
        }
    }
}

/// When the open list runs out and no walk from `start` that visits no node
/// twice reaches the cost `i64::MAX`, the goal cannot be reached.
proof fn lemma_exhausted<H: Fn(usize) -> i64, E: Fn(usize, usize) -> i64>(
    g: Map<usize, StrategyNode>,
    start: usize,
    goal: usize,
    heuristic: H,
    edge_cost: E,
    closed: Set<usize>,
    gs: Map<usize, i64>,
    wit: Map<usize, (Seq<usize>, Seq<i64>)>,
    keys: Seq<usize>,
    explored: int,
    open: Seq<AStarNode>,
)
    requires
        search_state(g, start, goal, heuristic, edge_cost, closed, gs, wit, keys, explored, open),
        open.len() == 0,
        costs_below_max(g, start, goal, edge_cost),
    ensures
        !reachable(g, start, goal),
{
    assert forall|w: usize| #[trigger] gs.contains_key(w) implies closed.contains(w) by {
        if !closed.contains(w) {
            let i = choose|i: int| 0 <= i < open.len() && (#[trigger] open[i]).node_id == w && open[i].g_cost == gs[w];
        }
    }
    assert forall|c: usize, w: usize| closed.contains(c) && #[trigger] edge(g, c, w) implies closed.contains(w) by {
        assert(relaxed_from(g, edge_cost, gs, c));
        assert(relaxed_edge(g, edge_cost, gs, c, w));
        if !gs.contains_key(w) {
            let x = choose|x: i64| #[trigger] call_ensures(edge_cost, (c, w), x) && known(gs, w) <= gs[c] + x;
            assert(witness_ok(g, start, goal, edge_cost, gs, wit, c));
            let p = wit[c].0;
            let cs = wit[c].1;
            assert(!p.contains(w)) by {
                if p.contains(w) {
                    let i = choose|i: int| 0 <= i < p.len() && p[i] == w;
                    assert(gs.contains_key(p[i]));
                }
            }
            assert(c != goal);
            lemma_extend_walk(g, start, goal, edge_cost, p, cs, w, x);
            assert(search_walk_costs(g, start, goal, edge_cost, p.push(w), cs.push(x)));
        }
    }
    if reachable(g, start, goal) {
        let n = choose|n: nat| #[trigger] reach_in(g, start, goal, n);
        lemma_closed_complete(g, start, closed, goal, n);
    }
}

/// Taking an entry off the open list keeps a lower bound on the others' `f_cost`.
proof fn lemma_remove_f_bound(open: Seq<AStarNode>, idx: int, bound: int)
    requires
        0 <= idx < open.len(),
        forall|i: int| 0 <= i < open.len() ==> bound <= #[trigger] open[i].f_cost,
    ensures
        forall|i: int| 0 <= i < open.remove(idx).len() ==> bound <= #[trigger] open.remove(idx)[i].f_cost,
{
    assert forall|i: int| 0 <= i < open.remove(idx).len() implies bound <= #[trigger] open.remove(idx)[i].f_cost by {
        if i < idx {
            assert(open.remove(idx)[i] == open[i]);
        } else {
            assert(open.remove(idx)[i] == open[i + 1]);
        }
    }
}

/// The nodes other than `goal` that A*, with costs `ec` and estimates `hf`,
/// must expand before it ends at cost `c`: those whose least cost is below
/// `i64::MAX` and, plus their estimate, below `c` plus the estimate at `goal`.
pub open spec fn must_expand(
    g: Map<usize, StrategyNode>,
    start: usize,
    goal: usize,
    hf: spec_fn(usize) -> int,
    ec: spec_fn(usize, usize) -> int,
    c: int,
) -> Set<usize> {
    Set::new(
        |v: usize|
            g.contains_key(v) && v != goal && exists|d: int|
                #[trigger] least_cost(g, ec, start, v, d) && d < i64::MAX && d + hf(v) < c + hf(goal),
    )
}

/// The nodes other than `goal` that A*, with costs `ec` and estimates `hf`,
/// may expand before it ends at cost `c`: those whose least cost plus their
/// estimate is at most `c` plus the estimate at `goal`.
pub open spec fn may_expand(
    g: Map<usize, StrategyNode>,
    start: usize,
    goal: usize,
    hf: spec_fn(usize) -> int,
    ec: spec_fn(usize, usize) -> int,
    c: int,
) -> Set<usize> {
    Set::new(
        |v: usize|
            g.contains_key(v) && v != goal && exists|d: int|
                #[trigger] least_cost(g, ec, start, v, d) && d + hf(v) <= c + hf(goal),
    )
}

/// With a consistent heuristic, when the entry for the goal is taken off: the
/// closed nodes are all the nodes A* must expand and only nodes it may expand.
proof fn lemma_expansion_bounds<H: Fn(usize) -> i64, E: Fn(usize, usize) -> i64>(
    g: Map<usize, StrategyNode>,
    start: usize,
    goal: usize,
    heuristic: H,
    edge_cost: E,
    hf: spec_fn(usize) -> int,
    ec: spec_fn(usize, usize) -> int,
    closed: Set<usize>,
    gs: Map<usize, i64>,
    wit: Map<usize, (Seq<usize>, Seq<i64>)>,
    keys: Seq<usize>,
    explored: int,
    open: Seq<AStarNode>,
    idx: int,
    fmin: int,
)
    requires
        consistency_premise(g, heuristic, edge_cost, hf, ec),
        search_state(g, start, goal, heuristic, edge_cost, closed, gs, wit, keys, explored, open),
        0 <= idx < open.len(),
        forall|i: int| 0 <= i < open.len() ==> open[idx].f_cost <= #[trigger] open[i].f_cost,
        open[idx].node_id == goal,
        settled(g, start, ec, closed, gs),
        forall|c: usize| #[trigger] closed.contains(c) ==> gs[c] + hf(c) <= fmin,
        fmin <= open[idx].f_cost,
    ensures
        must_expand(g, start, goal, hf, ec, open[idx].g_cost as int).subset_of(closed),
        closed.subset_of(may_expand(g, start, goal, hf, ec, open[idx].g_cost as int)),
        may_expand(g, start, goal, hf, ec, open[idx].g_cost as int).finite(),
        closed.finite(),
{
    let e = open[idx];
    let cstar = e.g_cost as int;
    assert(entry_ok(g, start, goal, heuristic, edge_cost, gs, explored, e));
    assert(e.estimate@ == hf(goal));
    let must = must_expand(g, start, goal, hf, ec, cstar);
    let may = may_expand(g, start, goal, hf, ec, cstar);
    assert forall|v: usize| must.contains(v) implies closed.contains(v) by {
        let d = choose|d: int| #[trigger] least_cost(g, ec, start, v, d) && d < i64::MAX && d + hf(v) < cstar + hf(goal);
        let q = choose|q: Seq<usize>| #[trigger] is_walk_between(g, q, start, v) && cost_along(ec, q) == d;
        if !closed.contains(v) {
            assert forall|w: usize, h: i64, q2: Seq<usize>|
                #[trigger] call_ensures(heuristic, (w,), h) && #[trigger] is_walk_between(g, q2, w, v) implies h - hf(v)
                <= cost_along(ec, q2) by {
                lemma_consistent_along(g, heuristic, hf, ec, q2);
                assert(g.contains_key(q2[0]));
            }
            assert(q.take(1).len() == 1);
            assert(q[0] == start);
            lemma_frontier(g, start, goal, heuristic, edge_cost, ec, closed, gs, wit, keys, explored, open, v, hf(v), q, 0);
            let i = choose|i: int| 0 <= i < open.len() && (#[trigger] open[i]).f_cost <= cost_along(ec, q) + hf(v);
            assert(open[idx].f_cost <= open[i].f_cost);
        }
    }
    assert forall|c: usize| closed.contains(c) implies may.contains(c) by {
        assert(gs.contains_key(c));
        assert(witness_ok(g, start, goal, edge_cost, gs, wit, c));
        let p = wit[c].0;
        lemma_costs_sum(g, edge_cost, ec, p, wit[c].1);
        assert(is_walk_between(g, p, start, c) && cost_along(ec, p) == gs[c]);
        assert(least_cost(g, ec, start, c, gs[c] as int));
        assert(gs[c] + hf(c) <= fmin);
    }
    vstd::set_lib::lemma_set_subset_finite(g.dom(), may);
    vstd::set_lib::lemma_set_subset_finite(g.dom(), closed);
}

/// The fixed facts of a search: the graph, the two ends, and what the
/// caller's functions may be called on and may give.
spec fn env_ok<H: Fn(usize) -> i64, E: Fn(usize, usize) -> i64>(
    g: Map<usize, StrategyNode>,
    start: usize,
    goal: usize,
    heuristic: H,
    edge_cost: E,
) -> bool {
    &&& g.dom().finite()
    &&& g.contains_key(start)
    &&& g.contains_key(goal)
    &&& forall|v: usize| g.contains_key(v) ==> #[trigger] call_requires(heuristic, (v,))
    &&& forall|a: usize, b: usize| #[trigger] edge(g, a, b) ==> call_requires(edge_cost, (a, b))
    &&& search_sums_fit(g, start, goal, heuristic, edge_cost)
}

/// Every closed node's best-known cost is at most the cost under `ec` of every
/// walk from `start` to it.
spec fn settled(
    g: Map<usize, StrategyNode>,
    start: usize,
    ec: spec_fn(usize, usize) -> int,
    closed: Set<usize>,
    gs: Map<usize, i64>,
) -> bool {
    forall|c: usize, q: Seq<usize>|
        closed.contains(c) && #[trigger] is_walk_between(g, q, start, c) ==> gs[c] <= cost_along(ec, q)
}

/// Relaxes every edge out of the node of `cur`, which has just been closed:
/// each neighbor that is a node and not on `cur`'s walk gets `cur`'s cost plus
/// the edge's as its best-known cost, is reopened, and gets a new open entry,
/// when that is lower than its best-known cost.
fn expand_node<H: Fn(usize) -> i64, E: Fn(usize, usize) -> i64>(
    graph: &StrategyGraph,
    cur: &AStarNode,
    closed: &mut HashSet<usize>,
    open: &mut Vec<AStarNode>,
    g_scores: &mut HashMap<usize, i64>,
    heuristic: &H,
    edge_cost: &E,
    Ghost(start): Ghost<usize>,
    Ghost(goal): Ghost<usize>,
    Ghost(explored): Ghost<int>,
    Ghost(wit0): Ghost<Map<usize, (Seq<usize>, Seq<i64>)>>,
    Ghost(keys0): Ghost<Seq<usize>>,
    Ghost(cons): Ghost<bool>,
    Ghost(hfs): Ghost<spec_fn(usize) -> int>,
    Ghost(ecs): Ghost<spec_fn(usize, usize) -> int>,
) -> (res: (Ghost<Map<usize, (Seq<usize>, Seq<i64>)>>, Ghost<Seq<usize>>))
    requires
        env_ok(graph@, start, goal, *heuristic, *edge_cost),
        cons ==> consistency_premise(graph@, *heuristic, *edge_cost, hfs, ecs) && settled(
            graph@,
            start,
            ecs,
            old(closed)@,
            old(g_scores)@,
        ),
        sums_fit(graph@, start, goal, *heuristic, *edge_cost) || (cons && least_sums_fit(
            graph@,
            start,
            goal,
            hfs,
            ecs,
        )),
        cons ==> forall|i: int| 0 <= i < old(open)@.len() ==> cur.f_cost <= #[trigger] old(open)@[i].f_cost,
        expanding(
            graph@,
            start,
            goal,
            *heuristic,
            *edge_cost,
            old(closed)@,
            old(g_scores)@,
            wit0,
            keys0,
            explored,
            old(open)@,
            *cur,
        ),
    ensures
        search_state(
            graph@,
            start,
            goal,
            *heuristic,
            *edge_cost,
            final(closed)@,
            final(g_scores)@,
            res.0@,
            res.1@,
            explored,
            final(open)@,
        ),
        measure(graph@.dom().len(), res.1@, final(g_scores)@) <= measure(
            graph@.dom().len(),
            keys0,
            old(g_scores)@,
        ),
        measure(graph@.dom().len(), res.1@, final(g_scores)@) == measure(
            graph@.dom().len(),
            keys0,
            old(g_scores)@,
        ) ==> final(open)@.len() == old(open)@.len(),
        cons ==> final(closed)@ == old(closed)@ && settled(graph@, start, ecs, final(closed)@, final(g_scores)@),
        cons ==> forall|c: usize| #[trigger] final(closed)@.contains(c) ==> final(g_scores)@[c] == old(g_scores)@[c],
        cons ==> forall|i: int| 0 <= i < final(open)@.len() ==> cur.f_cost <= #[trigger] final(open)@[i].f_cost,
{
    let ghost g = graph@;
    let ghost closed_in = closed@;
    let ghost n = g.dom().len();
    let ghost h = *heuristic;
    let ghost ec = *edge_cost;
    let ghost u = cur.node_id;
    let ghost gs0 = g_scores@;
    let ghost open_len0 = open@.len();
    let ghost mut wit = wit0;
    let ghost mut keys = keys0;
    proof {
        assert(entry_ok(g, start, goal, h, ec, gs0, explored, *cur));
        assert(g.contains_key(cur.path@[cur.path@.len() - 1]));
    }
    let node = graph.get(cur.node_id).unwrap();
    let m = node.neighbors.len();
    for k in 0..m
        invariant
            g == graph@,
            n == g.dom().len(),
            h == *heuristic,
            ec == *edge_cost,
            u == cur.node_id,
            env_ok(g, start, goal, h, ec),
            g.contains_key(u),
            *node == g[u],
            m == node.neighbors@.len(),
            expanding(g, start, goal, h, ec, closed@, g_scores@, wit, keys, explored, open@, *cur),
            cons ==> forall|c: usize| #[trigger] closed@.contains(c) ==> g_scores@[c] == gs0[c],
            cons ==> forall|i: int| 0 <= i < open@.len() ==> cur.f_cost <= #[trigger] open@[i].f_cost,
            cons ==> consistency_premise(g, h, ec, hfs, ecs) && closed@ == closed_in && settled(
                g,
                start,
                ecs,
                closed@,
                g_scores@,
            ),
            sums_fit(g, start, goal, h, ec) || (cons && least_sums_fit(g, start, goal, hfs, ecs)),
            forall|j: int|
                0 <= j < k ==> edge(g, u, #[trigger] node.neighbors@[j]) ==> relaxed_edge(
                    g,
                    ec,
                    g_scores@,
                    u,
                    node.neighbors@[j],
                ),
            measure(n, keys, g_scores@) <= measure(n, keys0, gs0),
            measure(n, keys, g_scores@) == measure(n, keys0, gs0) ==> open@.len() == open_len0,
    {
        let neighbor = node.neighbors[k];
        let ghost gs1 = g_scores@;
        let ghost closed1 = closed@;
        let ghost open1 = open@;
        let ghost p = cur.path@;
        let ghost cs = cur.step_costs@;
        proof {
            assert(entry_ok(g, start, goal, h, ec, gs1, explored, *cur));
            assert(p.last() == u);
        }
        let on_path = vec_contains(&cur.path, neighbor);
        if !on_path && graph.get(neighbor).is_some() {
            proof {
                assert(edge(g, u, neighbor)) by {
                    assert(node.neighbors@[k as int] == neighbor);
                }
            }
            let c = edge_cost(cur.node_id, neighbor);
            proof {
                assert(search_walk_costs(g, start, goal, ec, p, cs));
                assert(u != goal);
                lemma_extend_walk(g, start, goal, ec, p, cs, neighbor, c);
                assert(search_walk_costs(g, start, goal, ec, p.push(neighbor), cs.push(c)));
                if !sums_fit(g, start, goal, h, ec) {
                    lemma_costs_sum(g, ec, ecs, p, cs);
                    assert(is_walk_between(g, p, start, u) && cost_along(ecs, p) == cur.g_cost);
                    assert(least_cost(g, ecs, start, u, cur.g_cost as int));
                    assert(c == ecs(u, neighbor));
                }
            }
            let tentative_g = cur.g_cost + c;
            let prev_g = match g_scores.get(&neighbor) {
                Some(v) => *v,
                None => i64::MAX,
            };
            if tentative_g < prev_g {
                proof {
                    if cons {
                        let np = p.push(neighbor);
                        let ncs = cs.push(c);
                        lemma_costs_sum(g, ec, ecs, np, ncs);
                        if closed1.contains(neighbor) {
                            assert(is_walk_between(g, np, start, neighbor));
                            assert(gs1.contains_key(neighbor));
                        }
                        assert(!closed1.contains(neighbor));
                    }
                }
                g_scores.insert(neighbor, tentative_g);
                closed.remove(&neighbor);
                let mut new_path = cur.path.clone();
                proof {
                    assert(new_path@ =~= cur.path@);
                }
                new_path.push(neighbor);
                let hv = heuristic(neighbor);
                proof {
                    assert(p.push(neighbor).last() == neighbor);
                    assert(call_ensures(h, (p.push(neighbor).last(),), hv));
                    if !sums_fit(g, start, goal, h, ec) {
                        assert(hv == hfs(neighbor));
                        assert(least_cost(g, ecs, start, u, cur.g_cost as int));
                    }
                }
                let entry = AStarNode {
                    node_id: neighbor,
                    g_cost: tentative_g,
                    f_cost: tentative_g + hv,
                    path: new_path,
                    step_costs: Ghost(cur.step_costs@.push(c)),
                    estimate: Ghost(hv),
                };
                open.push(entry);
                proof {
                    lemma_push_entry(
                        g,
                        start,
                        goal,
                        h,
                        ec,
                        closed1,
                        gs1,
                        wit,
                        keys,
                        explored,
                        open1,
                        *cur,
                        neighbor,
                        c,
                        tentative_g,
                        entry,
                    );
                    assert(g_scores@ == gs1.insert(neighbor, tentative_g));
                    assert(closed@ == closed1.remove(neighbor));
                    assert(open@ == open1.push(entry));
                    if cons {
                        assert(closed@ =~= closed1);
                        assert forall|c2: usize| #[trigger] closed@.contains(c2) implies g_scores@[c2] == gs0[c2] by {
                            assert(c2 != neighbor);
                        }
                        assert(entry_ok(g, start, goal, h, ec, gs1, explored, *cur));
                        assert(cur.estimate@ == hfs(u));
                        assert(hv == hfs(neighbor));
                        assert(c == ecs(u, neighbor));
                        assert(entry.f_cost >= cur.f_cost);
                        assert forall|i: int| 0 <= i < open@.len() implies cur.f_cost <= #[trigger] open@[i].f_cost by {
                            if i < open1.len() {
                                assert(open@[i] == open1[i]);
                            }
                        }
                        assert forall|c2: usize, q: Seq<usize>|
                            closed@.contains(c2) && #[trigger] is_walk_between(g, q, start, c2) implies g_scores@[c2]
                            <= cost_along(ecs, q) by {
                            assert(c2 != neighbor);
                            assert(gs1[c2] <= cost_along(ecs, q));
                        }
                    }
                    wit = wit.insert(neighbor, (entry.path@, entry.step_costs@));
                    keys = if gs1.contains_key(neighbor) { keys } else { keys.push(neighbor) };
                    assert forall|j: int|
                        0 <= j < k + 1 implies edge(g, u, #[trigger] node.neighbors@[j]) ==> relaxed_edge(
                        g,
                        ec,
                        g_scores@,
                        u,
                        node.neighbors@[j],
                    ) by {
                        if j == k {
                            assert(node.neighbors@[j] == neighbor);
                        } else if edge(g, u, node.neighbors@[j]) {
                            assert(relaxed_edge(g, ec, gs1, u, node.neighbors@[j]));
                        }
                    }
                }
            } else {
                proof {
                    assert(prev_g == known(gs1, neighbor));
                    assert(call_ensures(ec, (u, neighbor), c) && known(gs1, neighbor) <= gs1[u] + c);
                    assert(relaxed_edge(g, ec, gs1, u, neighbor));
                    assert forall|j: int|
                        0 <= j < k + 1 implies edge(g, u, #[trigger] node.neighbors@[j]) ==> relaxed_edge(
                        g,
                        ec,
                        g_scores@,
                        u,
                        node.neighbors@[j],
                    ) by {
                        if j == k {
                            assert(node.neighbors@[j] == neighbor);
                        }
                    }
                }
            }
        } else {
            proof {
                if on_path && g.contains_key(neighbor) {
                    let i = choose|i: int| 0 <= i < p.len() && p[i] == neighbor;
                    assert(gs1.contains_key(p[i]));
                    assert(nonneg_steps(g, ec) ==> gs1[p[i]] <= cur.g_cost);
                    assert(relaxed_edge(g, ec, gs1, u, neighbor));
                }
                assert forall|j: int|
                    0 <= j < k + 1 implies edge(g, u, #[trigger] node.neighbors@[j]) ==> relaxed_edge(
                    g,
                    ec,
                    g_scores@,
                    u,
                    node.neighbors@[j],
                ) by {
                    if j == k {
                        assert(node.neighbors@[j] == neighbor);
                    }
                }
            }
        }
    }
    proof {
        assert(relaxed_from(g, ec, g_scores@, u)) by {
            assert forall|w: usize| #[trigger] edge(g, u, w) implies relaxed_edge(g, ec, g_scores@, u, w) by {
                let j = choose|j: int| 0 <= j < node.neighbors@.len() && node.neighbors@[j] == w;
                assert(edge(g, u, node.neighbors@[j]));
            }
        }
        assert forall|c: usize| closed@.contains(c) implies #[trigger] relaxed_from(g, ec, g_scores@, c) by {
            if c != u {
            }
        }
    }
    (Ghost(wit), Ghost(keys))
}

/// A* search on a strategy graph with fitness heuristic.
///
/// Takes off the open list an entry of least estimated total cost; reaching
/// `goal` ends the search; an entry for a closed node, or one that a cheaper
/// entry for its node has overtaken, is dropped. A node reached by a cheaper
/// walk than its best known, not through itself, is reopened, so that with an
/// admissible heuristic the walk found is a cheapest one; with a consistent
/// one no node is reopened, so no more nodes are expanded than the graph has.
///
/// Gives `Some` only when `goal` can be reached from `start`, and then always
/// unless some walk from `start` costs `i64::MAX`, the value that stands for
/// "no cost known": a walk from `start` to `goal` that visits no node twice,
/// its cost as summed from `edge_cost` along it, and how many nodes were
/// expanded (a count that stops at `usize::MAX`).
pub fn astar(
    graph: &StrategyGraph,
    start: usize,
    goal: usize,
    heuristic: impl Fn(usize) -> i64,
    edge_cost: impl Fn(usize, usize) -> i64,
) -> (r: Option<AStarResult>)
    requires
        forall|v: usize| graph@.contains_key(v) ==> call_requires(heuristic, (v,)),
        forall|a: usize, b: usize| edge(graph@, a, b) ==> call_requires(edge_cost, (a, b)),
        search_sums_fit(graph@, start, goal, heuristic, edge_cost),
    ensures
        r is Some ==> reachable(graph@, start, goal),
        reachable(graph@, start, goal) && costs_below_max(graph@, start, goal, edge_cost) ==> r is Some,
        r matches Some(res) ==> {
            &&& is_walk_between(graph@, res.path@, start, goal)
            &&& res.path@.no_duplicates()
            &&& is_path_cost(edge_cost, res.path@, res.cost as int)
            &&& res.path@.len() - 1 <= res.explored
        },
        graph@.contains_key(start) && start == goal ==> (r matches Some(res) && res.path@ == seq![start]
            && res.cost == 0 && res.explored == 0),
        forall|ec: spec_fn(usize, usize) -> int| #[trigger]
            optimality_premise(graph@, heuristic, edge_cost, ec, goal) ==> (r matches Some(res) ==> {
                &&& res.cost == cost_along(ec, res.path@)
                &&& forall|q: Seq<usize>| #[trigger]
                    is_walk_between(graph@, q, start, goal) ==> res.cost <= cost_along(ec, q)
            }),
        forall|hf: spec_fn(usize) -> int, ec: spec_fn(usize, usize) -> int| #[trigger]
            consistency_premise(graph@, heuristic, edge_cost, hf, ec) ==> (r matches Some(res) ==> {
                &&& res.explored <= graph@.dom().len()
                &&& must_expand(graph@, start, goal, hf, ec, res.cost as int).len() <= res.explored
                &&& res.explored <= may_expand(graph@, start, goal, hf, ec, res.cost as int).len()
            }),
{
    let ghost g = graph@;
    let ghost cons = exists|hf: spec_fn(usize) -> int, ec: spec_fn(usize, usize) -> int| #[trigger]
        consistency_premise(g, heuristic, edge_cost, hf, ec);
    let ghost (hf0, ec0) = choose|hf: spec_fn(usize) -> int, ec: spec_fn(usize, usize) -> int| #[trigger]
        consistency_premise(g, heuristic, edge_cost, hf, ec) && (sums_fit(g, start, goal, heuristic, edge_cost)
            || least_sums_fit(g, start, goal, hf, ec));
    let ncount = graph.node_count();
    proof {
        graph.lemma_finite();
    }
    if graph.get(start).is_none() || graph.get(goal).is_none() {
        proof {
            if reachable(g, start, goal) {
                let n = choose|n: nat| #[trigger] reach_in(g, start, goal, n);
                let p = crate::paths::lemma_reach_in_walk(g, start, goal, n);
                assert(g.contains_key(p[0]));
                assert(g.contains_key(p[p.len() - 1]));
            }
        }
        return None;
    }

    let mut open: Vec<AStarNode> = Vec::new();
    let mut g_scores: HashMap<usize, i64> = HashMap::new();
    let mut closed: HashSet<usize> = HashSet::new();
    let mut explored: usize = 0;

    g_scores.insert(start, 0);
    let h0 = heuristic(start);
    let mut p0: Vec<usize> = Vec::new();
    p0.push(start);
    open.push(
        AStarNode {
            node_id: start,
            g_cost: 0,
            f_cost: h0,
            path: p0,
            step_costs: Ghost(Seq::empty()),
            estimate: Ghost(h0),
        },
    );
    let ghost mut wit: Map<usize, (Seq<usize>, Seq<i64>)> = map![start => (seq![start], Seq::<i64>::empty())];
    let ghost mut keys: Seq<usize> = seq![start];
    let ghost mut fmin: int = i64::MIN as int;
    proof {
        let e0 = open@[0];
        assert(e0.path@ =~= seq![start]);
        assert(seq_sum(Seq::<i64>::empty()) == 0);
        assert(is_walk_between(g, seq![start], start, start));
        assert(search_walk_costs(g, start, goal, edge_cost, seq![start], Seq::<i64>::empty()));
        assert(entry_ok(g, start, goal, heuristic, edge_cost, g_scores@, 0, e0));
        assert(g_scores@.dom() =~= set![start]);
        assert(wit.dom() =~= set![start]);
        assert forall|k: usize| #![trigger keys.contains(k)] #![trigger g_scores@.contains_key(k)] keys.contains(k) <==> g_scores@.contains_key(k) by {
            if keys.contains(k) {
                let i = choose|i: int| 0 <= i < keys.len() && keys[i] == k;
            }
            if k == start {
                assert(keys[0] == start);
            }
        }
        assert forall|v: usize| #[trigger] g_scores@.contains_key(v) implies witness_ok(g, start, goal, edge_cost, g_scores@, wit, v) by {
            assert(v == start);
        }
        assert forall|w: usize| #![trigger g_scores@.contains_key(w)]
            g_scores@.contains_key(w) && !closed@.contains(w) implies exists|i: int|
                0 <= i < open@.len() && (#[trigger] open@[i]).node_id == w && open@[i].g_cost == g_scores@[w] by {
            assert(open@[0].node_id == w);
        }
        assert(search_state(g, start, goal, heuristic, edge_cost, closed@, g_scores@, wit, keys, 0, open@));
    }

    while open.len() > 0
        invariant
            g == graph@,
            ncount == g.dom().len(),
            env_ok(g, start, goal, heuristic, edge_cost),
            search_state(g, start, goal, heuristic, edge_cost, closed@, g_scores@, wit, keys, explored as int, open@),
            start == goal ==> open@.len() == 1 && open@[0].node_id == start && open@[0].path@ == seq![start]
                && open@[0].g_cost == 0 && explored == 0,
            cons == exists|hf: spec_fn(usize) -> int, ec: spec_fn(usize, usize) -> int| #[trigger]
                consistency_premise(g, heuristic, edge_cost, hf, ec),
            sums_fit(g, start, goal, heuristic, edge_cost) || (cons && least_sums_fit(g, start, goal, hf0, ec0)),
            cons ==> consistency_premise(g, heuristic, edge_cost, hf0, ec0) && explored == closed@.len()
                && settled(g, start, ec0, closed@, g_scores@),
            cons ==> forall|i: int| 0 <= i < open@.len() ==> fmin <= #[trigger] open@[i].f_cost,
            forall|hf: spec_fn(usize) -> int, ec: spec_fn(usize, usize) -> int| #[trigger]
                consistency_premise(g, heuristic, edge_cost, hf, ec) ==> settled(g, start, ec, closed@, g_scores@)
                    && forall|c: usize| #[trigger] closed@.contains(c) ==> g_scores@[c] + hf(c) <= fmin,
        decreases measure(g.dom().len(), keys, g_scores@), open@.len(),
    {
        proof {
            lemma_distinct_len(keys, g.dom());
            lemma_potential_nonneg(keys, g_scores@);
        }
        let idx = min_f_index(&open);
        let ghost open0 = open@;
        let current = open.remove(idx);
        proof {
            assert(current == open0[idx as int]);
            assert(open@ == open0.remove(idx as int));
        }
        if current.node_id == goal {
            proof {
                lemma_goal_entry(
                    g,
                    start,
                    goal,
                    heuristic,
                    edge_cost,
                    closed@,
                    g_scores@,
                    wit,
                    keys,
                    explored as int,
                    open0,
                    idx as int,
                );
            }
            proof {
                assert forall|hf: spec_fn(usize) -> int, ec: spec_fn(usize, usize) -> int| #[trigger]
                    consistency_premise(g, heuristic, edge_cost, hf, ec) implies {
                        &&& explored <= g.dom().len()
                        &&& must_expand(g, start, goal, hf, ec, current.g_cost as int).len() <= explored
                        &&& explored <= may_expand(g, start, goal, hf, ec, current.g_cost as int).len()
                    } by {
                    assert(cons);
                    vstd::set_lib::lemma_len_subset(closed@, g.dom());
                    lemma_expansion_bounds(
                        g,
                        start,
                        goal,
                        heuristic,
                        edge_cost,
                        hf,
                        ec,
                        closed@,
                        g_scores@,
                        wit,
                        keys,
                        explored as int,
                        open0,
                        idx as int,
                        fmin,
                    );
                    vstd::set_lib::lemma_len_subset(
                        must_expand(g, start, goal, hf, ec, current.g_cost as int),
                        closed@,
                    );
                    vstd::set_lib::lemma_len_subset(
                        closed@,
                        may_expand(g, start, goal, hf, ec, current.g_cost as int),
                    );
                }
            }
            return Some(AStarResult { path: current.path, cost: current.g_cost, explored });
        }
        if closed.contains(&current.node_id) {
            proof {
                lemma_skip_entry(
                    g,
                    start,
                    goal,
                    heuristic,
                    edge_cost,
                    closed@,
                    g_scores@,
                    wit,
                    keys,
                    explored as int,
                    open0,
                    idx as int,
                );
                if cons {
                    lemma_remove_f_bound(open0, idx as int, fmin);
                }
            }
            continue;
        }
        let best_g = match g_scores.get(&current.node_id) {
            Some(v) => *v,
            None => i64::MAX,
        };
        proof {
            assert(entry_ok(g, start, goal, heuristic, edge_cost, g_scores@, explored as int, current));
            assert(g_scores@.contains_key(current.path@[current.path@.len() - 1]));
        }
        if current.g_cost > best_g {
            proof {
                lemma_skip_entry(
                    g,
                    start,
                    goal,
                    heuristic,
                    edge_cost,
                    closed@,
                    g_scores@,
                    wit,
                    keys,
                    explored as int,
                    open0,
                    idx as int,
                );
                if cons {
                    lemma_remove_f_bound(open0, idx as int, fmin);
                }
            }
            continue;
        }
        let ghost explored0 = explored as int;
        let ghost closed0 = closed@;
        proof {
            if cons {
                vstd::set_lib::lemma_set_subset_finite(g.dom(), closed0);
                vstd::set_lib::lemma_len_subset(closed0.insert(current.node_id), g.dom());
                assert(closed0.insert(current.node_id).len() == closed0.len() + 1);
            }
        }
        explored = explored.saturating_add(1);
        proof {
            lemma_distinct_len(current.path@, g.dom());
            lemma_close_entry(
                g,
                start,
                goal,
                heuristic,
                edge_cost,
                closed@,
                g_scores@,
                wit,
                keys,
                explored0,
                explored as int,
                open0,
                idx as int,
            );
        }
        let ghost fnext = current.f_cost as int;
        proof {
            assert forall|hf: spec_fn(usize) -> int, ec: spec_fn(usize, usize) -> int| #[trigger]
                consistency_premise(g, heuristic, edge_cost, hf, ec) implies settled(
                g,
                start,
                ec,
                closed0.insert(current.node_id),
                g_scores@,
            ) && forall|c: usize| #[trigger] closed0.insert(current.node_id).contains(c) ==> g_scores@[c] + hf(c)
                <= fnext by {
                assert(cons);
                law_consistent_is_admissible(g, heuristic, edge_cost, hf, ec, current.node_id);
                assert forall|c2: usize, q: Seq<usize>|
                    closed0.insert(current.node_id).contains(c2) && #[trigger] is_walk_between(g, q, start, c2)
                    implies g_scores@[c2] <= cost_along(ec, q) by {
                    if c2 == current.node_id {
                        lemma_pop_bound(
                            g,
                            start,
                            goal,
                            heuristic,
                            edge_cost,
                            ec,
                            closed0,
                            g_scores@,
                            wit,
                            keys,
                            explored0,
                            open0,
                            idx as int,
                            q,
                        );
                    }
                }
                assert(entry_ok(g, start, goal, heuristic, edge_cost, g_scores@, explored0, current));
                assert(current.estimate@ == hf(current.node_id));
                assert(fmin <= open0[idx as int].f_cost);
            }
            if cons {
                law_consistent_is_admissible(g, heuristic, edge_cost, hf0, ec0, current.node_id);
                assert forall|c2: usize, q: Seq<usize>|
                    closed0.insert(current.node_id).contains(c2) && #[trigger] is_walk_between(g, q, start, c2)
                    implies g_scores@[c2] <= cost_along(ec0, q) by {
                    if c2 == current.node_id {
                        lemma_pop_bound(
                            g,
                            start,
                            goal,
                            heuristic,
                            edge_cost,
                            ec0,
                            closed0,
                            g_scores@,
                            wit,
                            keys,
                            explored0,
                            open0,
                            idx as int,
                            q,
                        );
                    }
                }
            }
        }
        closed.insert(current.node_id);
        let ghost gs_pre = g_scores@;
        let ghost closed_pre = closed@;
        proof {
            assert(closed_pre == closed0.insert(current.node_id));
        }
        let (Ghost(wit1), Ghost(keys1)) = expand_node(
            graph,
            &current,
            &mut closed,
            &mut open,
            &mut g_scores,
            &heuristic,
            &edge_cost,
            Ghost(start),
            Ghost(goal),
            Ghost(explored as int),
            Ghost(wit),
            Ghost(keys),
            Ghost(cons),
            Ghost(hf0),
            Ghost(ec0),
        );
        proof {
            wit = wit1;
            keys = keys1;
            fmin = fnext;
            assert forall|hf: spec_fn(usize) -> int, ec: spec_fn(usize, usize) -> int| #[trigger]
                consistency_premise(g, heuristic, edge_cost, hf, ec) implies settled(g, start, ec, closed@, g_scores@)
                && forall|c: usize| #[trigger] closed@.contains(c) ==> g_scores@[c] + hf(c) <= fmin by {
                assert(cons);
                assert(closed@ == closed_pre);
                assert forall|c2: usize, q: Seq<usize>|
                    closed@.contains(c2) && #[trigger] is_walk_between(g, q, start, c2) implies g_scores@[c2]
                    <= cost_along(ec, q) by {
                    assert(g_scores@[c2] == gs_pre[c2]);
                    assert(settled(g, start, ec, closed_pre, gs_pre));
                }
                assert forall|c: usize| #[trigger] closed@.contains(c) implies g_scores@[c] + hf(c) <= fmin by {
                    assert(g_scores@[c] == gs_pre[c]);
                }
            }
            assert forall|i: int| 0 <= i < keys.len() implies g.dom().contains(#[trigger] keys[i]) by {
                assert(keys.contains(keys[i]));
                assert(g_scores@.contains_key(keys[i]));
            }
            lemma_distinct_len(keys, g.dom());
            lemma_potential_nonneg(keys, g_scores@);
        }
    }
    proof {
        if costs_below_max(g, start, goal, edge_cost) {
            lemma_exhausted(g, start, goal, heuristic, edge_cost, closed@, g_scores@, wit, keys, explored as int, open@);
        }
    }
    None
}

} // verus!
