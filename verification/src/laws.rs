//! Properties that relate the searches to one another.

use vstd::prelude::*;

use crate::beam::{beam_at, beam_search_spec, best_of, history, max_score};
use crate::bfs::bfs_result_spec;
use crate::dfs::dfs_result_spec;
use crate::graph::StrategyNode;
use crate::paths::{is_shortest, lemma_reach_in_reverse, reach_in, reachable, symmetric};
use crate::threshold::{
    first_bisect, lemma_first_bisect_least, lemma_threshold_bisect_least, threshold_bisect,
};

verus! {

/// In a graph whose adjacencies all run both ways, `b` can be reached from `a`
/// exactly when `a` can be reached from `b`; so `is_connected` is symmetric.
pub proof fn law_connected_symmetric(g: Map<usize, StrategyNode>, a: usize, b: usize)
    requires
        symmetric(g),
    ensures
        reachable(g, a, b) == reachable(g, b, a),
{
    if reachable(g, a, b) {
        let n = choose|n: nat| #[trigger] reach_in(g, a, b, n);
        lemma_reach_in_reverse(g, a, b, n);
    }
    if reachable(g, b, a) {
        let n = choose|n: nat| #[trigger] reach_in(g, b, a, n);
        lemma_reach_in_reverse(g, b, a, n);
    }
}

/// A node has only one shortest distance from `s`.
pub proof fn law_shortest_distance_unique(
    g: Map<usize, StrategyNode>,
    s: usize,
    v: usize,
    d1: nat,
    d2: nat,
)
    requires
        is_shortest(g, s, v, d1),
        is_shortest(g, s, v, d2),
    ensures
        d1 == d2,
{
    if d1 < d2 {
        assert(!reach_in(g, s, v, d1));
    }
    if d2 < d1 {
        assert(!reach_in(g, s, v, d2));
    }
}

/// A path that `shortest_path` may return has one node more than the distance
/// that `bfs` from the same start records for the goal.
pub proof fn law_shortest_path_matches_bfs(
    g: Map<usize, StrategyNode>,
    start: usize,
    goal: usize,
    visited: Seq<usize>,
    dist: Map<usize, usize>,
    parents: Map<usize, Option<usize>>,
    path: Seq<usize>,
)
    requires
        bfs_result_spec(g, start, visited, dist, parents),
        path.len() > 0,
        is_shortest(g, start, goal, (path.len() - 1) as nat),
    ensures
        dist.contains_key(goal),
        path.len() == dist[goal] + 1,
{
    assert(reach_in(g, start, goal, (path.len() - 1) as nat));
    if !g.contains_key(start) {
        let p = crate::paths::lemma_reach_in_walk(g, start, goal, (path.len() - 1) as nat);
        assert(g.contains_key(p[0]));
    }
    assert(reachable(g, start, goal));
    assert(dist.contains_key(goal));
    assert(is_shortest(g, start, goal, dist[goal] as nat));
    law_shortest_distance_unique(g, start, goal, (path.len() - 1) as nat, dist[goal] as nat);
}

/// Breadth-first and depth-first search from the same start visit the same nodes.
pub proof fn law_bfs_dfs_same_nodes(
    g: Map<usize, StrategyNode>,
    start: usize,
    bfs_visited: Seq<usize>,
    dist: Map<usize, usize>,
    parents: Map<usize, Option<usize>>,
    dfs_visited: Seq<usize>,
    disc: Seq<usize>,
    fin: Seq<usize>,
)
    requires
        bfs_result_spec(g, start, bfs_visited, dist, parents),
        dfs_result_spec(g, start, dfs_visited, disc, fin),
    ensures
        bfs_visited.len() == dfs_visited.len(),
        forall|v: usize| #[trigger] bfs_visited.contains(v) <==> #[trigger] dfs_visited.contains(v),
{
    if g.contains_key(start) {
        assert(bfs_visited.to_set() =~= dfs_visited.to_set()) by {
            assert forall|v: usize| bfs_visited.to_set().contains(v) <==> dfs_visited.to_set().contains(v) by {
                assert(bfs_visited.contains(v) <==> reachable(g, start, v));
                assert(dfs_visited.contains(v) <==> reachable(g, start, v));
            }
        }
        assert(bfs_visited.no_duplicates());
        assert(dfs_visited == disc);
        assert(dfs_visited.no_duplicates());
        bfs_visited.unique_seq_to_set();
        dfs_visited.unique_seq_to_set();
    }
}

/// After the first round, the beam never holds more than `w` candidates.
pub proof fn law_beam_width(
    g: Map<usize, StrategyNode>,
    sc: spec_fn(StrategyNode) -> int,
    w: nat,
    c0: (usize, int, Seq<usize>),
    t: nat,
)
    requires
        t > 0,
    ensures
        beam_at(g, sc, w, c0, t).len() <= w,
{
}

/// No candidate the beam ever held within `d` rounds scores above the
/// candidates that beam search returns, and those all score the same.
pub proof fn law_beam_result_is_best(
    g: Map<usize, StrategyNode>,
    sc: spec_fn(StrategyNode) -> int,
    start: usize,
    w: nat,
    d: nat,
)
    requires
        g.contains_key(start),
    ensures
        ({
            let h = history(g, sc, w, (start, sc(g[start]), seq![start]), d);
            let r = beam_search_spec(g, sc, start, w, d);
            &&& r.len() > 0
            &&& forall|i: int| 0 <= i < r.len() ==> (#[trigger] r[i]).1 == max_score(h)
            &&& forall|j: int| 0 <= j < h.len() ==> (#[trigger] h[j]).1 <= max_score(h)
        }),
{
    let c0 = (start, sc(g[start]), seq![start]);
    let h = history(g, sc, w, c0, d);
    crate::beam::lemma_history_nonempty(g, sc, w, c0, d);
    crate::beam::lemma_max_score_bounds(h);
    let p = |c: (usize, int, Seq<usize>)| c.1 == max_score(h);
    let r = h.filter(p);
    assert(r == best_of(h));
    assert forall|i: int| 0 <= i < r.len() implies (#[trigger] r[i]).1 == max_score(h) by {
        h.lemma_filter_pred(p, i);
    }
    let j = choose|j: int| 0 <= j < h.len() && h[j].1 == max_score(h);
    h.lemma_filter_contains(p, j);
}


/// For a predicate that is monotone on `[low, high]` and holds somewhere there,
/// the search for the first point where it holds finds the point where the
/// threshold search ends on its sign, `0` where it holds and `-1` where not.
pub proof fn law_first_nonneg_matches_threshold(low: i64, high: i64, pv: spec_fn(i64) -> bool)
    requires
        low <= high,
        forall|x: i64, y: i64| #![trigger pv(x), pv(y)] low <= x <= y <= high && pv(x) ==> pv(y),
        exists|x: i64| low <= x <= high && #[trigger] pv(x),
    ensures
        first_bisect(low as int, high as int, None, pv) == Some(
            threshold_bisect(low as int, high as int, |x: i64| if pv(x) { 0int } else { -1int }) as i64,
        ),
{
    let ev = |x: i64| if pv(x) { 0int } else { -1int };
    assert forall|x: i64, y: i64| #![trigger ev(x), ev(y)] low <= x <= y < high && ev(x) >= 0 implies ev(y) >= 0 by {
        assert(pv(x));
    }
    lemma_threshold_bisect_least(low as int, high as int, ev);
    lemma_first_bisect_least(low as int, high as int, None, pv);
    let r1 = first_bisect(low as int, high as int, None, pv)->0;
    let r2 = threshold_bisect(low as int, high as int, ev);
    let m2 = r2 as i64;
    if r2 == high {
        let x = choose|x: i64| low <= x <= high && #[trigger] pv(x);
        if x < high {
            assert(ev(x) < 0);
        }
    } else {
        assert(ev(m2) >= 0);
    }
    assert(pv(m2));
    if r1 > m2 {
        assert(!pv(m2));
    }
    if r1 < m2 {
        assert(ev(r1) < 0);
    }
}

} // verus!
