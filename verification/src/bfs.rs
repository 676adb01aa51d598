//! Breadth-first search, shortest paths and connectivity.

use std::collections::{HashMap, HashSet, VecDeque};
use vstd::prelude::*;

use crate::graph::{StrategyGraph, StrategyNode};
use crate::paths::{
    edge, first_index, is_shortest, is_walk_between, lemma_first_index_at, lemma_first_index_no_dup,
    lemma_walk_reach_in, reach_in, reachable,
};

verus! {

broadcast use vstd::std_specs::hash::group_hash_axioms;

/// BFS result.
#[derive(Debug, Clone)]
pub struct BfsResult {
    pub visited: Vec<usize>,
    pub distances: HashMap<usize, usize>,
    pub parents: HashMap<usize, Option<usize>>,
}

/// Where `v` was discovered from: the position of its parent in `visited`,
/// and the position of `v` in that parent's neighbor list.
pub open spec fn discovery_key(
    g: Map<usize, StrategyNode>,
    visited: Seq<usize>,
    parents: Map<usize, Option<usize>>,
    v: usize,
) -> (int, int) {
    let p = parents[v]->0;
    (first_index(visited, p), first_index(g[p].neighbors@, v))
}

/// `a` comes before `b` in lexicographic order.
pub open spec fn key_less(a: (int, int), b: (int, int)) -> bool {
    a.0 < b.0 || (a.0 == b.0 && a.1 < b.1)
}

/// The order in which the search took nodes off its queue: each node after
/// `start` was discovered from the first visited node it is a neighbor of,
/// and nodes come in the order of the position of their parent in `visited`,
/// then of their own position in the parent's neighbor list.
#[verifier::opaque]
pub open spec fn bfs_order_spec(
    g: Map<usize, StrategyNode>,
    visited: Seq<usize>,
    parents: Map<usize, Option<usize>>,
) -> bool {
    &&& forall|j: int, l: int|
        0 < j < visited.len() && 0 <= l < discovery_key(g, visited, parents, #[trigger] visited[j]).0
            ==> !edge(g, #[trigger] visited[l], visited[j])
    &&& forall|j1: int, j2: int|
        0 < j1 < j2 < visited.len() ==> key_less(
            discovery_key(g, visited, parents, #[trigger] visited[j1]),
            discovery_key(g, visited, parents, #[trigger] visited[j2]),
        )
}

/// The discovery order of the nodes seen so far (`vis` then `q`).
#[verifier::opaque]
spec fn order_inv(
    g: Map<usize, StrategyNode>,
    vis: Seq<usize>,
    q: Seq<usize>,
    par: Map<usize, Option<usize>>,
) -> bool {
    let order = vis + q;
    &&& forall|j: int| 0 < j < order.len() ==> vis.contains(par[#[trigger] order[j]]->0)
    &&& forall|j: int, l: int|
        0 < j < order.len() && 0 <= l < discovery_key(g, vis, par, #[trigger] order[j]).0
            ==> !edge(g, #[trigger] vis[l], order[j])
    &&& forall|j1: int, j2: int|
        0 < j1 < j2 < order.len() ==> key_less(
            discovery_key(g, vis, par, #[trigger] order[j1]),
            discovery_key(g, vis, par, #[trigger] order[j2]),
        )
}

/// Taking the front of the queue over to the visited nodes keeps the order.
proof fn lemma_order_pop(
    g: Map<usize, StrategyNode>,
    vis: Seq<usize>,
    q: Seq<usize>,
    par: Map<usize, Option<usize>>,
)
    requires
        order_inv(g, vis, q, par),
        q.len() > 0,
        (vis + q).no_duplicates(),
    ensures
        order_inv(g, vis.push(q[0]), q.drop_first(), par),
{
    reveal(order_inv);
    let order = vis + q;
    let vis2 = vis.push(q[0]);
    let q2 = q.drop_first();
    assert(vis2 + q2 =~= order);
    assert(vis2.no_duplicates()) by {
        assert forall|i: int, j: int| 0 <= i < j < vis2.len() implies vis2[i] != vis2[j] by {
            assert(vis2[i] == order[i] && vis2[j] == order[j]);
        }
    }
    assert(vis.no_duplicates()) by {
        assert forall|i: int, j: int| 0 <= i < j < vis.len() implies vis[i] != vis[j] by {
            assert(vis[i] == order[i] && vis[j] == order[j]);
        }
    }
    assert forall|p: usize| vis.contains(p) implies first_index(vis2, p) == first_index(vis, p) && vis2.contains(p) by {
        let i = choose|i: int| 0 <= i < vis.len() && vis[i] == p;
        lemma_first_index_no_dup(vis, i);
        lemma_first_index_no_dup(vis2, i);
        assert(vis2[i] == p);
    }
    assert forall|j: int| 0 < j < order.len() implies discovery_key(g, vis2, par, #[trigger] order[j])
        == discovery_key(g, vis, par, order[j]) && vis2.contains(par[order[j]]->0) by {
        assert(vis.contains(par[order[j]]->0));
    }
    assert forall|j: int, l: int|
        0 < j < order.len() && 0 <= l < discovery_key(g, vis2, par, #[trigger] order[j]).0
            implies !edge(g, #[trigger] vis2[l], order[j]) by {
        assert(discovery_key(g, vis2, par, order[j]) == discovery_key(g, vis, par, order[j]));
        let p = par[order[j]]->0;
        assert(vis.contains(p));
        let i = choose|i: int| 0 <= i < vis.len() && vis[i] == p;
        lemma_first_index_no_dup(vis, i);
        assert(vis2[l] == vis[l]);
    }
    assert forall|j1: int, j2: int|
        0 < j1 < j2 < order.len() implies key_less(
            discovery_key(g, vis2, par, #[trigger] order[j1]),
            discovery_key(g, vis2, par, #[trigger] order[j2]),
        ) by {
        assert(discovery_key(g, vis2, par, order[j1]) == discovery_key(g, vis, par, order[j1]));
        assert(discovery_key(g, vis2, par, order[j2]) == discovery_key(g, vis, par, order[j2]));
    }
}

/// Discovering `nb` from `cur`, the last visited node, as its `k`-th neighbor
/// keeps the order.
proof fn lemma_order_push(
    g: Map<usize, StrategyNode>,
    start: usize,
    vis: Seq<usize>,
    q: Seq<usize>,
    par: Map<usize, Option<usize>>,
    cur: usize,
    nb: usize,
    k: int,
)
    requires
        order_inv(g, vis, q, par),
        vis.len() > 0,
        vis.last() == cur,
        (vis + q).no_duplicates(),
        !(vis + q).contains(nb),
        0 <= k < g[cur].neighbors@.len(),
        g[cur].neighbors@[k] == nb,
        !g[cur].neighbors@.take(k).contains(nb),
        forall|l: int| 0 <= l < vis.len() - 1 ==> !edge(g, #[trigger] vis[l], nb),
        forall|j: int|
            0 < j < (vis + q).len() && par[(vis + q)[j]]->0 == cur ==> first_index(
                g[cur].neighbors@,
                #[trigger] (vis + q)[j],
            ) < k,
    ensures
        order_inv(g, vis, q.push(nb), par.insert(nb, Some(cur))),
{
    reveal(order_inv);
    let order = vis + q;
    let order2 = vis + q.push(nb);
    let par2 = par.insert(nb, Some(cur));
    assert(order2 =~= order.push(nb));
    assert(vis.no_duplicates()) by {
        assert forall|i: int, j: int| 0 <= i < j < vis.len() implies vis[i] != vis[j] by {
            assert(vis[i] == order[i] && vis[j] == order[j]);
        }
    }
    lemma_first_index_no_dup(vis, vis.len() - 1);
    lemma_first_index_at(g[cur].neighbors@, nb, k);
    assert(discovery_key(g, vis, par2, nb) == (vis.len() - 1, k));
    assert forall|j: int| 0 < j < order.len() implies discovery_key(g, vis, par2, #[trigger] order[j])
        == discovery_key(g, vis, par, order[j]) by {
        assert(order[j] != nb) by {
            assert(order.contains(order[j]));
        }
    }
    assert(vis.contains(cur)) by {
        assert(vis[vis.len() - 1] == cur);
    }
    assert forall|j: int| 0 < j < order2.len() implies vis.contains(par2[#[trigger] order2[j]]->0) by {
        if j < order.len() {
            assert(order2[j] == order[j]);
            assert(order[j] != nb) by {
                assert(order.contains(order[j]));
            }
        }
    }
    assert forall|j: int, l: int|
        0 < j < order2.len() && 0 <= l < discovery_key(g, vis, par2, #[trigger] order2[j]).0
            implies !edge(g, #[trigger] vis[l], order2[j]) by {
        if j < order.len() {
            assert(order2[j] == order[j]);
            assert(discovery_key(g, vis, par2, order[j]) == discovery_key(g, vis, par, order[j]));
        }
    }
    assert forall|j1: int, j2: int|
        0 < j1 < j2 < order2.len() implies key_less(
            discovery_key(g, vis, par2, #[trigger] order2[j1]),
            discovery_key(g, vis, par2, #[trigger] order2[j2]),
        ) by {
        assert(order2[j1] == order[j1]);
        assert(discovery_key(g, vis, par2, order[j1]) == discovery_key(g, vis, par, order[j1]));
        if j2 < order.len() {
            assert(order2[j2] == order[j2]);
            assert(discovery_key(g, vis, par2, order[j2]) == discovery_key(g, vis, par, order[j2]));
        } else {
            let x = order[j1];
            let p = par[x]->0;
            assert(vis.contains(p));
            let i = choose|i: int| 0 <= i < vis.len() && vis[i] == p;
            lemma_first_index_no_dup(vis, i);
            if i == vis.len() - 1 {
                assert(p == cur);
            }
        }
    }
}

/// What a breadth-first search from `start` gives: the nodes reachable from
/// `start`, each once, in order of their distance; the fewest edges to each;
/// and for each but `start` a neighbor one edge closer to `start`.
pub open spec fn bfs_result_spec(
    g: Map<usize, StrategyNode>,
    start: usize,
    visited: Seq<usize>,
    dist: Map<usize, usize>,
    parents: Map<usize, Option<usize>>,
) -> bool {
    if !g.contains_key(start) {
        &&& visited.len() == 0
        &&& dist.dom().is_empty()
        &&& parents.dom().is_empty()
    } else {
        &&& visited.no_duplicates()
        &&& visited.len() > 0
        &&& visited[0] == start
        &&& forall|v: usize| #[trigger] visited.contains(v) <==> reachable(g, start, v)
        &&& forall|v: usize| #[trigger] dist.contains_key(v) <==> reachable(g, start, v)
        &&& forall|v: usize| #[trigger]
            dist.contains_key(v) ==> is_shortest(g, start, v, dist[v] as nat)
        &&& forall|i: int, j: int|
            0 <= i <= j < visited.len() ==> dist[#[trigger] visited[i]] <= dist[#[trigger] visited[j]]
        &&& parents.dom() == dist.dom()
        &&& bfs_order_spec(g, visited, parents)
        &&& parents[start] == Option::<usize>::None
        &&& forall|v: usize| #[trigger]
            parents.contains_key(v) && v != start ==> {
                &&& parents[v] is Some
                &&& dist.contains_key(parents[v]->0)
                &&& edge(g, parents[v]->0, v)
                &&& dist[parents[v]->0] + 1 == dist[v]
            }
    }
}

/// The state of the search between two steps: the nodes taken off the queue
/// (`vis`), the queue (`q`), the nodes seen so far, and their distances and parents.
spec fn bfs_inv(
    g: Map<usize, StrategyNode>,
    s: usize,
    vis: Seq<usize>,
    q: Seq<usize>,
    seen: Set<usize>,
    dist: Map<usize, usize>,
    par: Map<usize, Option<usize>>,
) -> bool {
    let order = vis + q;
    &&& dist.dom() == seen
    &&& par.dom() == seen
    &&& order.no_duplicates()
    &&& forall|x: usize| #[trigger] order.contains(x) <==> seen.contains(x)
    &&& forall|x: usize| #[trigger] seen.contains(x) ==> g.contains_key(x)
    &&& forall|i: int, j: int|
        0 <= i <= j < order.len() ==> dist[#[trigger] order[i]] <= dist[#[trigger] order[j]]
    &&& forall|j: int| 0 <= j < q.len() ==> dist[#[trigger] q[j]] <= dist[q[0]] + 1
    &&& forall|x: usize| #[trigger] seen.contains(x) ==> reach_in(g, s, x, dist[x] as nat)
    &&& forall|u: usize, w: usize|
        vis.contains(u) && #[trigger] edge(g, u, w) ==> seen.contains(w) && dist[w] <= dist[u] + 1
    &&& seen.contains(s)
    &&& dist[s] == 0
    &&& par[s] == Option::<usize>::None
    &&& order.len() > 0
    &&& order[0] == s
    &&& forall|x: usize| #[trigger]
        seen.contains(x) && x != s ==> {
            &&& par[x] is Some
            &&& vis.contains(par[x]->0)
            &&& edge(g, par[x]->0, x)
            &&& dist[par[x]->0] + 1 == dist[x]
        }
    &&& forall|i: int| 0 <= i < order.len() ==> dist[#[trigger] order[i]] <= i
}

/// Once the queue is empty, every node reachable in `n` edges has been seen,
/// at a distance of at most `n`.
proof fn lemma_bfs_complete(
    g: Map<usize, StrategyNode>,
    s: usize,
    vis: Seq<usize>,
    seen: Set<usize>,
    dist: Map<usize, usize>,
    par: Map<usize, Option<usize>>,
    v: usize,
    n: nat,
)
    requires
        bfs_inv(g, s, vis, Seq::empty(), seen, dist, par),
        reach_in(g, s, v, n),
    ensures
        seen.contains(v),
        dist[v] <= n,
    decreases n,
{
    assert(vis + Seq::<usize>::empty() =~= vis);
    if n > 0 {
        let u = choose|u: usize| reach_in(g, s, u, (n - 1) as nat) && #[trigger] edge(g, u, v);
        lemma_bfs_complete(g, s, vis, seen, dist, par, u, (n - 1) as nat);
        assert(vis.contains(u));
    }
}

/// Breadth-first search on a strategy graph.
pub fn bfs(graph: &StrategyGraph, start: usize) -> (r: BfsResult)
    ensures
        bfs_result_spec(graph@, start, r.visited@, r.distances@, r.parents@),
{
    let mut visited: Vec<usize> = Vec::new();
    let mut distances: HashMap<usize, usize> = HashMap::new();
    let mut parents: HashMap<usize, Option<usize>> = HashMap::new();
    let mut queue: VecDeque<usize> = VecDeque::new();
    let mut seen: HashSet<usize> = HashSet::new();

    if graph.get(start).is_none() {
        assert(distances@.dom() =~= Set::<usize>::empty());
        assert(parents@.dom() =~= Set::<usize>::empty());
        return BfsResult { visited, distances, parents };
    }
    let ghost g = graph@;

    queue.push_back(start);
    seen.insert(start);
    distances.insert(start, 0);
    parents.insert(start, None);
    proof {
        let order = visited@ + queue@;
        assert(order =~= seq![start]);
        assert(distances@.dom() =~= seen@);
        assert(parents@.dom() =~= seen@);
        assert(reach_in(g, start, start, 0));
        graph.lemma_finite();
        assert(order.no_duplicates());
        assert forall|x: usize| #[trigger] order.contains(x) <==> seen@.contains(x) by {
            if x == start {
                assert(order[0] == start);
            }
        }
        assert(bfs_inv(g, start, visited@, queue@, seen@, distances@, parents@));
        reveal(order_inv);
        assert(order_inv(g, visited@, queue@, parents@));
    }

    while queue.len() > 0
        invariant
            g == graph@,
            g.contains_key(start),
            g.dom().finite(),
            bfs_inv(g, start, visited@, queue@, seen@, distances@, parents@),
            order_inv(g, visited@, queue@, parents@),
        decreases g.dom().difference(seen@).len() + queue@.len(),
    {
        let ghost vis0 = visited@;
        let ghost q0 = queue@;
        let ghost seen0 = seen@;
        let ghost dist0 = distances@;
        let current = queue.pop_front().unwrap();
        visited.push(current);
        let vl = visited.len();
        proof {
            assert(visited@ + queue@ =~= vis0 + q0);
            assert((vis0 + q0)[vis0.len() as int] == current);
            assert((vis0 + q0).contains(current));
            assert(seen0.contains(current));
            assert(q0[0] == current);
            assert(queue@ =~= q0.drop_first());
            lemma_order_pop(g, vis0, q0, parents@);
            assert forall|j: int|
                0 < j < (visited@ + queue@).len() implies parents@[(visited@ + queue@)[j]]->0 != current by {
                let order = vis0 + q0;
                let x = order[j];
                assert((visited@ + queue@)[j] == x);
                assert(order.contains(x));
                assert(x != start) by {
                    assert(order[0] == start);
                }
                assert(vis0.contains(parents@[x]->0));
                if parents@[x]->0 == current {
                    let i = choose|i: int| 0 <= i < vis0.len() && vis0[i] == current;
                    assert(order[i] == current);
                }
            }
        }
        let node = graph.get(current).unwrap();
        let dcur = *distances.get(&current).unwrap();
        proof {
            let order = vis0 + q0;
            assert forall|x: usize| #[trigger] seen@.contains(x) implies distances@[x] <= dcur + 1 by {
                assert(order.contains(x));
                let i = choose|i: int| 0 <= i < order.len() && order[i] == x;
                if i < vis0.len() + 1 {
                    if i < vis0.len() {
                        assert(dist0[order[i]] <= dist0[order[vis0.len() as int]]);
                    }
                } else {
                    assert(q0[i - vis0.len()] == x);
                }
            }
            if queue@.len() > 0 {
                assert(order[vis0.len() as int + 1] == queue@[0]);
                assert(dist0[order[vis0.len() as int]] <= dist0[order[vis0.len() as int + 1]]);
            }
            assert(visited@ == vis0.push(current));
            assert forall|u: usize, w: usize|
                visited@.contains(u) && u != current && #[trigger] edge(g, u, w)
                implies seen@.contains(w) && distances@[w] <= distances@[u] + 1 by {
                let i = choose|i: int| 0 <= i < visited@.len() && visited@[i] == u;
                assert(vis0[i] == u);
                assert(vis0.contains(u));
            }
            assert forall|j: int| 0 <= j < queue@.len() implies distances@[#[trigger] queue@[j]]
                <= dcur + 1 by {
                assert(order[vis0.len() + 1 + j] == queue@[j]);
                assert(order.contains(queue@[j]));
            }
            assert forall|x: usize| #[trigger] seen@.contains(x) && x != start implies
                visited@.contains(parents@[x]->0) by {
                let p = parents@[x]->0;
                let i = choose|i: int| 0 <= i < vis0.len() && vis0[i] == p;
                assert(visited@[i] == p);
            }
            assert(visited@[visited@.len() - 1] == current);
            assert(visited@.last() == current);
            assert(dcur <= vis0.len()) by {
                assert(order[vis0.len() as int] == current);
            }
        }
        let m = node.neighbors.len();
        let ghost measure0 = g.dom().difference(seen@).len() + queue@.len();
        for k in 0..m
            invariant
                g == graph@,
                g.contains_key(start),
                g.dom().finite(),
                g.contains_key(current),
                *node == g[current],
                m == node.neighbors@.len(),
                vl == visited@.len(),
                visited@.len() > 0,
                visited@.last() == current,
                dcur == distances@[current],
                dcur < visited@.len(),
                seen@.contains(current),
                forall|x: usize| #[trigger] seen@.contains(x) ==> distances@[x] <= dcur + 1,
                queue@.len() > 0 ==> distances@[queue@[0]] >= dcur,
                forall|x: usize| #[trigger] seen0.contains(x) ==> seen@.contains(x) && distances@[x]
                    == dist0[x],
                forall|j: int|
                    0 <= j < k ==> (g.contains_key(#[trigger] node.neighbors@[j]) ==> seen@.contains(
                        node.neighbors@[j],
                    )),
                g.dom().difference(seen@).len() + queue@.len() == measure0,
                order_inv(g, visited@, queue@, parents@),
                forall|j: int|
                    0 < j < (visited@ + queue@).len() && parents@[(visited@ + queue@)[j]]->0 == current
                        ==> first_index(node.neighbors@, #[trigger] (visited@ + queue@)[j]) < k,
                // the invariant, except for what the current node owes its neighbors
                ({
                    let order = visited@ + queue@;
                    &&& distances@.dom() == seen@
                    &&& parents@.dom() == seen@
                    &&& order.no_duplicates()
                    &&& forall|x: usize| #[trigger] order.contains(x) <==> seen@.contains(x)
                    &&& forall|x: usize| #[trigger] seen@.contains(x) ==> g.contains_key(x)
                    &&& forall|i: int, j: int|
                        0 <= i <= j < order.len() ==> distances@[#[trigger] order[i]]
                            <= distances@[#[trigger] order[j]]
                    &&& forall|j: int|
                        0 <= j < queue@.len() ==> distances@[#[trigger] queue@[j]] <= dcur + 1
                    &&& forall|x: usize| #[trigger]
                        seen@.contains(x) ==> reach_in(g, start, x, distances@[x] as nat)
                    &&& forall|u: usize, w: usize|
                        visited@.contains(u) && u != current && #[trigger] edge(g, u, w)
                            ==> seen@.contains(w) && distances@[w] <= distances@[u] + 1
                    &&& seen@.contains(start)
                    &&& distances@[start] == 0
                    &&& parents@[start] == Option::<usize>::None
                    &&& order.len() > 0
                    &&& order[0] == start
                    &&& forall|x: usize| #[trigger]
                        seen@.contains(x) && x != start ==> {
                            &&& parents@[x] is Some
                            &&& visited@.contains(parents@[x]->0)
                            &&& edge(g, parents@[x]->0, x)
                            &&& distances@[parents@[x]->0] + 1 == distances@[x]
                        }
                    &&& forall|i: int| 0 <= i < order.len() ==> distances@[#[trigger] order[i]] <= i
                }),
        {
            let neighbor = node.neighbors[k];
            if !seen.contains(&neighbor) && graph.get(neighbor).is_some() {
                let ghost order0 = visited@ + queue@;
                let ghost seen1 = seen@;
                let ghost dist1 = distances@;
                let ghost q1 = queue@;
                let ghost par1 = parents@;
                proof {
                    assert(!node.neighbors@.take(k as int).contains(neighbor)) by {
                        if node.neighbors@.take(k as int).contains(neighbor) {
                            let j = choose|j: int| 0 <= j < k && node.neighbors@.take(k as int)[j] == neighbor;
                            assert(node.neighbors@[j] == neighbor);
                            assert(g.contains_key(node.neighbors@[j]));
                        }
                    }
                    assert forall|l: int| 0 <= l < visited@.len() - 1 implies !edge(g, #[trigger] visited@[l], neighbor) by {
                        assert(visited@.contains(visited@[l]));
                        assert(visited@[l] != current) by {
                            assert(order0[l] == visited@[l]);
                            assert(order0[visited@.len() - 1] == current);
                        }
                    }
                    assert(!order0.contains(neighbor));
                    assert(visited@.last() == current);
                    lemma_order_push(g, start, visited@, q1, par1, current, neighbor, k as int);
                }
                seen.insert(neighbor);
                distances.insert(neighbor, dcur + 1);
                parents.insert(neighbor, Some(current));
                queue.push_back(neighbor);
                proof {
                    let order = visited@ + queue@;
                    assert(order =~= order0.push(neighbor));
                    assert(distances@.dom() =~= seen@);
                    assert(parents@.dom() =~= seen@);
                    assert(!order0.contains(neighbor));
                    assert(parents@ == par1.insert(neighbor, Some(current)));
                    assert(queue@ == q1.push(neighbor));
                    lemma_first_index_at(node.neighbors@, neighbor, k as int);
                    assert forall|j: int|
                        0 < j < order.len() && parents@[order[j]]->0 == current implies first_index(
                        node.neighbors@,
                        #[trigger] order[j],
                    ) < k + 1 by {
                        if j < order0.len() {
                            assert(order[j] == order0[j]);
                            assert(order0.contains(order0[j]));
                        }
                    }
                    assert(edge(g, current, neighbor)) by {
                        assert(node.neighbors@[k as int] == neighbor);
                    }
                    assert(reach_in(g, start, current, dcur as nat));
                    assert(reach_in(g, start, neighbor, (dcur + 1) as nat));
                    assert(visited@.contains(current)) by {
                        assert(visited@[visited@.len() - 1] == current);
                    }
                    assert forall|x: usize| #[trigger] order.contains(x) <==> seen@.contains(x) by {
                        if order.contains(x) && x != neighbor {
                            let i = choose|i: int| 0 <= i < order.len() && order[i] == x;
                            assert(order0[i] == x);
                            assert(order0.contains(x));
                        }
                        if x == neighbor {
                            assert(order[order.len() - 1] == x);
                        }
                        if seen1.contains(x) {
                            assert(order0.contains(x));
                            let i = choose|i: int| 0 <= i < order0.len() && order0[i] == x;
                            assert(order[i] == x);
                        }
                    }
                    assert(g.dom().difference(seen@) =~= g.dom().difference(seen1).remove(
                        neighbor,
                    ));
                    assert(g.dom().difference(seen1).contains(neighbor));
                    assert forall|i: int| 0 <= i < order.len() implies distances@[#[trigger] order[i]]
                        <= i by {
                        if i < order0.len() {
                            assert(order0[i] == order[i]);
                        } else {
                            assert(visited@[vl - 1] == current);
                            assert(order0[vl - 1] == current);
                            assert(dist1[order0[vl - 1]] <= vl - 1);
                        }
                    }
                    assert forall|i: int, j: int|
                        0 <= i <= j < order.len() implies distances@[#[trigger] order[i]]
                        <= distances@[#[trigger] order[j]] by {
                        if j < order0.len() {
                            assert(order0[i] == order[i] && order0[j] == order[j]);
                        } else if i < order0.len() {
                            assert(order0[i] == order[i]);
                            assert(order0.contains(order0[i]));
                            assert(seen1.contains(order0[i]));
                        }
                    }
                    assert forall|j: int| 0 <= j < queue@.len() implies distances@[
                        #[trigger] queue@[j]] <= dcur + 1 by {
                        if j < q1.len() {
                            assert(q1[j] == queue@[j]);
                            assert(seen1.contains(q1[j])) by {
                                assert(order0[visited@.len() + j] == q1[j]);
                                assert(order0.contains(q1[j]));
                            }
                        }
                    }
                    if q1.len() > 0 {
                        assert(queue@[0] == q1[0]);
                    }
                    assert forall|j: int|
                        0 <= j < k + 1 implies (g.contains_key(#[trigger] node.neighbors@[j])
                        ==> seen@.contains(node.neighbors@[j])) by {
                        if j < k {
                        }
                    }
                    assert forall|x: usize| #[trigger]
                        seen@.contains(x) && x != start implies {
                            &&& parents@[x] is Some
                            &&& visited@.contains(parents@[x]->0)
                            &&& edge(g, parents@[x]->0, x)
                            &&& distances@[parents@[x]->0] + 1 == distances@[x]
                        } by {
                        if x != neighbor {
                            assert(seen1.contains(x));
                            let p = parents@[x]->0;
                            let i = choose|i: int| 0 <= i < visited@.len() && visited@[i] == p;
                            assert(order0[i] == p);
                            assert(order0.contains(p));
                            assert(seen1.contains(p));
                        } else {
                            assert(seen1.contains(current));
                        }
                    }
                }
            }
        }
        proof {
            let order = visited@ + queue@;
            assert forall|u: usize, w: usize|
                visited@.contains(u) && #[trigger] edge(g, u, w) implies seen@.contains(w)
                && distances@[w] <= distances@[u] + 1 by {
                if u == current {
                    let j = choose|j: int| 0 <= j < node.neighbors@.len() && node.neighbors@[j] == w;
                    assert(g.contains_key(node.neighbors@[j]));
                }
            }
            if queue@.len() > 0 {
                assert forall|j: int| 0 <= j < queue@.len() implies distances@[#[trigger] queue@[j]]
                    <= distances@[queue@[0]] + 1 by {
                }
            }
            assert(bfs_inv(g, start, visited@, queue@, seen@, distances@, parents@));
        }
    }
    proof {
        let vis = visited@;
        assert(vis + queue@ =~= vis);
        reveal(order_inv);
        reveal(bfs_order_spec);
        assert(bfs_order_spec(g, vis, parents@));
        assert forall|v: usize| reachable(g, start, v) implies #[trigger] seen@.contains(v) by {
            let n = choose|n: nat| #[trigger] reach_in(g, start, v, n);
            lemma_bfs_complete(g, start, vis, seen@, distances@, parents@, v, n);
        }
        assert forall|v: usize| #[trigger] distances@.contains_key(v) implies is_shortest(
            g,
            start,
            v,
            distances@[v] as nat,
        ) by {
            assert(reach_in(g, start, v, distances@[v] as nat));
            assert forall|n: nat| n < distances@[v] implies !#[trigger] reach_in(g, start, v, n) by {
                if reach_in(g, start, v, n) {
                    lemma_bfs_complete(g, start, vis, seen@, distances@, parents@, v, n);
                }
            }
        }
        assert forall|v: usize| #[trigger] seen@.contains(v) implies reachable(g, start, v) by {
            assert(reach_in(g, start, v, distances@[v] as nat));
        }
        assert forall|v: usize| #[trigger] parents@.contains_key(v) && v != start implies {
            &&& parents@[v] is Some
            &&& distances@.contains_key(parents@[v]->0)
            &&& edge(g, parents@[v]->0, v)
            &&& distances@[parents@[v]->0] + 1 == distances@[v]
        } by {
            assert(seen@.contains(v));
        }
    }
    BfsResult { visited, distances, parents }
}

/// The elements of `v` in reverse order.
fn reversed(v: &Vec<usize>) -> (r: Vec<usize>)
    ensures
        r@ == v@.reverse(),
{
    let mut r: Vec<usize> = Vec::new();
    let n = v.len();
    let mut i = n;
    while i > 0
        invariant
            n == v@.len(),
            i <= n,
            r@.len() == n - i,
            forall|j: int| 0 <= j < n - i ==> #[trigger] r@[j] == v@[n - 1 - j],
        decreases i,
    {
        i = i - 1;
        r.push(v[i]);
    }
    assert(r@ =~= v@.reverse());
    r
}

/// Find shortest path using BFS.
///
/// `None` exactly when `goal` cannot be reached from `start`; otherwise a walk
/// from `start` to `goal` with no walk between them shorter.
pub fn shortest_path(graph: &StrategyGraph, start: usize, goal: usize) -> (r: Option<Vec<usize>>)
    ensures
        r is None <==> !reachable(graph@, start, goal),
        r matches Some(p) ==> {
            &&& is_walk_between(graph@, p@, start, goal)
            &&& is_shortest(graph@, start, goal, (p@.len() - 1) as nat)
            &&& forall|q: Seq<usize>| #[trigger]
                is_walk_between(graph@, q, start, goal) ==> q.len() >= p@.len()
            &&& exists|vis: Seq<usize>, d: Map<usize, usize>, par: Map<usize, Option<usize>>|
                {
                    &&& #[trigger] bfs_result_spec(graph@, start, vis, d, par)
                    &&& forall|i: int| 0 <= i < p@.len() - 1 ==> par[#[trigger] p@[i + 1]] == Some(p@[i])
                }
        },
{
    let result = bfs(graph, start);
    let ghost g = graph@;
    if !result.distances.contains_key(&goal) {
        proof {
            if g.contains_key(start) {
            } else {
                if reachable(g, start, goal) {
                    let n = choose|n: nat| #[trigger] reach_in(g, start, goal, n);
                    let p = crate::paths::lemma_reach_in_walk(g, start, goal, n);
                    assert(g.contains_key(p[0]));
                }
            }
        }
        return None;
    }
    let ghost dist = result.distances@;
    let ghost par = result.parents@;
    let mut path: Vec<usize> = Vec::new();
    path.push(goal);
    let mut current = goal;
    loop
        invariant_except_break
            g == graph@,
            g.contains_key(start),
            bfs_result_spec(g, start, result.visited@, dist, par),
            dist == result.distances@,
            par == result.parents@,
            dist.contains_key(current),
            path@.len() > 0,
            path@[0] == goal,
            path@.last() == current,
            forall|i: int| 0 <= i < path@.len() ==> dist.contains_key(#[trigger] path@[i]),
            forall|i: int| 0 <= i < path@.len() - 1 ==> edge(g, #[trigger] path@[i + 1], path@[i]),
            forall|i: int| 0 <= i < path@.len() - 1 ==> par[#[trigger] path@[i]] == Some(path@[i + 1]),
            path@.len() + dist[current] == dist[goal] + 1,
        ensures
            g.contains_key(start),
            bfs_result_spec(g, start, result.visited@, dist, par),
            dist.contains_key(goal),
            path@.len() > 0,
            path@[0] == goal,
            path@.last() == start,
            forall|i: int| 0 <= i < path@.len() ==> g.contains_key(#[trigger] path@[i]),
            forall|i: int| 0 <= i < path@.len() - 1 ==> edge(g, #[trigger] path@[i + 1], path@[i]),
            forall|i: int| 0 <= i < path@.len() - 1 ==> par[#[trigger] path@[i]] == Some(path@[i + 1]),
            path@.len() == dist[goal] + 1,
        decreases dist[current],
    {
        match result.parents.get(&current) {
            Some(Some(parent)) => {
                let parent = *parent;
                proof {
                    assert(par.contains_key(current));
                    if current == start {
                        assert(par[start] == Option::<usize>::None);
                    }
                }
                let ghost old_path = path@;
                path.push(parent);
                proof {
                    assert forall|i: int| 0 <= i < path@.len() implies dist.contains_key(
                        #[trigger] path@[i],
                    ) by {
                        if i < old_path.len() {
                            assert(old_path[i] == path@[i]);
                        }
                    }
                    assert forall|i: int| 0 <= i < path@.len() - 1 implies edge(
                        g,
                        #[trigger] path@[i + 1],
                        path@[i],
                    ) && par[path@[i]] == Some(path@[i + 1]) by {
                        if i < old_path.len() - 1 {
                            assert(old_path[i] == path@[i] && old_path[i + 1] == path@[i + 1]);
                        }
                    }
                }
                current = parent;
            },
            _ => {
                proof {
                    assert(par.contains_key(current));
                    if current != start {
                        assert(par[current] is Some);
                    }
                    assert(dist[start] == 0) by {
                        assert(crate::paths::reach_in(g, start, start, 0));
                    }
                    assert forall|i: int| 0 <= i < path@.len() implies g.contains_key(
                        #[trigger] path@[i],
                    ) by {
                        assert(dist.contains_key(path@[i]));
                        assert(reachable(g, start, path@[i]));
                        let n = choose|n: nat| #[trigger] reach_in(g, start, path@[i], n);
                        let w = crate::paths::lemma_reach_in_walk(g, start, path@[i], n);
                        assert(g.contains_key(w[w.len() - 1]));
                    }
                }
                break;
            },
        }
    }
    let p = reversed(&path);
    proof {
        let n = path@.len();
        assert forall|i: int| 0 <= i < p@.len() implies g.contains_key(#[trigger] p@[i]) by {
            assert(p@[i] == path@[n - 1 - i]);
        }
        assert forall|i: int| 0 <= i < p@.len() - 1 implies edge(g, #[trigger] p@[i], p@[i + 1]) by {
            let j = n - 2 - i;
            assert(p@[i] == path@[j + 1] && p@[i + 1] == path@[j]);
        }
        assert(is_walk_between(g, p@, start, goal));
        assert(is_shortest(g, start, goal, dist[goal] as nat));
        assert forall|i: int| 0 <= i < p@.len() - 1 implies par[#[trigger] p@[i + 1]] == Some(p@[i]) by {
            let j = n - 2 - i;
            assert(p@[i] == path@[j + 1] && p@[i + 1] == path@[j]);
        }
        assert(bfs_result_spec(g, start, result.visited@, dist, par));
        assert forall|q: Seq<usize>| #[trigger]
            is_walk_between(g, q, start, goal) implies q.len() >= p@.len() by {
            lemma_walk_reach_in(g, q, start, goal);
            if q.len() < p@.len() {
                assert(!reach_in(g, start, goal, (q.len() - 1) as nat));
            }
        }
    }
    Some(p)
}

/// Check if two nodes are connected: whether `b` can be reached from `a`.
pub fn is_connected(graph: &StrategyGraph, a: usize, b: usize) -> (r: bool)
    ensures
        r == reachable(graph@, a, b),
{
    let result = bfs(graph, a);
    let r = result.distances.contains_key(&b);
    proof {
        let g = graph@;
        if !g.contains_key(a) && reachable(g, a, b) {
            let n = choose|n: nat| #[trigger] reach_in(g, a, b, n);
            let p = crate::paths::lemma_reach_in_walk(g, a, b, n);
            assert(g.contains_key(p[0]));
        }
    }
    r
}

} // verus!
