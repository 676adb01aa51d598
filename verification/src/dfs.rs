//! Depth-first search.

use std::collections::HashSet;
use vstd::prelude::*;

use crate::graph::{StrategyGraph, StrategyNode};
use crate::paths::{edge, first_index, lemma_first_index_at, lemma_first_index_push, reach_in, reachable};

verus! {

broadcast use vstd::std_specs::hash::group_hash_axioms;

/// DFS result.
#[derive(Debug, Clone)]
pub struct DfsResult {
    pub visited: Vec<usize>,
    pub discovery_order: Vec<usize>,
    pub finish_order: Vec<usize>,
}

/// Each neighbor of a finished node finished before it, or was discovered no
/// later than it.
pub open spec fn finish_respects_edges(
    g: Map<usize, StrategyNode>,
    disc: Seq<usize>,
    fin: Seq<usize>,
) -> bool {
    forall|i: int, k: int, w: usize|
        #![trigger fin[i], disc[k], edge(g, fin[i], w)]
        0 <= i < fin.len() && 0 <= k < disc.len() && disc[k] == fin[i] && edge(g, fin[i], w)
            ==> fin.take(i).contains(w) || disc.take(k + 1).contains(w)
}

/// `disc[j]` is the node `disc[i]` was discovered from: a node with `disc[i]`
/// as a neighbor that finished after it, such that every node discovered
/// between the two finished before `disc[i]` and before every node discovered
/// after it, and every neighbor that `disc[j]` lists before `disc[i]` was
/// discovered before it.
pub open spec fn dfs_tree_parent(
    g: Map<usize, StrategyNode>,
    disc: Seq<usize>,
    fin: Seq<usize>,
    j: int,
    i: int,
) -> bool {
    let p = disc[j];
    let v = disc[i];
    &&& edge(g, p, v)
    &&& first_index(fin, v) < first_index(fin, p)
    &&& forall|l: int| j < l < i ==> first_index(fin, #[trigger] disc[l]) < first_index(fin, v)
    &&& forall|l: int, m: int|
        #![trigger disc[l], disc[m]]
        j < l < i <= m < disc.len() ==> first_index(fin, disc[l]) < first_index(fin, disc[m])
    &&& forall|w: usize|
        #[trigger] edge(g, p, w) && first_index(g[p].neighbors@, w) < first_index(g[p].neighbors@, v)
            ==> disc.take(i).contains(w)
}

/// `disc[i]` was discovered from some node discovered before it.
pub open spec fn dfs_discovered_from_parent(
    g: Map<usize, StrategyNode>,
    disc: Seq<usize>,
    fin: Seq<usize>,
    i: int,
) -> bool {
    exists|j: int| 0 <= j < i && #[trigger] dfs_tree_parent(g, disc, fin, j, i)
}

/// What a depth-first search from `start` gives: the nodes reachable from
/// `start`, each once, in the order they were discovered (starting with
/// `start`) and in the order they were finished (ending with `start`), where
/// each node finishes after every neighbor that was not discovered before it.
pub open spec fn dfs_result_spec(
    g: Map<usize, StrategyNode>,
    start: usize,
    visited: Seq<usize>,
    disc: Seq<usize>,
    fin: Seq<usize>,
) -> bool {
    if !g.contains_key(start) {
        &&& visited.len() == 0
        &&& disc.len() == 0
        &&& fin.len() == 0
    } else {
        &&& visited == disc
        &&& disc.no_duplicates()
        &&& fin.no_duplicates()
        &&& disc.len() > 0
        &&& disc[0] == start
        &&& fin.len() > 0
        &&& fin.last() == start
        &&& forall|v: usize| #[trigger] disc.contains(v) <==> reachable(g, start, v)
        &&& forall|v: usize| #[trigger] fin.contains(v) <==> reachable(g, start, v)
        &&& finish_respects_edges(g, disc, fin)
        &&& forall|i: int| 0 < i < disc.len() ==> #[trigger] dfs_discovered_from_parent(g, disc, fin, i)
    }
}

/// While the search runs: `disc[j]` is the node `disc[i]` was discovered from,
/// as far as the nodes finished so far tell.
spec fn parent_partial(
    g: Map<usize, StrategyNode>,
    disc: Seq<usize>,
    fin: Seq<usize>,
    j: int,
    i: int,
) -> bool {
    let p = disc[j];
    let v = disc[i];
    &&& edge(g, p, v)
    &&& fin.contains(p) ==> fin.contains(v) && first_index(fin, v) < first_index(fin, p)
    &&& forall|l: int|
        j < l < i ==> fin.contains(#[trigger] disc[l]) && (fin.contains(v) ==> first_index(fin, disc[l])
            < first_index(fin, v))
    &&& forall|l: int, m: int|
        #![trigger disc[l], disc[m]]
        j < l < i <= m < disc.len() && fin.contains(disc[m]) ==> first_index(fin, disc[l])
            < first_index(fin, disc[m])
    &&& forall|w: usize|
        #[trigger] edge(g, p, w) && first_index(g[p].neighbors@, w) < first_index(g[p].neighbors@, v)
            ==> disc.take(i).contains(w)
}

spec fn has_parent(g: Map<usize, StrategyNode>, disc: Seq<usize>, fin: Seq<usize>, i: int) -> bool {
    exists|j: int| 0 <= j < i && #[trigger] parent_partial(g, disc, fin, j, i)
}

/// Every node but the first has the node it was discovered from.
#[verifier::opaque]
spec fn parents_inv(g: Map<usize, StrategyNode>, disc: Seq<usize>, fin: Seq<usize>) -> bool {
    forall|i: int| 0 < i < disc.len() ==> #[trigger] has_parent(g, disc, fin, i)
}

/// `disc[j]` may be the node `x` is discovered from next.
spec fn parent_cond(
    g: Map<usize, StrategyNode>,
    disc: Seq<usize>,
    fin: Seq<usize>,
    j: int,
    x: usize,
) -> bool {
    let p = disc[j];
    &&& 0 <= j < disc.len()
    &&& edge(g, p, x)
    &&& !fin.contains(p)
    &&& forall|l: int| j < l < disc.len() ==> fin.contains(#[trigger] disc[l])
    &&& forall|w: usize|
        #[trigger] edge(g, p, w) && first_index(g[p].neighbors@, w) < first_index(g[p].neighbors@, x)
            ==> disc.contains(w)
}

/// Discovering `x` keeps every node's parent, and gives `x` one.
#[verifier::rlimit(50)]
proof fn lemma_parents_discover(g: Map<usize, StrategyNode>, disc: Seq<usize>, fin: Seq<usize>, x: usize)
    requires
        parents_inv(g, disc, fin),
        !disc.contains(x),
        forall|y: usize| #[trigger] fin.contains(y) ==> disc.contains(y),
        disc.len() > 0 ==> exists|j: int| #[trigger] parent_cond(g, disc, fin, j, x),
    ensures
        parents_inv(g, disc.push(x), fin),
{
    reveal(parents_inv);
    let d2 = disc.push(x);
    assert forall|i: int| 0 < i < d2.len() implies #[trigger] has_parent(g, d2, fin, i) by {
        if i < disc.len() {
            assert(has_parent(g, disc, fin, i));
            let j = choose|j: int| 0 <= j < i && #[trigger] parent_partial(g, disc, fin, j, i);
            assert(d2.take(i) =~= disc.take(i));
            assert forall|l: int| j < l < i implies d2[l] == disc[l] by {}
            assert forall|l: int, m: int|
                #![trigger d2[l], d2[m]]
                j < l < i <= m < d2.len() && fin.contains(d2[m]) implies first_index(fin, d2[l])
                    < first_index(fin, d2[m]) by {
                assert(d2[l] == disc[l]);
                if m < disc.len() {
                    assert(d2[m] == disc[m]);
                } else {
                    assert(d2[m] == x);
                }
            }
            assert(parent_partial(g, d2, fin, j, i));
        } else {
            let j = choose|j: int| #[trigger] parent_cond(g, disc, fin, j, x);
            assert(d2.take(i) =~= disc);
            assert(!fin.contains(x));
            assert forall|l: int| j < l < i implies d2[l] == disc[l] by {}
            assert forall|l: int, m: int|
                #![trigger d2[l], d2[m]]
                j < l < i <= m < d2.len() && fin.contains(d2[m]) implies first_index(fin, d2[l])
                    < first_index(fin, d2[m]) by {
                assert(d2[m] == x);
            }
            assert(parent_partial(g, d2, fin, j, i));
        }
    }
}

/// Finishing `z`, once every node discovered after it has finished, keeps
/// every node's parent.
proof fn lemma_parents_finish(g: Map<usize, StrategyNode>, disc: Seq<usize>, fin: Seq<usize>, z: usize)
    requires
        parents_inv(g, disc, fin),
        fin.no_duplicates(),
        !fin.contains(z),
        forall|i: int, j: int|
            0 <= j < i < disc.len() && #[trigger] disc[j] == z ==> fin.contains(#[trigger] disc[i]),
    ensures
        parents_inv(g, disc, fin.push(z)),
{
    reveal(parents_inv);
    let f2 = fin.push(z);
    assert forall|y: usize| fin.contains(y) implies first_index(f2, y) == first_index(fin, y)
        && first_index(fin, y) < fin.len() && f2.contains(y) by {
        lemma_first_index_push(fin, z, y);
        let k = choose|k: int| 0 <= k < fin.len() && fin[k] == y;
        crate::paths::lemma_first_index_no_dup(fin, k);
        assert(f2[k] == y);
    }
    assert(f2[fin.len() as int] == z);
    lemma_first_index_push(fin, z, z);
    assert forall|i: int| 0 < i < disc.len() implies #[trigger] has_parent(g, disc, f2, i) by {
        assert(has_parent(g, disc, fin, i));
        let j = choose|j: int| 0 <= j < i && #[trigger] parent_partial(g, disc, fin, j, i);
        let p = disc[j];
        let v = disc[i];
        if p == z {
            assert(fin.contains(v));
        }
        assert forall|l: int| j < l < i implies f2.contains(#[trigger] disc[l]) && (f2.contains(v)
            ==> first_index(f2, disc[l]) < first_index(f2, v)) by {
            assert(fin.contains(disc[l]));
        }
        assert(parent_partial(g, disc, f2, j, i));
    }
}

/// Once every discovered node has finished, each node's parent is final.
proof fn lemma_parents_final(g: Map<usize, StrategyNode>, disc: Seq<usize>, fin: Seq<usize>)
    requires
        parents_inv(g, disc, fin),
        forall|y: usize| #[trigger] disc.contains(y) ==> fin.contains(y),
    ensures
        forall|i: int| 0 < i < disc.len() ==> #[trigger] dfs_discovered_from_parent(g, disc, fin, i),
{
    reveal(parents_inv);
    assert forall|i: int| 0 < i < disc.len() implies #[trigger] dfs_discovered_from_parent(g, disc, fin, i) by {
        assert(has_parent(g, disc, fin, i));
        let j = choose|j: int| 0 <= j < i && #[trigger] parent_partial(g, disc, fin, j, i);
        assert(disc.contains(disc[i]));
        assert(disc.contains(disc[j]));
        assert forall|l: int, m: int|
            #![trigger disc[l], disc[m]]
            j < l < i <= m < disc.len() implies first_index(fin, disc[l]) < first_index(fin, disc[m]) by {
            assert(disc.contains(disc[m]));
        }
        assert(dfs_tree_parent(g, disc, fin, j, i));
    }
}

/// The state of the search: seen nodes, discovery and finish orders.
spec fn dfs_inv(
    g: Map<usize, StrategyNode>,
    start: usize,
    seen: Set<usize>,
    disc: Seq<usize>,
    fin: Seq<usize>,
) -> bool {
    &&& disc.no_duplicates()
    &&& fin.no_duplicates()
    &&& forall|y: usize| #[trigger] seen.contains(y) <==> disc.contains(y)
    &&& forall|y: usize| #[trigger] fin.contains(y) ==> disc.contains(y)
    &&& forall|y: usize| #[trigger]
        disc.contains(y) ==> g.contains_key(y) && reachable(g, start, y)
    &&& finish_respects_edges(g, disc, fin)
}

/// `a` is a prefix of `b`.
spec fn is_prefix(a: Seq<usize>, b: Seq<usize>) -> bool {
    a.len() <= b.len() && b.subrange(0, a.len() as int) == a
}

/// The invariant survives extending both orders, as far as the nodes finished
/// before are concerned.
proof fn lemma_respects_prefix(
    g: Map<usize, StrategyNode>,
    d1: Seq<usize>,
    f1: Seq<usize>,
    d2: Seq<usize>,
    f2: Seq<usize>,
)
    requires
        finish_respects_edges(g, d1, f1),
        d1.no_duplicates(),
        f1.no_duplicates(),
        d2.no_duplicates(),
        forall|y: usize| #[trigger] f1.contains(y) ==> d1.contains(y),
        is_prefix(d1, d2),
        is_prefix(f1, f2),
    ensures
        forall|i: int, k: int, w: usize|
            #![trigger f2[i], d2[k], edge(g, f2[i], w)]
            0 <= i < f1.len() && 0 <= k < d2.len() && d2[k] == f2[i] && edge(g, f2[i], w)
                ==> f2.take(i).contains(w) || d2.take(k + 1).contains(w),
{
    assert forall|i: int, k: int, w: usize|
        #![trigger f2[i], d2[k], edge(g, f2[i], w)]
        0 <= i < f1.len() && 0 <= k < d2.len() && d2[k] == f2[i] && edge(g, f2[i], w)
            implies f2.take(i).contains(w) || d2.take(k + 1).contains(w) by {
        assert(f1[i] == f2[i]);
        assert(f1.contains(f1[i]));
        let k1 = choose|k1: int| 0 <= k1 < d1.len() && d1[k1] == f1[i];
        assert(d2[k1] == d1[k1]);
        assert(k1 == k);
        assert(f1.take(i) =~= f2.take(i));
        assert(d1.take(k + 1) =~= d2.take(k + 1));
    }
}

/// Visits `node_id` and everything reachable from it that has not been seen yet.
fn dfs_visit(
    graph: &StrategyGraph,
    node_id: usize,
    seen: &mut HashSet<usize>,
    visited: &mut Vec<usize>,
    discovery: &mut Vec<usize>,
    finish: &mut Vec<usize>,
    Ghost(start): Ghost<usize>,
    Ghost(unseen): Ghost<nat>,
)
    requires
        unseen == graph@.dom().difference(old(seen)@).len(),
        graph@.dom().finite(),
        graph@.contains_key(node_id),
        reachable(graph@, start, node_id),
        !old(seen)@.contains(node_id),
        old(visited)@ == old(discovery)@,
        dfs_inv(graph@, start, old(seen)@, old(discovery)@, old(finish)@),
        parents_inv(graph@, old(discovery)@, old(finish)@),
        old(discovery)@.len() > 0 ==> exists|j: int| #[trigger]
            parent_cond(graph@, old(discovery)@, old(finish)@, j, node_id),
    ensures
        parents_inv(graph@, final(discovery)@, final(finish)@),
        final(visited)@ == final(discovery)@,
        dfs_inv(graph@, start, final(seen)@, final(discovery)@, final(finish)@),
        is_prefix(old(discovery)@, final(discovery)@),
        is_prefix(old(finish)@, final(finish)@),
        final(discovery)@.len() > old(discovery)@.len(),
        final(discovery)@[old(discovery)@.len() as int] == node_id,
        final(finish)@.len() > 0,
        final(finish)@.last() == node_id,
        forall|y: usize|
            #[trigger] final(discovery)@.contains(y) && !old(discovery)@.contains(y)
                ==> final(finish)@.contains(y),
    decreases unseen,
{
    let ghost g = graph@;
    let ghost d0 = discovery@;
    let ghost f0 = finish@;
    let ghost s0 = seen@;
    seen.insert(node_id);
    visited.push(node_id);
    discovery.push(node_id);
    proof {
        assert(g.dom().difference(seen@) =~= g.dom().difference(s0).remove(node_id));
        assert(g.dom().difference(s0).contains(node_id));
        assert(discovery@[d0.len() as int] == node_id);
        assert forall|y: usize| #[trigger] seen@.contains(y) <==> discovery@.contains(y) by {
            if y == node_id {
                assert(discovery@[d0.len() as int] == y);
            }
            if discovery@.contains(y) && y != node_id {
                let i = choose|i: int| 0 <= i < discovery@.len() && discovery@[i] == y;
                assert(d0[i] == y);
            }
            if s0.contains(y) {
                assert(d0.contains(y));
                let i = choose|i: int| 0 <= i < d0.len() && d0[i] == y;
                assert(discovery@[i] == y);
            }
        }
        assert forall|y: usize| #[trigger] discovery@.contains(y) implies g.contains_key(y)
            && reachable(g, start, y) by {
            if y != node_id {
                let i = choose|i: int| 0 <= i < discovery@.len() && discovery@[i] == y;
                assert(d0[i] == y);
                assert(d0.contains(y));
            }
        }
        assert forall|y: usize| #[trigger] finish@.contains(y) implies discovery@.contains(y) by {
            assert(d0.contains(y));
            let i = choose|i: int| 0 <= i < d0.len() && d0[i] == y;
            assert(discovery@[i] == y);
        }
        assert(is_prefix(d0, discovery@)) by {
            assert(discovery@.subrange(0, d0.len() as int) =~= d0);
        }
        assert(is_prefix(f0, finish@)) by {
            assert(finish@.subrange(0, f0.len() as int) =~= f0);
        }
        lemma_respects_prefix(g, d0, f0, discovery@, finish@);
        assert(dfs_inv(g, start, seen@, discovery@, finish@));
        lemma_parents_discover(g, d0, f0, node_id);
        assert(discovery@ == d0.push(node_id));
    }
    let ghost d1 = discovery@;
    assert(discovery@.subrange(0, d1.len() as int) =~= d1);
    assert(finish@ == f0);
    let node = graph.get(node_id).unwrap();
    let m = node.neighbors.len();
    for k in 0..m
        invariant
            g == graph@,
            g.dom().finite(),
            g.contains_key(node_id),
            *node == g[node_id],
            m == node.neighbors@.len(),
            !s0.contains(node_id),
            unseen == g.dom().difference(s0).len(),
            g.dom().difference(seen@).len() < g.dom().difference(s0).len(),
            forall|y: usize| #[trigger] s0.contains(y) ==> seen@.contains(y),
            visited@ == discovery@,
            dfs_inv(g, start, seen@, discovery@, finish@),
            parents_inv(g, discovery@, finish@),
            is_prefix(d1, discovery@),
            is_prefix(f0, finish@),
            d1 == d0.push(node_id),
            !finish@.contains(node_id),
            forall|y: usize|
                #[trigger] discovery@.contains(y) && !d0.contains(y) && y != node_id
                    ==> finish@.contains(y),
            forall|j: int|
                0 <= j < k ==> g.contains_key(#[trigger] node.neighbors@[j]) ==> seen@.contains(
                    node.neighbors@[j],
                ),
    {
        let neighbor = node.neighbors[k];
        if !seen.contains(&neighbor) && graph.get(neighbor).is_some() {
            let ghost d2 = discovery@;
            let ghost f2 = finish@;
            let ghost sn = seen@;
            proof {
                assert(edge(g, node_id, neighbor)) by {
                    assert(node.neighbors@[k as int] == neighbor);
                }
                assert(d2.contains(node_id)) by {
                    assert(d1[d0.len() as int] == node_id);
                    assert(d2[d0.len() as int] == node_id);
                }
                assert(reachable(g, start, node_id));
                let n = choose|n: nat| #[trigger] reach_in(g, start, node_id, n);
                assert(reach_in(g, start, neighbor, n + 1));
                let nbrs = node.neighbors@;
                assert(!nbrs.take(k as int).contains(neighbor)) by {
                    if nbrs.take(k as int).contains(neighbor) {
                        let j = choose|j: int| 0 <= j < k && nbrs.take(k as int)[j] == neighbor;
                        assert(nbrs[j] == neighbor);
                        assert(g.contains_key(nbrs[j]));
                    }
                }
                lemma_first_index_at(nbrs, neighbor, k as int);
                let pos = d0.len() as int;
                assert(d2[pos] == node_id) by {
                    assert(d1[pos] == node_id);
                    assert(d2.subrange(0, d1.len() as int)[pos] == d1[pos]);
                }
                assert(d2.no_duplicates());
                assert forall|l: int| pos < l < d2.len() implies f2.contains(#[trigger] d2[l]) by {
                    let y = d2[l];
                    assert(d2.contains(y));
                    assert(y != node_id);
                    if d0.contains(y) {
                        let i = choose|i: int| 0 <= i < d0.len() && d0[i] == y;
                        assert(d1[i] == y);
                        assert(d2.subrange(0, d1.len() as int)[i] == d1[i]);
                    }
                }
                assert forall|w: usize|
                    #[trigger] edge(g, node_id, w) && first_index(nbrs, w) < first_index(nbrs, neighbor)
                    implies d2.contains(w) by {
                    crate::paths::lemma_first_index_exists(nbrs, w);
                    let i = first_index(nbrs, w);
                    assert(g.contains_key(nbrs[i]));
                    assert(sn.contains(w));
                }
                assert(parent_cond(g, d2, f2, pos, neighbor));
                assert(graph@.dom().difference(seen@).len() < graph@.dom().difference(s0).len());
            }
            dfs_visit(
                graph,
                neighbor,
                seen,
                visited,
                discovery,
                finish,
                Ghost(start),
                Ghost(g.dom().difference(sn).len()),
            );
            proof {
                assert(is_prefix(d1, discovery@)) by {
                    assert forall|i: int| 0 <= i < d1.len() implies discovery@[i] == d1[i] by {
                        assert(d2[i] == d1[i]);
                        assert(discovery@.subrange(0, d2.len() as int)[i] == d2[i]);
                    }
                    assert(discovery@.subrange(0, d1.len() as int) =~= d1);
                }
                assert(is_prefix(f0, finish@)) by {
                    assert forall|i: int| 0 <= i < f0.len() implies finish@[i] == f0[i] by {
                        assert(f2[i] == f0[i]);
                        assert(finish@.subrange(0, f2.len() as int)[i] == f2[i]);
                    }
                    assert(finish@.subrange(0, f0.len() as int) =~= f0);
                }
                assert(!finish@.contains(node_id)) by {
                    assert(d2.contains(node_id)) by {
                        assert(d2[d0.len() as int] == node_id);
                    }
                }
                assert forall|y: usize| #[trigger] s0.contains(y) implies seen@.contains(y) by {
                    assert(sn.contains(y));
                    assert(d2.contains(y));
                    let i = choose|i: int| 0 <= i < d2.len() && d2[i] == y;
                    assert(discovery@.subrange(0, d2.len() as int)[i] == y);
                    assert(discovery@[i] == y);
                }
                assert forall|y: usize|
                    #[trigger] discovery@.contains(y) && !d0.contains(y) && y != node_id
                    implies finish@.contains(y) by {
                    if d2.contains(y) {
                        assert(f2.contains(y));
                        let i = choose|i: int| 0 <= i < f2.len() && f2[i] == y;
                        assert(finish@.subrange(0, f2.len() as int)[i] == y);
                        assert(finish@[i] == y);
                    }
                }
                assert forall|j: int|
                    0 <= j < k + 1 implies g.contains_key(#[trigger] node.neighbors@[j])
                    ==> seen@.contains(node.neighbors@[j]) by {
                    if j < k && g.contains_key(node.neighbors@[j]) {
                        let y = node.neighbors@[j];
                        assert(sn.contains(y));
                        assert(d2.contains(y));
                        let i = choose|i: int| 0 <= i < d2.len() && d2[i] == y;
                        assert(discovery@.subrange(0, d2.len() as int)[i] == y);
                        assert(discovery@[i] == y);
                    }
                    if j == k {
                        assert(discovery@[d2.len() as int] == neighbor);
                    }
                }
                assert(g.dom().difference(seen@).len() < g.dom().difference(s0).len()) by {
                    vstd::set_lib::lemma_len_subset(
                        g.dom().difference(seen@),
                        g.dom().difference(sn),
                    );
                }
            }
        }
    }
    let ghost f3 = finish@;
    let ghost d3 = discovery@;
    proof {
        assert forall|i: int, j: int|
            0 <= j < i < d3.len() && #[trigger] d3[j] == node_id implies f3.contains(#[trigger] d3[i]) by {
            let pos = d0.len() as int;
            assert(d3[pos] == node_id) by {
                assert(d1[pos] == node_id);
                assert(d3.subrange(0, d1.len() as int)[pos] == d1[pos]);
            }
            assert(j == pos);
            let y = d3[i];
            assert(d3.contains(y));
            assert(y != node_id);
            if d0.contains(y) {
                let l = choose|l: int| 0 <= l < d0.len() && d0[l] == y;
                assert(d1[l] == y);
                assert(d3.subrange(0, d1.len() as int)[l] == d1[l]);
            }
        }
        lemma_parents_finish(g, d3, f3, node_id);
    }
    finish.push(node_id);
    proof {
        let fin = finish@;
        assert(fin.no_duplicates());
        assert(fin[f3.len() as int] == node_id);
        assert(d3.contains(node_id)) by {
            assert(d1[d0.len() as int] == node_id);
            assert(d3.subrange(0, d1.len() as int)[d0.len() as int] == node_id);
        }
        assert forall|y: usize| #[trigger] fin.contains(y) implies d3.contains(y) by {
            if y != node_id {
                let i = choose|i: int| 0 <= i < fin.len() && fin[i] == y;
                assert(f3[i] == y);
                assert(f3.contains(y));
            }
        }
        assert(is_prefix(f3, fin)) by {
            assert(fin.subrange(0, f3.len() as int) =~= f3);
        }
        assert(is_prefix(d3, d3)) by {
            assert(d3.subrange(0, d3.len() as int) =~= d3);
        }
        lemma_respects_prefix(g, d3, f3, d3, fin);
        assert forall|i: int, k: int, w: usize|
            #![trigger fin[i], d3[k], edge(g, fin[i], w)]
            0 <= i < fin.len() && 0 <= k < d3.len() && d3[k] == fin[i] && edge(g, fin[i], w)
                implies fin.take(i).contains(w) || d3.take(k + 1).contains(w) by {
            if i == f3.len() {
                // the node just finished
                assert(d3[d0.len() as int] == node_id) by {
                    assert(d1[d0.len() as int] == node_id);
                    assert(d3.subrange(0, d1.len() as int)[d0.len() as int] == node_id);
                }
                assert(k == d0.len());
                let j = choose|j: int| 0 <= j < node.neighbors@.len() && node.neighbors@[j] == w;
                assert(g.contains_key(node.neighbors@[j]));
                assert(seen@.contains(w));
                assert(d3.contains(w));
                assert(fin.take(i) =~= f3);
                if !f3.contains(w) {
                    if w != node_id {
                        assert(d0.contains(w));
                        let l = choose|l: int| 0 <= l < d0.len() && d0[l] == w;
                        assert(d1[l] == w);
                        assert(d3.subrange(0, d1.len() as int)[l] == w);
                        assert(d3.take(k + 1)[l] == w);
                    } else {
                        assert(d3.take(k + 1)[k] == w);
                    }
                }
            }
        }
        assert(is_prefix(d0, d3)) by {
            assert forall|i: int| 0 <= i < d0.len() implies d3[i] == d0[i] by {
                assert(d1[i] == d0[i]);
                assert(d3.subrange(0, d1.len() as int)[i] == d1[i]);
            }
            assert(d3.subrange(0, d0.len() as int) =~= d0);
        }
        assert(is_prefix(f0, fin)) by {
            assert forall|i: int| 0 <= i < f0.len() implies fin[i] == f0[i] by {
                assert(f3.subrange(0, f0.len() as int)[i] == f0[i]);
            }
            assert(fin.subrange(0, f0.len() as int) =~= f0);
        }
        assert(d3[d0.len() as int] == node_id) by {
            assert(d1[d0.len() as int] == node_id);
            assert(d3.subrange(0, d1.len() as int)[d0.len() as int] == node_id);
        }
        assert forall|y: usize|
            #[trigger] d3.contains(y) && !d0.contains(y) implies fin.contains(y) by {
            if y == node_id {
                assert(fin[f3.len() as int] == y);
            } else {
                assert(f3.contains(y));
                let i = choose|i: int| 0 <= i < f3.len() && f3[i] == y;
                assert(fin[i] == y);
            }
        }
                assert(dfs_inv(g, start, seen@, d3, fin));
    }
}

/// Once every discovered node has finished, every node reachable from `start`
/// in `n` edges has been discovered.
proof fn lemma_dfs_complete(
    g: Map<usize, StrategyNode>,
    start: usize,
    seen: Set<usize>,
    disc: Seq<usize>,
    fin: Seq<usize>,
    v: usize,
    n: nat,
)
    requires
        dfs_inv(g, start, seen, disc, fin),
        disc.contains(start),
        forall|y: usize| #[trigger] disc.contains(y) ==> fin.contains(y),
        reach_in(g, start, v, n),
    ensures
        disc.contains(v),
    decreases n,
{
    if n > 0 {
        let u = choose|u: usize| reach_in(g, start, u, (n - 1) as nat) && #[trigger] edge(g, u, v);
        lemma_dfs_complete(g, start, seen, disc, fin, u, (n - 1) as nat);
        assert(fin.contains(u));
        let i = choose|i: int| 0 <= i < fin.len() && fin[i] == u;
        let k = choose|k: int| 0 <= k < disc.len() && disc[k] == u;
        assert(fin[i] == u && disc[k] == u && edge(g, fin[i], v));
        if fin.take(i).contains(v) {
            let fi = fin.take(i);
            let l = choose|l: int| 0 <= l < fi.len() && fi[l] == v;
            assert(fin[l] == v);
            assert(fin.contains(v));
        } else {
            let dk = disc.take(k + 1);
            let l = choose|l: int| 0 <= l < dk.len() && dk[l] == v;
            assert(disc[l] == v);
        }
    }
}

/// Depth-first search on a strategy graph.
pub fn dfs(graph: &StrategyGraph, start: usize) -> (r: DfsResult)
    ensures
        dfs_result_spec(graph@, start, r.visited@, r.discovery_order@, r.finish_order@),
{
    let mut visited: Vec<usize> = Vec::new();
    let mut discovery: Vec<usize> = Vec::new();
    let mut finish: Vec<usize> = Vec::new();
    let mut seen: HashSet<usize> = HashSet::new();
    let ghost g = graph@;

    if graph.get(start).is_some() {
        proof {
            graph.lemma_finite();
            assert(reach_in(g, start, start, 0));
            assert(dfs_inv(g, start, seen@, discovery@, finish@));
            reveal(parents_inv);
            assert(parents_inv(g, discovery@, finish@));
        }
        let ghost unseen0 = g.dom().difference(seen@).len();
        dfs_visit(
            graph,
            start,
            &mut seen,
            &mut visited,
            &mut discovery,
            &mut finish,
            Ghost(start),
            Ghost(unseen0),
        );
        proof {
            let disc = discovery@;
            let fin = finish@;
            assert(disc.contains(start)) by {
                assert(disc[0] == start);
            }
            assert forall|v: usize| reachable(g, start, v) implies #[trigger] disc.contains(v) by {
                let n = choose|n: nat| #[trigger] reach_in(g, start, v, n);
                lemma_dfs_complete(g, start, seen@, disc, fin, v, n);
            }
            assert forall|v: usize| #[trigger] fin.contains(v) <==> reachable(g, start, v) by {
                if reachable(g, start, v) {
                    assert(disc.contains(v));
                }
                if fin.contains(v) {
                    assert(disc.contains(v));
                }
            }
            lemma_parents_final(g, disc, fin);
        }
    }
    DfsResult { visited, discovery_order: discovery, finish_order: finish }
}

} // verus!
