//! Edges, walks and reachability in a strategy graph, viewed as a map from ids to nodes.

use vstd::prelude::*;

use crate::graph::StrategyNode;

verus! {

/// `v` is a neighbor of `u`, and both are nodes of `g`.
pub open spec fn edge(g: Map<usize, StrategyNode>, u: usize, v: usize) -> bool {
    &&& g.contains_key(u)
    &&& g.contains_key(v)
    &&& g[u].neighbors@.contains(v)
}

/// `v` can be reached from the node `s` by following exactly `n` edges.
pub open spec fn reach_in(g: Map<usize, StrategyNode>, s: usize, v: usize, n: nat) -> bool
    decreases n,
{
    if n == 0 {
        v == s && g.contains_key(s)
    } else {
        exists|u: usize| reach_in(g, s, u, (n - 1) as nat) && #[trigger] edge(g, u, v)
    }
}

/// `v` can be reached from the node `s` by following edges.
pub open spec fn reachable(g: Map<usize, StrategyNode>, s: usize, v: usize) -> bool {
    exists|n: nat| #[trigger] reach_in(g, s, v, n)
}

/// The fewest edges that lead from `s` to `v` are `d`.
pub open spec fn is_shortest(g: Map<usize, StrategyNode>, s: usize, v: usize, d: nat) -> bool {
    &&& reach_in(g, s, v, d)
    &&& forall|n: nat| n < d ==> !#[trigger] reach_in(g, s, v, n)
}

/// `p` is a non-empty sequence of nodes of `g`, each followed by one of its neighbors.
pub open spec fn is_walk(g: Map<usize, StrategyNode>, p: Seq<usize>) -> bool {
    &&& p.len() > 0
    &&& forall|i: int| 0 <= i < p.len() ==> g.contains_key(#[trigger] p[i])
    &&& forall|i: int| 0 <= i < p.len() - 1 ==> edge(g, #[trigger] p[i], p[i + 1])
}

/// `p` is a walk of `g` from `s` to `v`.
pub open spec fn is_walk_between(g: Map<usize, StrategyNode>, p: Seq<usize>, s: usize, v: usize) -> bool {
    &&& is_walk(g, p)
    &&& p[0] == s
    &&& p.last() == v
}

/// Every adjacency of `g` between two of its nodes runs both ways.
pub open spec fn symmetric(g: Map<usize, StrategyNode>) -> bool {
    forall|u: usize, v: usize| #[trigger] edge(g, u, v) ==> edge(g, v, u)
}

/// A walk of `n + 1` nodes from `s` to `v` reaches `v` in `n` edges.
pub proof fn lemma_walk_reach_in(g: Map<usize, StrategyNode>, p: Seq<usize>, s: usize, v: usize)
    requires
        is_walk_between(g, p, s, v),
    ensures
        reach_in(g, s, v, (p.len() - 1) as nat),
    decreases p.len(),
{
    if p.len() > 1 {
        let q = p.drop_last();
        let u = q.last();
        assert(edge(g, p[p.len() - 2], p[p.len() - 1]));
        assert(is_walk_between(g, q, s, u)) by {
            assert forall|i: int| 0 <= i < q.len() implies g.contains_key(#[trigger] q[i]) by {
                assert(g.contains_key(p[i]));
            }
            assert forall|i: int| 0 <= i < q.len() - 1 implies edge(g, #[trigger] q[i], q[i + 1]) by {
                assert(edge(g, p[i], p[i + 1]));
            }
        }
        lemma_walk_reach_in(g, q, s, u);
        let n = (p.len() - 1) as nat;
        assert(reach_in(g, s, u, (n - 1) as nat) && edge(g, u, v));
    }
}

/// Reaching `v` in `n` edges is following some walk of `n + 1` nodes.
pub proof fn lemma_reach_in_walk(g: Map<usize, StrategyNode>, s: usize, v: usize, n: nat) -> (p: Seq<usize>)
    requires
        reach_in(g, s, v, n),
    ensures
        is_walk_between(g, p, s, v),
        p.len() == n + 1,
    decreases n,
{
    if n == 0 {
        seq![s]
    } else {
        let u = choose|u: usize| reach_in(g, s, u, (n - 1) as nat) && #[trigger] edge(g, u, v);
        let q = lemma_reach_in_walk(g, s, u, (n - 1) as nat);
        let p = q.push(v);
        assert forall|i: int| 0 <= i < p.len() implies g.contains_key(#[trigger] p[i]) by {
            if i < q.len() {
                assert(g.contains_key(q[i]));
            }
        }
        assert forall|i: int| 0 <= i < p.len() - 1 implies edge(g, #[trigger] p[i], p[i + 1]) by {
            if i < q.len() - 1 {
                assert(edge(g, q[i], q[i + 1]));
            } else {
                assert(p[i] == u && p[i + 1] == v);
            }
        }
        p
    }
}

/// Reaching `v` from `s` in `n` edges, in a symmetric graph, means reaching `s` from `v`
/// in `n` edges too.
pub proof fn lemma_reach_in_reverse(g: Map<usize, StrategyNode>, s: usize, v: usize, n: nat)
    requires
        symmetric(g),
        reach_in(g, s, v, n),
    ensures
        reach_in(g, v, s, n),
{
    let p = lemma_reach_in_walk(g, s, v, n);
    let r = p.reverse();
    assert forall|i: int| 0 <= i < r.len() implies g.contains_key(#[trigger] r[i]) by {
        assert(g.contains_key(p[p.len() - 1 - i]));
    }
    assert forall|i: int| 0 <= i < r.len() - 1 implies edge(g, #[trigger] r[i], r[i + 1]) by {
        let j = p.len() - 2 - i;
        assert(edge(g, p[j], p[j + 1]));
    }
    lemma_walk_reach_in(g, r, v, s);
}

/// The position of the first occurrence of `x` in `s`.
pub open spec fn first_index(s: Seq<usize>, x: usize) -> int {
    choose|i: int| 0 <= i < s.len() && s[i] == x && !s.take(i).contains(x)
}

/// `i` is the first position of `x` in `s`.
pub proof fn lemma_first_index_at(s: Seq<usize>, x: usize, i: int)
    requires
        0 <= i < s.len(),
        s[i] == x,
        !s.take(i).contains(x),
    ensures
        first_index(s, x) == i,
{
    assert(s.take(i).len() == i);
    let j = first_index(s, x);
    if j < i {
        assert(s.take(i)[j] == x);
    } else if j > i {
        assert(s.take(j)[i] == x);
    }
}

/// In a sequence without repeats, every position is the first of its element.
pub proof fn lemma_first_index_no_dup(s: Seq<usize>, i: int)
    requires
        s.no_duplicates(),
        0 <= i < s.len(),
    ensures
        first_index(s, s[i]) == i,
{
    if s.take(i).contains(s[i]) {
        let l = choose|l: int| 0 <= l < s.take(i).len() && s.take(i)[l] == s[i];
        assert(s[l] == s[i]);
    }
    lemma_first_index_at(s, s[i], i);
}

/// Appending to a sequence without repeats keeps the first positions of what
/// it held, and places the new element last.
pub proof fn lemma_first_index_push(s: Seq<usize>, y: usize, x: usize)
    requires
        s.no_duplicates(),
        !s.contains(y),
        s.contains(x) || x == y,
    ensures
        s.push(y).no_duplicates(),
        first_index(s.push(y), x) == if x == y { s.len() as int } else { first_index(s, x) },
{
    let t = s.push(y);
    assert(t.no_duplicates()) by {
        assert forall|i: int, j: int| 0 <= i < j < t.len() implies t[i] != t[j] by {
            if j == s.len() {
                assert(s.contains(s[i]));
            }
        }
    }
    if x == y {
        lemma_first_index_no_dup(t, s.len() as int);
    } else {
        let i = choose|i: int| 0 <= i < s.len() && s[i] == x;
        lemma_first_index_no_dup(s, i);
        lemma_first_index_no_dup(t, i);
    }
}

/// An element of a sequence has a first position.
pub proof fn lemma_first_index_exists(s: Seq<usize>, x: usize)
    requires
        s.contains(x),
    ensures
        0 <= first_index(s, x) < s.len(),
        s[first_index(s, x)] == x,
        !s.take(first_index(s, x)).contains(x),
    decreases s.len(),
{
    let i = choose|i: int| 0 <= i < s.len() && s[i] == x;
    if s.take(i).contains(x) {
        let t = s.take(i);
        lemma_first_index_exists(t, x);
        let k = first_index(t, x);
        assert(s[k] == x);
        assert(s.take(k) =~= t.take(k));
        lemma_first_index_at(s, x, k);
    } else {
        lemma_first_index_at(s, x, i);
    }
}

} // verus!
