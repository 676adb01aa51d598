//! Strategy nodes, the strategy graph, and the mathematical model of paths in it.

use std::collections::HashMap;
use vstd::prelude::*;

use crate::paths::{edge, symmetric};
use crate::ternary::{ternary_value, Ternary, TernaryExt};

verus! {

broadcast use vstd::std_specs::hash::group_hash_axioms;

/// A node in the strategy graph.
#[derive(Debug, Clone, PartialEq, Eq, Hash)]
pub struct StrategyNode {
    pub id: usize,
    pub signals: Vec<Ternary>,
    pub neighbors: Vec<usize>,
}

/// The sum of the values of a sequence of ternary signals.
pub open spec fn signal_sum(s: Seq<Ternary>) -> int
    decreases s.len(),
{
    if s.len() == 0 {
        0
    } else {
        signal_sum(s.drop_last()) + ternary_value(s.last())
    }
}

/// The signals of `s` that are positive.
pub open spec fn positives(s: Seq<Ternary>) -> Seq<Ternary> {
    s.filter(|t: Ternary| t == Ternary::Positive)
}

/// The signals of `s` that are negative.
pub open spec fn negatives(s: Seq<Ternary>) -> Seq<Ternary> {
    s.filter(|t: Ternary| t == Ternary::Negative)
}

/// The sum of a sequence of signals is the number of positive signals less
/// the number of negative ones: every signal counts, whatever its position.
pub proof fn law_signal_sum_counts(s: Seq<Ternary>)
    ensures
        signal_sum(s) == positives(s).len() - negatives(s).len(),
    decreases s.len(),
{
    reveal_with_fuel(Seq::filter, 1);
    if s.len() > 0 {
        law_signal_sum_counts(s.drop_last());
    }
}

/// Adding a signal adds its value, -1, 0 or +1, to the sum; the sum of no
/// signals is 0.
pub proof fn law_signal_sum_push(s: Seq<Ternary>, t: Ternary)
    ensures
        signal_sum(Seq::<Ternary>::empty()) == 0,
        signal_sum(s.push(t)) == signal_sum(s) + match t {
            Ternary::Negative => -1int,
            Ternary::Neutral => 0int,
            Ternary::Positive => 1int,
        },
{
    assert(s.push(t).drop_last() =~= s);
}

/// A neighbor list after `x` has been added to it: unchanged if `x` is there already.
pub open spec fn with_neighbor(s: Seq<usize>, x: usize) -> Seq<usize> {
    if s.contains(x) {
        s
    } else {
        s.push(x)
    }
}

/// The sum of a sequence of signals lies between minus and plus its length.
pub proof fn lemma_signal_sum_bounds(s: Seq<Ternary>)
    ensures
        -(s.len() as int) <= signal_sum(s) <= s.len(),
    decreases s.len(),
{
    if s.len() > 0 {
        lemma_signal_sum_bounds(s.drop_last());
    }
}

impl StrategyNode {
    pub fn new(id: usize) -> (n: Self)
        ensures
            n.id == id,
            n.signals@ == Seq::<Ternary>::empty(),
            n.neighbors@ == Seq::<usize>::empty(),
    {
        StrategyNode { id, signals: Vec::new(), neighbors: Vec::new() }
    }

    pub fn with_signals(id: usize, signals: Vec<Ternary>) -> (n: Self)
        ensures
            n.id == id,
            n.signals@ == signals@,
            n.neighbors@ == Seq::<usize>::empty(),
    {
        StrategyNode { id, signals, neighbors: Vec::new() }
    }

    /// The sum of the values of the node's signals.
    pub fn fitness(&self) -> (f: i64)
        requires
            self.signals@.len() <= i64::MAX,
        ensures
            f == signal_sum(self.signals@),
            f == positives(self.signals@).len() - negatives(self.signals@).len(),
    {
        proof {
            law_signal_sum_counts(self.signals@);
        }
        let mut sum: i64 = 0;
        let n = self.signals.len();
        for i in 0..n
            invariant
                n == self.signals@.len(),
                n <= i64::MAX,
                sum == signal_sum(self.signals@.take(i as int)),
        {
            proof {
                lemma_signal_sum_bounds(self.signals@.take(i as int));
                assert(self.signals@.take(i + 1).drop_last() =~= self.signals@.take(i as int));
            }
            let v = self.signals[i].value();
            sum = sum + v as i64;
        }
        proof {
            assert(self.signals@.take(n as int) =~= self.signals@);
        }
        sum
    }

    /// Adds `neighbor_id` to the neighbor list unless it is there already.
    pub fn add_neighbor(&mut self, neighbor_id: usize)
        ensures
            final(self).id == old(self).id,
            final(self).signals@ == old(self).signals@,
            final(self).neighbors@ == with_neighbor(old(self).neighbors@, neighbor_id),
    {
        if !vec_contains(&self.neighbors, neighbor_id) {
            self.neighbors.push(neighbor_id);
        }
    }
}

/// Whether `v` holds `x`.
pub(crate) fn vec_contains(v: &Vec<usize>, x: usize) -> (b: bool)
    ensures
        b == v@.contains(x),
{
    let n = v.len();
    for i in 0..n
        invariant
            n == v@.len(),
            forall|j: int| 0 <= j < i ==> v@[j] != x,
    {
        if v[i] == x {
            return true;
        }
    }
    false
}

/// Every neighbor of a node of `g` is itself a node of `g`.
pub open spec fn closed_neighbors(g: Map<usize, StrategyNode>) -> bool {
    forall|u: usize, v: usize|
        g.contains_key(u) && #[trigger] g[u].neighbors@.contains(v) ==> g.contains_key(v)
}

/// Adding a neighbor twice adds it once, and a list without repeats keeps none.
pub proof fn law_with_neighbor_idempotent(s: Seq<usize>, x: usize)
    ensures
        with_neighbor(with_neighbor(s, x), x) == with_neighbor(s, x),
        with_neighbor(s, x).contains(x),
        s.no_duplicates() ==> with_neighbor(s, x).no_duplicates(),
        forall|y: usize| #[trigger] s.contains(y) ==> with_neighbor(s, x).contains(y),
{
    if !s.contains(x) {
        assert(s.push(x)[s.len() as int] == x);
        assert forall|y: usize| #[trigger] s.contains(y) implies s.push(x).contains(y) by {
            let i = choose|i: int| 0 <= i < s.len() && s[i] == y;
            assert(s.push(x)[i] == y);
        }
    }
}

/// A graph of strategy nodes.
#[derive(Debug)]
pub struct StrategyGraph {
    nodes: HashMap<usize, StrategyNode>,
    next_id: usize,
}

impl View for StrategyGraph {
    type V = Map<usize, StrategyNode>;

    /// The nodes of the graph, by id.
    closed spec fn view(&self) -> Map<usize, StrategyNode> {
        self.nodes@
    }
}

impl Clone for StrategyGraph {
    /// A copy with the same nodes, as well-formed as the original.
    fn clone(&self) -> (r: Self)
        ensures
            r@ == self@,
    {
        proof {
            use_type_invariant(self);
        }
        StrategyGraph { nodes: self.nodes.clone(), next_id: self.next_id }
    }
}

impl StrategyGraph {
    /// The ids handed out so far are exactly `0..next_id`, each node carries its own id,
    /// and no neighbor list names a node twice. Every graph keeps this.
    #[verifier::type_invariant]
    pub closed spec fn wf(&self) -> bool {
        &&& forall|k: usize| #[trigger] self.nodes@.contains_key(k) <==> k < self.next_id
        &&& forall|k: usize| #[trigger] self.nodes@.contains_key(k) ==> self.nodes@[k].id == k
        &&& self.nodes@.dom().len() == self.next_id
        &&& forall|k: usize| #[trigger]
            self.nodes@.contains_key(k) ==> self.nodes@[k].neighbors@.no_duplicates()
    }

    /// A well-formed graph holds the nodes `0..n`, `n` being its number of nodes,
    /// each carrying its own id, and no neighbor list repeats a node.
    pub proof fn law_node_ids(&self)
        requires
            self.wf(),
        ensures
            forall|k: usize| #[trigger] self@.contains_key(k) <==> k < self@.dom().len(),
            forall|k: usize| #[trigger] self@.contains_key(k) ==> self@[k].id == k,
            forall|k: usize| #[trigger] self@.contains_key(k) ==> self@[k].neighbors@.no_duplicates(),
    {
    }

    /// A graph has finitely many nodes.
    pub proof fn lemma_finite(&self)
        ensures
            self@.dom().finite(),
    {
    }

    pub fn new() -> (g: Self)
        ensures
            g@ == Map::<usize, StrategyNode>::empty(),
    {
        let g = StrategyGraph { nodes: HashMap::new(), next_id: 0 };
        assert(g.nodes@.dom() =~= Set::<usize>::empty());
        g
    }

    /// Adds a node with the given signals and no neighbors; returns its id, the
    /// number of nodes the graph had before.
    pub fn add_node(&mut self, signals: Vec<Ternary>) -> (id: usize)
        requires
            old(self)@.dom().len() < usize::MAX,
        ensures
            id == old(self)@.dom().len(),
            !old(self)@.contains_key(id),
            final(self)@ == old(self)@.insert(id, final(self)@[id]),
            final(self)@[id].id == id,
            final(self)@[id].signals@ == signals@,
            final(self)@[id].neighbors@ == Seq::<usize>::empty(),
            final(self)@.dom().len() == old(self)@.dom().len() + 1,
            closed_neighbors(old(self)@) ==> closed_neighbors(final(self)@),
            closed_neighbors(old(self)@) && symmetric(old(self)@) ==> symmetric(final(self)@),
    {
        proof {
            use_type_invariant(&*self);
        }
        let mut taken = StrategyGraph::new();
        std::mem::swap(&mut taken, self);
        let StrategyGraph { mut nodes, next_id } = taken;
        let id = next_id;
        let node = StrategyNode::with_signals(id, signals);
        nodes.insert(id, node);
        assert(nodes@.dom() =~= old(self).nodes@.dom().insert(id));
        *self = StrategyGraph { nodes, next_id: id + 1 };
        proof {
            let g0 = old(self)@;
            let g1 = self@;
            assert(g1[id].neighbors@ =~= Seq::<usize>::empty());
            if closed_neighbors(g0) {
                assert forall|u: usize, v: usize|
                    g1.contains_key(u) && #[trigger] g1[u].neighbors@.contains(v) implies g1.contains_key(v) by {
                    if u != id {
                        assert(g0[u] == g1[u]);
                    }
                }
                if symmetric(g0) {
                    assert forall|u: usize, v: usize| #[trigger] edge(g1, u, v) implies edge(g1, v, u) by {
                        if u == id {
                        } else if v == id {
                            assert(g0[u] == g1[u]);
                            assert(g0.contains_key(v));
                        } else {
                            assert(g0[u] == g1[u] && g0[v] == g1[v]);
                            assert(edge(g0, u, v));
                        }
                    }
                }
            }
        }
        id
    }

    /// Links `a` and `b` in both directions, each side only where it is a node of the graph.
    pub fn add_edge(&mut self, a: usize, b: usize)
        ensures
            final(self)@.dom() == old(self)@.dom(),
            forall|k: usize|
                #![trigger final(self)@[k]]
                old(self)@.contains_key(k) ==> {
                    &&& final(self)@[k].id == old(self)@[k].id
                    &&& final(self)@[k].signals@ == old(self)@[k].signals@
                    &&& final(self)@[k].neighbors@ == if k == a {
                        with_neighbor(old(self)@[k].neighbors@, b)
                    } else if k == b {
                        with_neighbor(old(self)@[k].neighbors@, a)
                    } else {
                        old(self)@[k].neighbors@
                    }
                },
            old(self)@.contains_key(a) && old(self)@.contains_key(b) ==> edge(final(self)@, a, b)
                && edge(final(self)@, b, a),
            old(self)@.contains_key(a) && old(self)@.contains_key(b) && closed_neighbors(old(self)@)
                ==> closed_neighbors(final(self)@),
            old(self)@.contains_key(a) && old(self)@.contains_key(b) && symmetric(old(self)@)
                ==> symmetric(final(self)@),
    {
        proof {
            use_type_invariant(&*self);
        }
        let mut taken = StrategyGraph::new();
        std::mem::swap(&mut taken, self);
        let StrategyGraph { mut nodes, next_id } = taken;
        if let Some(mut node) = nodes.remove(&a) {
            node.add_neighbor(b);
            nodes.insert(a, node);
        }
        assert(nodes@.dom() =~= old(self).nodes@.dom());
        if let Some(mut node) = nodes.remove(&b) {
            node.add_neighbor(a);
            nodes.insert(b, node);
        }
        assert(nodes@.dom() =~= old(self).nodes@.dom());
        proof {
            let g0 = old(self)@;
            assert forall|k: usize| #[trigger] nodes@.contains_key(k) implies nodes@[k].neighbors@.no_duplicates() by {
                assert(g0.contains_key(k));
                assert(g0[k].neighbors@.no_duplicates());
                if k == a {
                    law_with_neighbor_idempotent(g0[k].neighbors@, b);
                } else if k == b {
                    law_with_neighbor_idempotent(g0[k].neighbors@, a);
                }
            }
        }
        *self = StrategyGraph { nodes, next_id };
        proof {
            let g0 = old(self)@;
            let g1 = self@;
            if a == b && g0.contains_key(a) {
                law_with_neighbor_idempotent(g0[a].neighbors@, a);
            }
            if g0.contains_key(a) {
                law_with_neighbor_idempotent(g0[a].neighbors@, b);
            }
            if g0.contains_key(b) {
                law_with_neighbor_idempotent(g0[b].neighbors@, a);
            }
            if g0.contains_key(a) && g0.contains_key(b) {
                assert forall|u: usize, v: usize|
                    g1.contains_key(u) && #[trigger] g0[u].neighbors@.contains(v) implies g1[u].neighbors@.contains(v) by {
                    if u == a {
                        law_with_neighbor_idempotent(g0[u].neighbors@, b);
                    } else if u == b {
                        law_with_neighbor_idempotent(g0[u].neighbors@, a);
                    }
                }
                if closed_neighbors(g0) {
                    assert forall|u: usize, v: usize|
                        g1.contains_key(u) && #[trigger] g1[u].neighbors@.contains(v) implies g1.contains_key(v) by {
                        if u == a && v == b {
                        } else if u == b && v == a {
                        } else if u == a {
                            assert(g0[u].neighbors@.contains(v)) by {
                                let s = g0[u].neighbors@;
                                if !s.contains(b) {
                                    let i = choose|i: int| 0 <= i < s.push(b).len() && s.push(b)[i] == v;
                                    assert(s[i] == v);
                                }
                            }
                        } else if u == b {
                            assert(g0[u].neighbors@.contains(v)) by {
                                let s = g0[u].neighbors@;
                                if !s.contains(a) {
                                    let i = choose|i: int| 0 <= i < s.push(a).len() && s.push(a)[i] == v;
                                    assert(s[i] == v);
                                }
                            }
                        }
                    }
                }
                if symmetric(g0) {
                    assert forall|u: usize, v: usize| #[trigger] edge(g1, u, v) implies edge(g1, v, u) by {
                        if (u == a && v == b) || (u == b && v == a) {
                        } else {
                            assert(edge(g0, u, v)) by {
                                if u == a {
                                    let s = g0[u].neighbors@;
                                    if !s.contains(b) {
                                        let i = choose|i: int| 0 <= i < s.push(b).len() && s.push(b)[i] == v;
                                        assert(s[i] == v);
                                    }
                                } else if u == b {
                                    let s = g0[u].neighbors@;
                                    if !s.contains(a) {
                                        let i = choose|i: int| 0 <= i < s.push(a).len() && s.push(a)[i] == v;
                                        assert(s[i] == v);
                                    }
                                }
                            }
                            assert(g1[v].neighbors@.contains(u));
                        }
                    }
                }
            }
        }
    }

    pub fn get(&self, id: usize) -> (r: Option<&StrategyNode>)
        ensures
            match r {
                Some(n) => self@.contains_key(id) && *n == self@[id],
                None => !self@.contains_key(id),
            },
    {
        self.nodes.get(&id)
    }

    pub fn node_count(&self) -> (n: usize)
        ensures
            n == self@.dom().len(),
    {
        self.nodes.len()
    }

    /// All nodes of the graph, in order of their ids.
    pub fn nodes(&self) -> (r: Vec<&StrategyNode>)
        ensures
            r@.len() == self@.dom().len(),
            forall|i: int| 0 <= i < r@.len() ==> *#[trigger] r@[i] == self@[i as usize],
    {
        proof {
            use_type_invariant(self);
        }
        let mut r: Vec<&StrategyNode> = Vec::new();
        let n = self.next_id;
        for i in 0..n
            invariant
                self.wf(),
                n == self.next_id,
                r@.len() == i,
                forall|j: int| 0 <= j < i ==> *#[trigger] r@[j] == self@[j as usize],
        {
            let node = self.nodes.get(&i).unwrap();
            r.push(node);
        }
        r
    }
}

impl Default for StrategyGraph {
    fn default() -> (g: Self)
        ensures
            g@ == Map::<usize, StrategyNode>::empty(),
    {
        Self::new()
    }
}

} // verus!
