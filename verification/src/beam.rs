//! Beam search over a strategy graph.

use vstd::prelude::*;

use crate::graph::{StrategyGraph, StrategyNode};
use crate::paths::{edge, is_walk_between};

verus! {

/// A candidate in beam search.
#[derive(Debug, Clone)]
pub struct BeamCandidate {
    pub node_id: usize,
    pub score: i64,
    pub path: Vec<usize>,
}

/// A candidate as a mathematical value: its node, score and path.
pub open spec fn cand_view(c: BeamCandidate) -> (usize, int, Seq<usize>) {
    (c.node_id, c.score as int, c.path@)
}

/// A sequence of candidates as mathematical values.
pub open spec fn cands_view(s: Seq<BeamCandidate>) -> Seq<(usize, int, Seq<usize>)> {
    s.map_values(|c: BeamCandidate| cand_view(c))
}

/// The candidates that extend candidate `c` by one of the neighbors in `nbrs`
/// that is a node of `g`, in the order of `nbrs`.
pub open spec fn expand_nbrs(
    g: Map<usize, StrategyNode>,
    sc: spec_fn(StrategyNode) -> int,
    c: (usize, int, Seq<usize>),
    nbrs: Seq<usize>,
) -> Seq<(usize, int, Seq<usize>)>
    decreases nbrs.len(),
{
    if nbrs.len() == 0 {
        Seq::empty()
    } else {
        let n = nbrs.last();
        let rest = expand_nbrs(g, sc, c, nbrs.drop_last());
        if g.contains_key(n) {
            rest.push((n, c.1 + sc(g[n]), c.2.push(n)))
        } else {
            rest
        }
    }
}

/// All one-step extensions of the candidates of `beam`, candidate by candidate.
pub open spec fn expand(
    g: Map<usize, StrategyNode>,
    sc: spec_fn(StrategyNode) -> int,
    beam: Seq<(usize, int, Seq<usize>)>,
) -> Seq<(usize, int, Seq<usize>)>
    decreases beam.len(),
{
    if beam.len() == 0 {
        Seq::empty()
    } else {
        let c = beam.last();
        expand(g, sc, beam.drop_last()) + expand_nbrs(g, sc, c, g[c.0].neighbors@)
    }
}

/// `s` with `c` placed after every leading candidate whose score is at least `c`'s.
pub open spec fn insert_desc(s: Seq<(usize, int, Seq<usize>)>, c: (usize, int, Seq<usize>)) -> Seq<
    (usize, int, Seq<usize>),
>
    decreases s.len(),
{
    if s.len() == 0 {
        seq![c]
    } else if s[0].1 < c.1 {
        seq![c] + s
    } else {
        seq![s[0]] + insert_desc(s.drop_first(), c)
    }
}

/// `s` sorted by descending score, candidates of equal score keeping their order.
pub open spec fn sort_desc(s: Seq<(usize, int, Seq<usize>)>) -> Seq<(usize, int, Seq<usize>)>
    decreases s.len(),
{
    if s.len() == 0 {
        s
    } else {
        insert_desc(sort_desc(s.drop_last()), s.last())
    }
}

/// The first `w` elements of `s`, or all of them if there are fewer.
pub open spec fn take_at_most<A>(s: Seq<A>, w: nat) -> Seq<A> {
    if w < s.len() {
        s.take(w as int)
    } else {
        s
    }
}

/// The beam after `t` rounds: round zero holds the start candidate alone, and
/// each round keeps the `w` best-scoring extensions of the previous one.
pub open spec fn beam_at(
    g: Map<usize, StrategyNode>,
    sc: spec_fn(StrategyNode) -> int,
    w: nat,
    c0: (usize, int, Seq<usize>),
    t: nat,
) -> Seq<(usize, int, Seq<usize>)>
    decreases t,
{
    if t == 0 {
        seq![c0]
    } else {
        take_at_most(sort_desc(expand(g, sc, beam_at(g, sc, w, c0, (t - 1) as nat))), w)
    }
}

/// Every candidate that was in the beam in rounds `0..=t`, round by round.
pub open spec fn history(
    g: Map<usize, StrategyNode>,
    sc: spec_fn(StrategyNode) -> int,
    w: nat,
    c0: (usize, int, Seq<usize>),
    t: nat,
) -> Seq<(usize, int, Seq<usize>)>
    decreases t,
{
    if t == 0 {
        seq![c0]
    } else {
        history(g, sc, w, c0, (t - 1) as nat) + beam_at(g, sc, w, c0, t)
    }
}

/// The highest score in a non-empty sequence of candidates.
pub open spec fn max_score(s: Seq<(usize, int, Seq<usize>)>) -> int
    decreases s.len(),
{
    if s.len() <= 1 {
        s[0].1
    } else {
        let m = max_score(s.drop_last());
        if s.last().1 > m {
            s.last().1
        } else {
            m
        }
    }
}

/// The candidates of `s` that reach the highest score, in their order in `s`.
pub open spec fn best_of(s: Seq<(usize, int, Seq<usize>)>) -> Seq<(usize, int, Seq<usize>)> {
    s.filter(|c: (usize, int, Seq<usize>)| c.1 == max_score(s))
}

/// What beam search from `start` returns when node `n` scores `sc(n)`: the
/// candidates of best score among all those the beam held within `d` rounds.
pub open spec fn beam_search_spec(
    g: Map<usize, StrategyNode>,
    sc: spec_fn(StrategyNode) -> int,
    start: usize,
    w: nat,
    d: nat,
) -> Seq<(usize, int, Seq<usize>)> {
    if !g.contains_key(start) {
        Seq::empty()
    } else {
        best_of(history(g, sc, w, (start, sc(g[start]), seq![start]), d))
    }
}

/// On the nodes of `g`, every value a call of `f` gives is the one `sc` gives.
pub open spec fn scores_by<F: Fn(&StrategyNode) -> i64>(
    g: Map<usize, StrategyNode>,
    f: F,
    sc: spec_fn(StrategyNode) -> int,
) -> bool {
    forall|v: usize, s: i64|
        g.contains_key(v) && #[trigger] call_ensures(f, (&g[v],), s) ==> s == sc(g[v])
}

/// The candidate's path is a walk from `start` to its node, of `t + 1` nodes,
/// and its score is a sum of values `f` may give for the nodes of the path.
pub open spec fn cand_ok<F: Fn(&StrategyNode) -> i64>(
    g: Map<usize, StrategyNode>,
    f: F,
    start: usize,
    c: (usize, int, Seq<usize>),
    t: nat,
) -> bool {
    &&& is_walk_between(g, c.2, start, c.0)
    &&& c.2.len() == t + 1
    &&& is_path_score(g, f, c.2, c.1)
}

/// `rs` gives, node by node, a value that a call of `f` may return for the nodes of `path`.
pub open spec fn path_scores<F: Fn(&StrategyNode) -> i64>(
    g: Map<usize, StrategyNode>,
    f: F,
    path: Seq<usize>,
    rs: Seq<i64>,
) -> bool {
    &&& rs.len() == path.len()
    &&& forall|i: int| 0 <= i < rs.len() ==> call_ensures(f, (&g[path[i]],), #[trigger] rs[i])
}

/// `score` is the sum of values `f` may give for the nodes of `path`.
pub open spec fn is_path_score<F: Fn(&StrategyNode) -> i64>(
    g: Map<usize, StrategyNode>,
    f: F,
    path: Seq<usize>,
    score: int,
) -> bool {
    exists|rs: Seq<i64>| #[trigger] path_scores(g, f, path, rs) && score == int_sum(rs)
}

/// Along every walk from `start` of at most `d + 1` nodes, every sum of values
/// `f` may give for its nodes fits in an `i64`.
pub open spec fn walk_sums_fit<F: Fn(&StrategyNode) -> i64>(
    g: Map<usize, StrategyNode>,
    f: F,
    start: usize,
    d: nat,
) -> bool {
    forall|p: Seq<usize>, rs: Seq<i64>|
        #[trigger] path_scores(g, f, p, rs) && 1 <= p.len() <= d + 1 && is_walk_between(
            g,
            p,
            start,
            p.last(),
        ) ==> i64::MIN <= int_sum(rs) <= i64::MAX
}

/// With node `n` scoring `sc(n)`, every score computed in the first `d` rounds
/// of beam search from `start` fits in an `i64`.
pub open spec fn rounds_fit(
    g: Map<usize, StrategyNode>,
    sc: spec_fn(StrategyNode) -> int,
    start: usize,
    w: nat,
    d: nat,
) -> bool {
    forall|t: nat, c: (usize, int, Seq<usize>)|
        t < d && #[trigger] expand(g, sc, beam_at(g, sc, w, (start, sc(g[start]), seq![start]), t)).contains(c)
            ==> i64::MIN <= c.1 <= i64::MAX
}

/// How many steps from `start` the candidates that beam search scores can
/// take: `d`, but at most one when the beam keeps nothing.
pub open spec fn searched_steps(w: nat, d: nat) -> nat {
    if w == 0 && d > 1 {
        1
    } else {
        d
    }
}

/// No score that beam search computes can overflow: either every walk short
/// enough to be searched has sums that fit, or `f` gives fixed scores on the
/// nodes of `g` and the sums the rounds compute fit.
pub open spec fn sums_fit<F: Fn(&StrategyNode) -> i64>(
    g: Map<usize, StrategyNode>,
    f: F,
    start: usize,
    w: nat,
    d: nat,
) -> bool {
    ||| walk_sums_fit(g, f, start, searched_steps(w, d))
    ||| exists|sc: spec_fn(StrategyNode) -> int| #[trigger] scores_by(g, f, sc) && rounds_fit(g, sc, start, w, d)
}

/// The sum of a sequence of integers.
pub open spec fn int_sum(s: Seq<i64>) -> int
    decreases s.len(),
{
    if s.len() == 0 {
        0
    } else {
        int_sum(s.drop_last()) + s.last()
    }
}

// ---- lemmas on the model ----

/// Inserting at the first position whose score is below `c`'s gives `insert_desc`.
proof fn lemma_insert_desc_at(s: Seq<(usize, int, Seq<usize>)>, c: (usize, int, Seq<usize>), pos: int)
    requires
        0 <= pos <= s.len(),
        forall|j: int| 0 <= j < pos ==> s[j].1 >= c.1,
        pos < s.len() ==> s[pos].1 < c.1,
    ensures
        insert_desc(s, c) == s.insert(pos, c),
    decreases s.len(),
{
    if s.len() == 0 {
        assert(s.insert(pos, c) =~= seq![c]);
    } else if s[0].1 < c.1 {
        assert(pos == 0);
        assert(s.insert(pos, c) =~= seq![c] + s);
    } else {
        let t = s.drop_first();
        assert(pos > 0);
        lemma_insert_desc_at(t, c, pos - 1);
        assert(s.insert(pos, c) =~= seq![s[0]] + t.insert(pos - 1, c));
    }
}

/// Everything in `insert_desc(s, c)` is `c` or in `s`.
proof fn lemma_insert_desc_contains(s: Seq<(usize, int, Seq<usize>)>, c: (usize, int, Seq<usize>))
    ensures
        insert_desc(s, c).len() == s.len() + 1,
        forall|x: (usize, int, Seq<usize>)| #[trigger] insert_desc(s, c).contains(x) ==> x == c || s.contains(x),
    decreases s.len(),
{
    if s.len() > 0 && s[0].1 >= c.1 {
        let t = s.drop_first();
        lemma_insert_desc_contains(t, c);
        assert forall|x: (usize, int, Seq<usize>)| #[trigger] insert_desc(s, c).contains(x) implies x == c
            || s.contains(x) by {
            let r = insert_desc(s, c);
            let i = choose|i: int| 0 <= i < r.len() && r[i] == x;
            if i > 0 {
                assert(insert_desc(t, c)[i - 1] == x);
                assert(insert_desc(t, c).contains(x));
                if t.contains(x) {
                    let j = choose|j: int| 0 <= j < t.len() && t[j] == x;
                    assert(s[j + 1] == x);
                }
            } else {
                assert(s[0] == x);
            }
        }
    } else if s.len() > 0 {
        assert forall|x: (usize, int, Seq<usize>)| #[trigger] insert_desc(s, c).contains(x) implies x == c
            || s.contains(x) by {
            let r = insert_desc(s, c);
            let i = choose|i: int| 0 <= i < r.len() && r[i] == x;
            if i > 0 {
                assert(s[i - 1] == x);
            }
        }
    } else {
        assert forall|x: (usize, int, Seq<usize>)| #[trigger] insert_desc(s, c).contains(x) implies x == c
            || s.contains(x) by {
            assert(insert_desc(s, c) == seq![c]);
        }
    }
}

/// Everything in `sort_desc(s)` is in `s`.
proof fn lemma_sort_desc_contains(s: Seq<(usize, int, Seq<usize>)>)
    ensures
        sort_desc(s).len() == s.len(),
        forall|x: (usize, int, Seq<usize>)| #[trigger] sort_desc(s).contains(x) ==> s.contains(x),
    decreases s.len(),
{
    if s.len() > 0 {
        let t = s.drop_last();
        lemma_sort_desc_contains(t);
        lemma_insert_desc_contains(sort_desc(t), s.last());
        assert forall|x: (usize, int, Seq<usize>)| #[trigger] sort_desc(s).contains(x) implies s.contains(
            x,
        ) by {
            if x == s.last() {
                assert(s[s.len() - 1] == x);
            } else {
                assert(sort_desc(t).contains(x));
                assert(t.contains(x));
                let j = choose|j: int| 0 <= j < t.len() && t[j] == x;
                assert(s[j] == x);
            }
        }
    }
}

/// An empty beam stays empty, and the history stops growing.
proof fn lemma_beam_empty_stays(
    g: Map<usize, StrategyNode>,
    sc: spec_fn(StrategyNode) -> int,
    w: nat,
    c0: (usize, int, Seq<usize>),
    t: nat,
    u: nat,
)
    requires
        t <= u,
        beam_at(g, sc, w, c0, t).len() == 0,
    ensures
        beam_at(g, sc, w, c0, u).len() == 0,
        history(g, sc, w, c0, u) == history(g, sc, w, c0, t),
    decreases u - t,
{
    if t < u {
        lemma_beam_empty_stays(g, sc, w, c0, t, (u - 1) as nat);
        let prev = beam_at(g, sc, w, c0, (u - 1) as nat);
        assert(expand(g, sc, prev) =~= Seq::<(usize, int, Seq<usize>)>::empty());
        assert(sort_desc(expand(g, sc, prev)).len() == 0);
        assert(beam_at(g, sc, w, c0, u).len() == 0);
        assert(history(g, sc, w, c0, u) =~= history(g, sc, w, c0, (u - 1) as nat));
    }
}

/// The history always holds the start candidate.
pub proof fn lemma_history_nonempty(
    g: Map<usize, StrategyNode>,
    sc: spec_fn(StrategyNode) -> int,
    w: nat,
    c0: (usize, int, Seq<usize>),
    t: nat,
)
    ensures
        history(g, sc, w, c0, t).len() > 0,
    decreases t,
{
    if t > 0 {
        lemma_history_nonempty(g, sc, w, c0, (t - 1) as nat);
    }
}

/// Appending `c` to `s` and keeping the best-scoring candidates.
proof fn lemma_best_of_push(s: Seq<(usize, int, Seq<usize>)>, c: (usize, int, Seq<usize>))
    requires
        s.len() > 0,
    ensures
        max_score(s.push(c)) == if c.1 > max_score(s) { c.1 } else { max_score(s) },
        c.1 > max_score(s) ==> best_of(s.push(c)) == seq![c],
        c.1 == max_score(s) ==> best_of(s.push(c)) == best_of(s).push(c),
        c.1 < max_score(s) ==> best_of(s.push(c)) == best_of(s),
{
    let t = s.push(c);
    assert(t.drop_last() =~= s);
    lemma_max_score_bounds(s);
    let m = max_score(t);
    reveal_with_fuel(Seq::filter, 1);
    let p = |x: (usize, int, Seq<usize>)| x.1 == m;
    assert(best_of(t) == t.filter(p));
    assert(t.filter(p) == if p(c) { s.filter(p).push(c) } else { s.filter(p) });
    if c.1 > max_score(s) {
        assert forall|i: int| 0 <= i < s.len() implies !p(s[i]) by {
            assert(s[i].1 <= max_score(s));
        }
        assert(s.filter(p) =~= Seq::<(usize, int, Seq<usize>)>::empty()) by {
            if s.filter(p).len() > 0 {
                let x = s.filter(p)[0];
                assert(s.filter(p).contains(x));
                s.lemma_filter_contains_rev(p, x);
                let i = choose|i: int| 0 <= i < s.len() && s[i] == x;
            }
        }
        assert(best_of(t) =~= seq![c]);
    } else {
        let q = |x: (usize, int, Seq<usize>)| x.1 == max_score(s);
        assert(p =~= q);
    }
}

/// Every score in `s` is at most `max_score(s)`, and some candidate reaches it.
pub proof fn lemma_max_score_bounds(s: Seq<(usize, int, Seq<usize>)>)
    requires
        s.len() > 0,
    ensures
        forall|i: int| 0 <= i < s.len() ==> s[i].1 <= max_score(s),
        exists|i: int| 0 <= i < s.len() && s[i].1 == max_score(s),
    decreases s.len(),
{
    if s.len() > 1 {
        let t = s.drop_last();
        lemma_max_score_bounds(t);
        assert forall|i: int| 0 <= i < s.len() implies s[i].1 <= max_score(s) by {
            if i < t.len() {
                assert(t[i] == s[i]);
            }
        }
        if s.last().1 > max_score(t) {
            assert(s[s.len() - 1].1 == max_score(s));
        } else {
            let i = choose|i: int| 0 <= i < t.len() && t[i].1 == max_score(t);
            assert(s[i] == t[i]);
        }
    } else {
        assert(s[0].1 == max_score(s));
    }
}


/// Scores never rise along the sequence.
pub open spec fn sorted_desc(s: Seq<(usize, int, Seq<usize>)>) -> bool {
    forall|i: int, j: int| #![trigger s[i], s[j]] 0 <= i < j < s.len() ==> s[i].1 >= s[j].1
}

/// `insert_desc(s, c)` holds `c` and everything `s` holds.
proof fn lemma_insert_desc_keeps(s: Seq<(usize, int, Seq<usize>)>, c: (usize, int, Seq<usize>))
    ensures
        insert_desc(s, c).contains(c),
        forall|y: (usize, int, Seq<usize>)| s.contains(y) ==> #[trigger] insert_desc(s, c).contains(y),
    decreases s.len(),
{
    let r = insert_desc(s, c);
    if s.len() == 0 {
        assert(r[0] == c);
    } else if s[0].1 < c.1 {
        assert(r[0] == c);
        assert forall|y: (usize, int, Seq<usize>)| s.contains(y) implies #[trigger] r.contains(y) by {
            let i = choose|i: int| 0 <= i < s.len() && s[i] == y;
            assert(r[i + 1] == y);
        }
    } else {
        let t = s.drop_first();
        lemma_insert_desc_keeps(t, c);
        let rt = insert_desc(t, c);
        assert(r == seq![s[0]] + rt);
        let k = choose|k: int| 0 <= k < rt.len() && rt[k] == c;
        assert(r[k + 1] == c);
        assert forall|y: (usize, int, Seq<usize>)| s.contains(y) implies #[trigger] r.contains(y) by {
            let i = choose|i: int| 0 <= i < s.len() && s[i] == y;
            if i == 0 {
                assert(r[0] == y);
            } else {
                assert(t[i - 1] == y);
                assert(t.contains(y));
                assert(rt.contains(y));
                let m = choose|m: int| 0 <= m < rt.len() && rt[m] == y;
                assert(r[m + 1] == y);
            }
        }
    }
}

/// Inserting into a sequence sorted by descending score keeps it sorted.
proof fn lemma_insert_desc_sorted(s: Seq<(usize, int, Seq<usize>)>, c: (usize, int, Seq<usize>))
    requires
        sorted_desc(s),
    ensures
        sorted_desc(insert_desc(s, c)),
    decreases s.len(),
{
    let r = insert_desc(s, c);
    if s.len() == 0 {
    } else if s[0].1 < c.1 {
        assert forall|i: int, j: int| #![trigger r[i], r[j]] 0 <= i < j < r.len() implies r[i].1 >= r[j].1 by {
            assert(r[j] == s[j - 1]);
            if i > 0 {
                assert(r[i] == s[i - 1]);
            } else {
                assert(s[0].1 >= s[j - 1].1 || j - 1 == 0);
            }
        }
    } else {
        let t = s.drop_first();
        assert(sorted_desc(t)) by {
            assert forall|i: int, j: int| #![trigger t[i], t[j]] 0 <= i < j < t.len() implies t[i].1 >= t[j].1 by {
                assert(s[i + 1].1 >= s[j + 1].1);
            }
        }
        lemma_insert_desc_sorted(t, c);
        lemma_insert_desc_contains(t, c);
        let rt = insert_desc(t, c);
        assert(r == seq![s[0]] + rt);
        assert forall|i: int, j: int| #![trigger r[i], r[j]] 0 <= i < j < r.len() implies r[i].1 >= r[j].1 by {
            assert(r[j] == rt[j - 1]);
            if i > 0 {
                assert(r[i] == rt[i - 1]);
            } else {
                let y = rt[j - 1];
                assert(rt.contains(y));
                if y != c {
                    assert(t.contains(y));
                    let m = choose|m: int| 0 <= m < t.len() && t[m] == y;
                    assert(s[m + 1] == y);
                }
            }
        }
    }
}

/// `sort_desc(s)` holds exactly what `s` holds, as many, sorted by descending score.
proof fn lemma_sort_desc_perm(s: Seq<(usize, int, Seq<usize>)>)
    ensures
        sort_desc(s).len() == s.len(),
        sorted_desc(sort_desc(s)),
        forall|y: (usize, int, Seq<usize>)| #[trigger] sort_desc(s).contains(y) <==> s.contains(y),
    decreases s.len(),
{
    lemma_sort_desc_contains(s);
    if s.len() > 0 {
        let t = s.drop_last();
        lemma_sort_desc_perm(t);
        lemma_insert_desc_sorted(sort_desc(t), s.last());
        lemma_insert_desc_keeps(sort_desc(t), s.last());
        assert forall|y: (usize, int, Seq<usize>)| s.contains(y) implies #[trigger] sort_desc(s).contains(y) by {
            let i = choose|i: int| 0 <= i < s.len() && s[i] == y;
            if i < s.len() - 1 {
                assert(t[i] == y);
                assert(t.contains(y));
            }
        }
    }
}

/// Each round of beam search keeps the `w` best-scoring extensions of the
/// previous beam: as many as `w`, or all of them if there are fewer; in
/// descending order of score; each an extension; and no extension left out
/// scores above one that is kept.
pub proof fn law_round_keeps_top(
    g: Map<usize, StrategyNode>,
    sc: spec_fn(StrategyNode) -> int,
    w: nat,
    c0: (usize, int, Seq<usize>),
    t: nat,
)
    requires
        t > 0,
    ensures
        ({
            let ext = expand(g, sc, beam_at(g, sc, w, c0, (t - 1) as nat));
            let b = beam_at(g, sc, w, c0, t);
            &&& b.len() == if w < ext.len() { w as int } else { ext.len() as int }
            &&& forall|i: int, j: int| #![trigger b[i], b[j]] 0 <= i < j < b.len() ==> b[i].1 >= b[j].1
            &&& forall|x: (usize, int, Seq<usize>)| #[trigger] b.contains(x) ==> ext.contains(x)
            &&& forall|x: (usize, int, Seq<usize>), k: int|
                #![trigger ext.contains(x), b[k]]
                ext.contains(x) && !b.contains(x) && 0 <= k < b.len() ==> x.1 <= b[k].1
        }),
{
    let ext = expand(g, sc, beam_at(g, sc, w, c0, (t - 1) as nat));
    let srt = sort_desc(ext);
    let b = beam_at(g, sc, w, c0, t);
    lemma_sort_desc_perm(ext);
    assert(b == take_at_most(srt, w));
    assert forall|i: int, j: int| #![trigger b[i], b[j]] 0 <= i < j < b.len() implies b[i].1 >= b[j].1 by {
        assert(b[i] == srt[i] && b[j] == srt[j]);
    }
    assert forall|x: (usize, int, Seq<usize>)| #[trigger] b.contains(x) implies ext.contains(x) by {
        let i = choose|i: int| 0 <= i < b.len() && b[i] == x;
        assert(srt[i] == x);
        assert(srt.contains(x));
    }
    assert forall|x: (usize, int, Seq<usize>), k: int|
        #![trigger ext.contains(x), b[k]]
        ext.contains(x) && !b.contains(x) && 0 <= k < b.len() implies x.1 <= b[k].1 by {
        assert(srt.contains(x));
        let i = choose|i: int| 0 <= i < srt.len() && srt[i] == x;
        if i < b.len() {
            assert(b[i] == x);
        }
        assert(b[k] == srt[k]);
    }
}

/// Every candidate of `expand` extends a candidate of `beam` by one of the
/// neighbors of its node that is a node, scoring the new node with `sc`; and
/// every such extension is there.
pub proof fn law_expand_is_every_extension(
    g: Map<usize, StrategyNode>,
    sc: spec_fn(StrategyNode) -> int,
    beam: Seq<(usize, int, Seq<usize>)>,
)
    ensures
        forall|j: int, k: int|
            0 <= j < beam.len() && 0 <= k < g[beam[j].0].neighbors@.len() && g.contains_key(
                #[trigger] g[beam[j].0].neighbors@[k],
            ) ==> expand(g, sc, beam).contains(
                (
                    g[beam[j].0].neighbors@[k],
                    beam[j].1 + sc(g[g[beam[j].0].neighbors@[k]]),
                    beam[j].2.push(g[beam[j].0].neighbors@[k]),
                ),
            ),
        forall|x: (usize, int, Seq<usize>)|
            #[trigger] expand(g, sc, beam).contains(x) ==> exists|j: int, k: int|
                0 <= j < beam.len() && 0 <= k < g[beam[j].0].neighbors@.len() && g.contains_key(x.0)
                    && x.0 == #[trigger] g[beam[j].0].neighbors@[k] && x.1 == beam[j].1 + sc(g[x.0])
                    && x.2 == beam[j].2.push(x.0),
{
    assert forall|j: int, k: int|
        0 <= j < beam.len() && 0 <= k < g[beam[j].0].neighbors@.len() && g.contains_key(
            #[trigger] g[beam[j].0].neighbors@[k],
        ) implies expand(g, sc, beam).contains(
            (
                g[beam[j].0].neighbors@[k],
                beam[j].1 + sc(g[g[beam[j].0].neighbors@[k]]),
                beam[j].2.push(g[beam[j].0].neighbors@[k]),
            ),
        ) by {
        lemma_expand_contains(g, sc, beam, j, k);
    }
    assert forall|x: (usize, int, Seq<usize>)| #[trigger] expand(g, sc, beam).contains(x) implies exists|j: int, k: int|
        0 <= j < beam.len() && 0 <= k < g[beam[j].0].neighbors@.len() && g.contains_key(x.0)
            && x.0 == #[trigger] g[beam[j].0].neighbors@[k] && x.1 == beam[j].1 + sc(g[x.0])
            && x.2 == beam[j].2.push(x.0) by {
        lemma_expand_member(g, sc, beam, x);
    }
}

/// A candidate of `expand_nbrs` extends `c` by one of `nbrs` that is a node.
proof fn lemma_expand_nbrs_member(
    g: Map<usize, StrategyNode>,
    sc: spec_fn(StrategyNode) -> int,
    c: (usize, int, Seq<usize>),
    nbrs: Seq<usize>,
    x: (usize, int, Seq<usize>),
)
    requires
        expand_nbrs(g, sc, c, nbrs).contains(x),
    ensures
        exists|k: int|
            0 <= k < nbrs.len() && g.contains_key(x.0) && x.0 == #[trigger] nbrs[k] && x.1 == c.1 + sc(g[x.0])
                && x.2 == c.2.push(x.0),
    decreases nbrs.len(),
{
    let rest = expand_nbrs(g, sc, c, nbrs.drop_last());
    let n = nbrs.last();
    if rest.contains(x) {
        lemma_expand_nbrs_member(g, sc, c, nbrs.drop_last(), x);
        let k = choose|k: int|
            0 <= k < nbrs.drop_last().len() && g.contains_key(x.0) && x.0 == #[trigger] nbrs.drop_last()[k]
                && x.1 == c.1 + sc(g[x.0]) && x.2 == c.2.push(x.0);
        assert(nbrs[k] == nbrs.drop_last()[k]);
    } else {
        assert(g.contains_key(n));
        let r = rest.push((n, c.1 + sc(g[n]), c.2.push(n)));
        let i = choose|i: int| 0 <= i < r.len() && r[i] == x;
        if i < rest.len() {
            assert(rest[i] == x);
        }
        assert(nbrs[nbrs.len() - 1] == n);
    }
}

/// A candidate of `expand` extends a candidate of `beam`.
proof fn lemma_expand_member(
    g: Map<usize, StrategyNode>,
    sc: spec_fn(StrategyNode) -> int,
    beam: Seq<(usize, int, Seq<usize>)>,
    x: (usize, int, Seq<usize>),
)
    requires
        expand(g, sc, beam).contains(x),
    ensures
        exists|j: int, k: int|
            0 <= j < beam.len() && 0 <= k < g[beam[j].0].neighbors@.len() && g.contains_key(x.0)
                && x.0 == #[trigger] g[beam[j].0].neighbors@[k] && x.1 == beam[j].1 + sc(g[x.0])
                && x.2 == beam[j].2.push(x.0),
    decreases beam.len(),
{
    let left = expand(g, sc, beam.drop_last());
    let c = beam.last();
    let right = expand_nbrs(g, sc, c, g[c.0].neighbors@);
    assert(expand(g, sc, beam) == left + right);
    let i = choose|i: int| 0 <= i < (left + right).len() && (left + right)[i] == x;
    if i < left.len() {
        assert(left[i] == x);
        lemma_expand_member(g, sc, beam.drop_last(), x);
        let (j, k) = choose|j: int, k: int|
            0 <= j < beam.drop_last().len() && 0 <= k < g[beam.drop_last()[j].0].neighbors@.len()
                && g.contains_key(x.0) && x.0 == #[trigger] g[beam.drop_last()[j].0].neighbors@[k] && x.1
                == beam.drop_last()[j].1 + sc(g[x.0]) && x.2 == beam.drop_last()[j].2.push(x.0);
        assert(beam[j] == beam.drop_last()[j]);
    } else {
        assert(right[i - left.len()] == x);
        lemma_expand_nbrs_member(g, sc, c, g[c.0].neighbors@, x);
        let k = choose|k: int|
            0 <= k < g[c.0].neighbors@.len() && g.contains_key(x.0) && x.0 == #[trigger] g[c.0].neighbors@[k]
                && x.1 == c.1 + sc(g[x.0]) && x.2 == c.2.push(x.0);
        assert(beam[beam.len() - 1] == c);
    }
}

/// The history of `t` rounds holds the start candidate and every candidate
/// of every round from `1` to `t`, and nothing else.
pub proof fn law_history_holds_every_round(
    g: Map<usize, StrategyNode>,
    sc: spec_fn(StrategyNode) -> int,
    w: nat,
    c0: (usize, int, Seq<usize>),
    t: nat,
)
    ensures
        history(g, sc, w, c0, t).contains(c0),
        forall|u: nat, x: (usize, int, Seq<usize>)|
            1 <= u <= t && #[trigger] beam_at(g, sc, w, c0, u).contains(x) ==> history(g, sc, w, c0, t).contains(x),
        forall|x: (usize, int, Seq<usize>)|
            #[trigger] history(g, sc, w, c0, t).contains(x) ==> x == c0 || exists|u: nat|
                1 <= u <= t && #[trigger] beam_at(g, sc, w, c0, u).contains(x),
    decreases t,
{
    let h = history(g, sc, w, c0, t);
    if t == 0 {
        assert(h == seq![c0]);
        assert(h[0] == c0);
    } else {
        let t1 = (t - 1) as nat;
        law_history_holds_every_round(g, sc, w, c0, t1);
        let h1 = history(g, sc, w, c0, t1);
        let b = beam_at(g, sc, w, c0, t);
        assert(h == h1 + b);
        let i0 = choose|i: int| 0 <= i < h1.len() && h1[i] == c0;
        assert(h[i0] == c0);
        assert forall|u: nat, x: (usize, int, Seq<usize>)|
            1 <= u <= t && #[trigger] beam_at(g, sc, w, c0, u).contains(x) implies h.contains(x) by {
            if u == t {
                let i = choose|i: int| 0 <= i < b.len() && b[i] == x;
                assert(h[h1.len() + i] == x);
            } else {
                assert(h1.contains(x));
                let i = choose|i: int| 0 <= i < h1.len() && h1[i] == x;
                assert(h[i] == x);
            }
        }
        assert forall|x: (usize, int, Seq<usize>)| #[trigger] h.contains(x) implies x == c0 || exists|u: nat|
            1 <= u <= t && #[trigger] beam_at(g, sc, w, c0, u).contains(x) by {
            let i = choose|i: int| 0 <= i < h.len() && h[i] == x;
            if i < h1.len() {
                assert(h1[i] == x);
                assert(h1.contains(x));
            } else {
                assert(b[i - h1.len()] == x);
                assert(b.contains(x));
            }
        }
    }
}

/// What beam search gives, when node `n` scores `sc(n)`: candidates the
/// beam held, none of which anything the beam held outscores, all scoring at
/// least the start node; and every candidate the beam held with that score.
pub proof fn law_beam_result_is_best_held(
    g: Map<usize, StrategyNode>,
    sc: spec_fn(StrategyNode) -> int,
    start: usize,
    w: nat,
    d: nat,
)
    requires
        g.contains_key(start),
    ensures
        ({
            let c0 = (start, sc(g[start]), seq![start]);
            let h = history(g, sc, w, c0, d);
            let r = beam_search_spec(g, sc, start, w, d);
            &&& r.len() > 0
            &&& forall|i: int| 0 <= i < r.len() ==> h.contains(#[trigger] r[i])
            &&& forall|i: int, y: (usize, int, Seq<usize>)|
                #![trigger r[i], h.contains(y)]
                0 <= i < r.len() && h.contains(y) ==> y.1 <= r[i].1
            &&& forall|i: int| 0 <= i < r.len() ==> (#[trigger] r[i]).1 >= sc(g[start])
            &&& forall|y: (usize, int, Seq<usize>)| #[trigger] h.contains(y) && y.1 == r[0].1 ==> r.contains(y)
        }),
{
    let c0 = (start, sc(g[start]), seq![start]);
    let h = history(g, sc, w, c0, d);
    law_history_holds_every_round(g, sc, w, c0, d);
    lemma_history_nonempty(g, sc, w, c0, d);
    lemma_max_score_bounds(h);
    let m = max_score(h);
    let p = |c: (usize, int, Seq<usize>)| c.1 == m;
    let r = h.filter(p);
    assert(r == beam_search_spec(g, sc, start, w, d));
    let jm = choose|j: int| 0 <= j < h.len() && h[j].1 == m;
    h.lemma_filter_contains(p, jm);
    assert forall|i: int| 0 <= i < r.len() implies h.contains(#[trigger] r[i]) && r[i].1 == m by {
        h.lemma_filter_pred(p, i);
        assert(r.contains(r[i]));
        h.lemma_filter_contains_rev(p, r[i]);
    }
    assert forall|i: int, y: (usize, int, Seq<usize>)|
        #![trigger r[i], h.contains(y)]
        0 <= i < r.len() && h.contains(y) implies y.1 <= r[i].1 by {
        let k = choose|k: int| 0 <= k < h.len() && h[k] == y;
        assert(r[i].1 == m);
    }
    assert forall|i: int| 0 <= i < r.len() implies (#[trigger] r[i]).1 >= sc(g[start]) by {
        let k = choose|k: int| 0 <= k < h.len() && h[k] == c0;
        assert(r[i].1 == m);
    }
    assert forall|y: (usize, int, Seq<usize>)| #[trigger] h.contains(y) && y.1 == r[0].1 implies r.contains(y) by {
        let k = choose|k: int| 0 <= k < h.len() && h[k] == y;
        assert(r[0].1 == m);
        h.lemma_filter_contains(p, k);
    }
}

// ---- executable part ----

/// A copy of a candidate.
fn copy_candidate(c: &BeamCandidate) -> (r: BeamCandidate)
    ensures
        cand_view(r) == cand_view(*c),
{
    let path = c.path.clone();
    assert(path@ =~= c.path@);
    BeamCandidate { node_id: c.node_id, score: c.score, path }
}

/// Sorts candidates by descending score; candidates of equal score keep their order.
fn sort_by_score_desc(v: Vec<BeamCandidate>) -> (r: Vec<BeamCandidate>)
    ensures
        cands_view(r@) == sort_desc(cands_view(v@)),
{
    let ghost orig = cands_view(v@);
    let mut rest = v;
    let mut sorted: Vec<BeamCandidate> = Vec::new();
    let ghost mut i: int = 0;
    proof {
        assert(cands_view(sorted@) =~= sort_desc(orig.take(0)));
        assert(cands_view(rest@) =~= orig.skip(0));
    }
    while rest.len() > 0
        invariant
            0 <= i <= orig.len(),
            cands_view(sorted@) == sort_desc(orig.take(i)),
            cands_view(rest@) == orig.skip(i),
        decreases rest@.len(),
    {
        let ghost old_rest = rest@;
        let c = rest.remove(0);
        let ghost cv = cand_view(c);
        proof {
            assert(cands_view(old_rest).len() == old_rest.len());
            assert(cands_view(old_rest)[0] == cv);
            assert(orig.skip(i)[0] == orig[i]);
            assert(cands_view(rest@) =~= orig.skip(i + 1)) by {
                assert forall|j: int| 0 <= j < rest@.len() implies cands_view(rest@)[j] == orig.skip(i + 1)[j] by {
                    assert(rest@[j] == old_rest[j + 1]);
                    assert(cands_view(old_rest)[j + 1] == orig.skip(i)[j + 1]);
                }
            }
        }
        let mut pos: usize = 0;
        while pos < sorted.len() && sorted[pos].score >= c.score
            invariant
                pos <= sorted@.len(),
                forall|j: int| 0 <= j < pos ==> cands_view(sorted@)[j].1 >= cv.1,
                cv == cand_view(c),
            decreases sorted@.len() - pos,
        {
            pos = pos + 1;
        }
        let ghost before = cands_view(sorted@);
        sorted.insert(pos, c);
        proof {
            lemma_insert_desc_at(before, cv, pos as int);
            assert(cands_view(sorted@) =~= before.insert(pos as int, cv));
            assert(orig.take(i + 1).drop_last() =~= orig.take(i));
            assert(orig.take(i + 1).last() == cv);
            i = i + 1;
        }
    }
    proof {
        assert(orig.take(i) =~= orig);
    }
    sorted
}

/// Extending `c` by the `k`-th of `nbrs` gives a candidate of `expand_nbrs`.
proof fn lemma_expand_nbrs_contains(
    g: Map<usize, StrategyNode>,
    sc: spec_fn(StrategyNode) -> int,
    c: (usize, int, Seq<usize>),
    nbrs: Seq<usize>,
    k: int,
)
    requires
        0 <= k < nbrs.len(),
        g.contains_key(nbrs[k]),
    ensures
        expand_nbrs(g, sc, c, nbrs).contains((nbrs[k], c.1 + sc(g[nbrs[k]]), c.2.push(nbrs[k]))),
    decreases nbrs.len(),
{
    let x = (nbrs[k], c.1 + sc(g[nbrs[k]]), c.2.push(nbrs[k]));
    let rest = expand_nbrs(g, sc, c, nbrs.drop_last());
    if k == nbrs.len() - 1 {
        assert(expand_nbrs(g, sc, c, nbrs) == rest.push(x));
        assert(rest.push(x)[rest.len() as int] == x);
    } else {
        assert(nbrs.drop_last()[k] == nbrs[k]);
        lemma_expand_nbrs_contains(g, sc, c, nbrs.drop_last(), k);
        let i = choose|i: int| 0 <= i < rest.len() && rest[i] == x;
        let n = nbrs.last();
        if g.contains_key(n) {
            assert(rest.push((n, c.1 + sc(g[n]), c.2.push(n)))[i] == x);
        }
    }
}

/// Extending the `j`-th candidate of `beam` by the `k`-th neighbor of its node
/// gives a candidate of `expand`.
proof fn lemma_expand_contains(
    g: Map<usize, StrategyNode>,
    sc: spec_fn(StrategyNode) -> int,
    beam: Seq<(usize, int, Seq<usize>)>,
    j: int,
    k: int,
)
    requires
        0 <= j < beam.len(),
        0 <= k < g[beam[j].0].neighbors@.len(),
        g.contains_key(g[beam[j].0].neighbors@[k]),
    ensures
        ({
            let nb = g[beam[j].0].neighbors@[k];
            expand(g, sc, beam).contains((nb, beam[j].1 + sc(g[nb]), beam[j].2.push(nb)))
        }),
    decreases beam.len(),
{
    let nb = g[beam[j].0].neighbors@[k];
    let x = (nb, beam[j].1 + sc(g[nb]), beam[j].2.push(nb));
    let left = expand(g, sc, beam.drop_last());
    let right = expand_nbrs(g, sc, beam.last(), g[beam.last().0].neighbors@);
    assert(expand(g, sc, beam) == left + right);
    if j == beam.len() - 1 {
        lemma_expand_nbrs_contains(g, sc, beam.last(), g[beam.last().0].neighbors@, k);
        let i = choose|i: int| 0 <= i < right.len() && right[i] == x;
        assert((left + right)[left.len() + i] == x);
    } else {
        assert(beam.drop_last()[j] == beam[j]);
        lemma_expand_contains(g, sc, beam.drop_last(), j, k);
        let i = choose|i: int| 0 <= i < left.len() && left[i] == x;
        assert((left + right)[i] == x);
    }
}

/// Beam search over a strategy graph.
///
/// Starting from `start`, each round extends every candidate of the beam by
/// one neighbor, scoring the new node with `score_fn`, and keeps the
/// `beam_width` best; the result lists every candidate of best score the beam
/// held within `max_depth` rounds, in the order they entered it.
#[verifier::rlimit(80)]
pub fn beam_search(
    graph: &StrategyGraph,
    start: usize,
    beam_width: usize,
    max_depth: usize,
    score_fn: impl Fn(&StrategyNode) -> i64,
) -> (r: Vec<BeamCandidate>)
    requires
        forall|v: usize| graph@.contains_key(v) ==> call_requires(score_fn, (&graph@[v],)),
        sums_fit(graph@, score_fn, start, beam_width as nat, max_depth as nat),
    ensures
        !graph@.contains_key(start) ==> r@.len() == 0,
        graph@.contains_key(start) ==> r@.len() > 0,
        forall|i: int|
            0 <= i < r@.len() ==> {
                &&& is_walk_between(graph@, (#[trigger] r@[i]).path@, start, r@[i].node_id)
                &&& r@[i].path@.len() <= max_depth + 1
                &&& is_path_score(graph@, score_fn, r@[i].path@, r@[i].score as int)
            },
        forall|i: int, j: int| 0 <= i < r@.len() && 0 <= j < r@.len() ==> (#[trigger] r@[i]).score
            == (#[trigger] r@[j]).score,
        graph@.contains_key(start) ==> exists|s0: i64|
            call_ensures(score_fn, (&graph@[start],), s0) && forall|i: int|
                0 <= i < r@.len() ==> #[trigger] r@[i].score >= s0,
        graph@.contains_key(start) && (max_depth == 0 || beam_width == 0) ==> {
            &&& r@.len() == 1
            &&& r@[0].node_id == start
            &&& r@[0].path@ == seq![start]
            &&& call_ensures(score_fn, (&graph@[start],), r@[0].score)
        },
        forall|sc: spec_fn(StrategyNode) -> int|
            #[trigger] scores_by(graph@, score_fn, sc) ==> cands_view(r@) == beam_search_spec(
                graph@,
                sc,
                start,
                beam_width as nat,
                max_depth as nat,
            ),
{
    let ghost g = graph@;
    let ghost w = beam_width as nat;
    let ghost d = max_depth as nat;
    let ghost fixed = exists|sc: spec_fn(StrategyNode) -> int|
        #[trigger] scores_by(g, score_fn, sc) && rounds_fit(g, sc, start, w, d);
    let ghost scf: spec_fn(StrategyNode) -> int = choose|sc: spec_fn(StrategyNode) -> int|
        #[trigger] scores_by(g, score_fn, sc) && rounds_fit(g, sc, start, w, d);
    if graph.get(start).is_none() {
        return Vec::new();
    }
    let start_node = graph.get(start).unwrap();
    let s0 = score_fn(start_node);
    let mut p0: Vec<usize> = Vec::new();
    p0.push(start);
    let first = BeamCandidate { node_id: start, score: s0, path: p0 };
    let ghost c0 = (start, s0 as int, seq![start]);
    let mut best: Vec<BeamCandidate> = Vec::new();
    best.push(copy_candidate(&first));
    let mut beam: Vec<BeamCandidate> = Vec::new();
    beam.push(first);
    proof {
        assert(first.path@ =~= seq![start]);
        let rs = seq![s0];
        assert(int_sum(rs) == s0) by {
            assert(rs.drop_last() =~= Seq::<i64>::empty());
            assert(int_sum(rs.drop_last()) == 0);
        }
        assert(path_scores(g, score_fn, first.path@, rs)) by {
            assert(call_ensures(score_fn, (&g[first.path@[0]],), rs[0]));
        }
        assert(cand_ok(g, score_fn, start, cand_view(first), 0));
        assert forall|sc: spec_fn(StrategyNode) -> int| #[trigger] scores_by(g, score_fn, sc) implies {
            &&& sc(g[start]) == s0
            &&& cands_view(beam@) == beam_at(g, sc, w, c0, 0)
            &&& cands_view(best@) == best_of(history(g, sc, w, c0, 0))
            &&& best@[0].score == max_score(history(g, sc, w, c0, 0))
        } by {
            assert(call_ensures(score_fn, (&g[start],), s0));
            assert(cands_view(beam@) =~= beam_at(g, sc, w, c0, 0));
            reveal_with_fuel(Seq::filter, 2);
            assert(history(g, sc, w, c0, 0) =~= seq![c0]);
            assert(max_score(seq![c0]) == c0.1);
            assert(seq![c0].drop_last() =~= Seq::<(usize, int, Seq<usize>)>::empty());
            assert(cands_view(best@) =~= best_of(history(g, sc, w, c0, 0)));
        }
        if fixed {
            assert(scores_by(g, score_fn, scf) && rounds_fit(g, scf, start, w, d));
            assert(scf(g[start]) == s0);
        }
    }
    let mut depth: usize = 0;
    let mut stop = false;
    while depth < max_depth && !stop
        invariant
            g == graph@,
            d == max_depth as nat,
            w == beam_width as nat,
            c0 == (start, s0 as int, seq![start]),
            call_ensures(score_fn, (&g[start],), s0),
            g.contains_key(start),
            depth <= max_depth,
            forall|v: usize| g.contains_key(v) ==> call_requires(score_fn, (&g[v],)),
            walk_sums_fit(g, score_fn, start, searched_steps(w, d)) || (fixed && scores_by(g, score_fn, scf)
                && rounds_fit(g, scf, start, w, d)),
            fixed ==> scf(g[start]) == s0,
            !stop ==> forall|i: int|
                0 <= i < beam@.len() ==> cand_ok(g, score_fn, start, cand_view(#[trigger] beam@[i]), depth as nat),
            best@.len() > 0,
            forall|i: int|
                0 <= i < best@.len() ==> {
                    &&& is_walk_between(g, (#[trigger] best@[i]).path@, start, best@[i].node_id)
                    &&& best@[i].path@.len() <= depth + 1
                    &&& is_path_score(g, score_fn, best@[i].path@, best@[i].score as int)
                },
            forall|i: int| 0 <= i < best@.len() ==> (#[trigger] best@[i]).score == best@[0].score,
            best@[0].score >= s0,
            w == 0 || depth == 0 ==> best@.len() == 1 && cand_view(best@[0]) == c0,
            w == 0 && depth > 0 && !stop ==> beam@.len() == 0,
            forall|sc: spec_fn(StrategyNode) -> int| #[trigger] scores_by(g, score_fn, sc) ==> {
                &&& sc(g[start]) == s0
                &&& cands_view(best@) == best_of(history(g, sc, w, c0, depth as nat))
                &&& best@[0].score == max_score(history(g, sc, w, c0, depth as nat))
                &&& !stop ==> cands_view(beam@) == beam_at(g, sc, w, c0, depth as nat)
                &&& stop ==> beam_at(g, sc, w, c0, depth as nat).len() == 0
            },
        decreases max_depth - depth,
    {
        let ghost bv = cands_view(beam@);
        let mut candidates: Vec<BeamCandidate> = Vec::new();
        let bl = beam.len();
        proof {
            assert(expand(g, scf, bv.take(0)) =~= Seq::<(usize, int, Seq<usize>)>::empty());
            assert forall|sc: spec_fn(StrategyNode) -> int| #[trigger] scores_by(g, score_fn, sc) implies cands_view(candidates@) == expand(g, sc, bv.take(0)) by {
                assert(expand(g, sc, bv.take(0)) =~= Seq::<(usize, int, Seq<usize>)>::empty());
                assert(cands_view(candidates@) =~= Seq::<(usize, int, Seq<usize>)>::empty());
            }
        }
        for j in 0..bl
            invariant
                g == graph@,
                d == max_depth as nat,
                w == beam_width as nat,
                c0 == (start, s0 as int, seq![start]),
                bv == cands_view(beam@),
                bl == beam@.len(),
                depth < max_depth,
                bl > 0 && w == 0 ==> depth == 0,
                forall|v: usize| g.contains_key(v) ==> call_requires(score_fn, (&g[v],)),
                walk_sums_fit(g, score_fn, start, searched_steps(w, d)) || (fixed && scores_by(g, score_fn, scf)
                    && rounds_fit(g, scf, start, w, d)),
                fixed ==> scf(g[start]) == s0,
                forall|sc: spec_fn(StrategyNode) -> int| #[trigger] scores_by(g, score_fn, sc) ==> bv == beam_at(g, sc, w, c0, depth as nat),
                forall|i: int|
                    0 <= i < beam@.len() ==> cand_ok(g, score_fn, start, cand_view(#[trigger] beam@[i]), depth as nat),
                forall|i: int|
                    0 <= i < candidates@.len() ==> cand_ok(g, score_fn, start, cand_view(#[trigger] candidates@[i]), (depth + 1) as nat),
                forall|sc: spec_fn(StrategyNode) -> int| #[trigger] scores_by(g, score_fn, sc) ==> cands_view(candidates@) == expand(g, sc, bv.take(j as int)),
        {
            let candidate = &beam[j];
            let ghost cv = cand_view(*candidate);
            proof {
                assert(cand_ok(g, score_fn, start, cv, depth as nat));
                assert(g.contains_key(cv.2[cv.2.len() - 1]));
                assert(bv[j as int] == cv);
            }
            let node = graph.get(candidate.node_id).unwrap();
            let m = node.neighbors.len();
            let ghost cands_before = cands_view(candidates@);
            let ghost nbrs = node.neighbors@;
            proof {
                assert forall|sc: spec_fn(StrategyNode) -> int| #[trigger] scores_by(g, score_fn, sc) implies cands_view(candidates@) == cands_before + expand_nbrs(g, sc, cv, nbrs.take(0)) by {
                    assert(expand_nbrs(g, sc, cv, nbrs.take(0)) =~= Seq::<(usize, int, Seq<usize>)>::empty());
                    assert(cands_before =~= cands_before + expand_nbrs(g, sc, cv, nbrs.take(0)));
                }
            }
            for k in 0..m
                invariant
                    g == graph@,
                    d == max_depth as nat,
                    w == beam_width as nat,
                    c0 == (start, s0 as int, seq![start]),
                    depth < max_depth,
                    bv == cands_view(beam@),
                    bl == beam@.len(),
                    0 <= j < bl,
                    w == 0 ==> depth == 0,
                    cv == bv[j as int],
                    cv == cand_view(*candidate),
                    cand_ok(g, score_fn, start, cv, depth as nat),
                    g.contains_key(candidate.node_id),
                    *node == g[candidate.node_id],
                    nbrs == node.neighbors@,
                    m == nbrs.len(),
                    forall|v: usize| g.contains_key(v) ==> call_requires(score_fn, (&g[v],)),
                    walk_sums_fit(g, score_fn, start, searched_steps(w, d)) || (fixed && scores_by(g, score_fn, scf)
                        && rounds_fit(g, scf, start, w, d)),
                    fixed ==> scf(g[start]) == s0,
                    forall|sc: spec_fn(StrategyNode) -> int| #[trigger] scores_by(g, score_fn, sc) ==> bv == beam_at(g, sc, w, c0, depth as nat),
                    forall|i: int|
                        0 <= i < candidates@.len() ==> cand_ok(g, score_fn, start, cand_view(#[trigger] candidates@[i]), (depth + 1) as nat),
                    forall|sc: spec_fn(StrategyNode) -> int| #[trigger] scores_by(g, score_fn, sc) ==> cands_view(candidates@) == cands_before + expand_nbrs(g, sc, cv, nbrs.take(k as int)),
            {
                let neighbor = node.neighbors[k];
                let ghost cands1 = cands_view(candidates@);
                if let Some(nnode) = graph.get(neighbor) {
                    let mut new_path = candidate.path.clone();
                    proof {
                        assert(new_path@ =~= candidate.path@);
                    }
                    new_path.push(neighbor);
                    let s = score_fn(nnode);
                    let ghost p = cv.2;
                    let ghost np = p.push(neighbor);
                    let ghost rs = choose|rs: Seq<i64>| #[trigger] path_scores(g, score_fn, p, rs) && cv.1 == int_sum(rs);
                    let ghost rs2 = rs.push(s);
                    proof {
                        assert(edge(g, candidate.node_id, neighbor)) by {
                            assert(nbrs[k as int] == neighbor);
                        }
                        assert(is_walk_between(g, np, start, neighbor)) by {
                            assert forall|i: int| 0 <= i < np.len() implies g.contains_key(#[trigger] np[i]) by {
                                if i < p.len() {
                                    assert(g.contains_key(p[i]));
                                }
                            }
                            assert forall|i: int| 0 <= i < np.len() - 1 implies edge(g, #[trigger] np[i], np[i + 1]) by {
                                if i < p.len() - 1 {
                                    assert(edge(g, p[i], p[i + 1]));
                                }
                            }
                        }
                        assert(rs2.drop_last() =~= rs);
                        assert(int_sum(rs2) == cv.1 + s);
                        assert(path_scores(g, score_fn, np, rs2)) by {
                            assert forall|i: int| 0 <= i < rs2.len() implies call_ensures(score_fn, (&g[np[i]],), #[trigger] rs2[i]) by {
                                if i < rs.len() {
                                    assert(rs2[i] == rs[i]);
                                    assert(np[i] == p[i]);
                                }
                            }
                        }
                        if !walk_sums_fit(g, score_fn, start, searched_steps(w, d)) {
                            assert(s == scf(g[neighbor]));
                            lemma_expand_contains(g, scf, bv, j as int, k as int);
                            assert(expand(g, scf, beam_at(g, scf, w, c0, depth as nat)).contains((neighbor, cv.1 + scf(g[neighbor]), np)));
                        }
                        assert(i64::MIN <= cv.1 + s <= i64::MAX);
                    }
                    let new_score = candidate.score + s;
                    candidates.push(BeamCandidate { node_id: neighbor, score: new_score, path: new_path });
                    proof {
                        assert(candidates@.last().path@ == np);
                        let nc = cand_view(candidates@.last());
                        assert(cand_ok(g, score_fn, start, nc, (depth + 1) as nat));
                        assert forall|i: int|
                            0 <= i < candidates@.len() implies cand_ok(g, score_fn, start, cand_view(#[trigger] candidates@[i]), (depth + 1) as nat) by {
                            if i < cands1.len() {
                                assert(cands_view(candidates@)[i] == cands1[i]);
                            }
                        }
                        assert(nbrs.take(k + 1).drop_last() =~= nbrs.take(k as int));
                        assert(nbrs.take(k + 1).last() == neighbor);
                        assert(cands_view(candidates@) =~= cands1.push(nc));
                        assert forall|sc: spec_fn(StrategyNode) -> int| #[trigger] scores_by(g, score_fn, sc) implies cands_view(candidates@) == cands_before + expand_nbrs(g, sc, cv, nbrs.take(k + 1)) by {
                            assert(s == sc(g[neighbor]));
                        }
                    }
                } else {
                    proof {
                        assert(nbrs.take(k + 1).drop_last() =~= nbrs.take(k as int));
                        assert(nbrs.take(k + 1).last() == neighbor);
                    }
                }
            }
            proof {
                assert(nbrs.take(m as int) =~= nbrs);
                assert(bv.take(j + 1).drop_last() =~= bv.take(j as int));
                assert(bv.take(j + 1).last() == cv);
            }
        }
        proof {
            assert(bv.take(bl as int) =~= bv);
        }
        if candidates.len() == 0 {
            stop = true;
            proof {
                assert forall|sc: spec_fn(StrategyNode) -> int| #[trigger] scores_by(g, score_fn, sc) implies {
                    &&& beam_at(g, sc, w, c0, (depth + 1) as nat).len() == 0
                    &&& history(g, sc, w, c0, (depth + 1) as nat) == history(g, sc, w, c0, depth as nat)
                } by {
                    assert(sort_desc(expand(g, sc, bv)).len() == 0);
                    assert(beam_at(g, sc, w, c0, (depth + 1) as nat).len() == 0);
                    assert(history(g, sc, w, c0, (depth + 1) as nat) =~= history(g, sc, w, c0, depth as nat));
                }
            }
        } else {
            let ghost cands_all = cands_view(candidates@);
            let ghost cand_seq = candidates@;
            let mut sorted = sort_by_score_desc(candidates);
            sorted.truncate(beam_width);
            beam = sorted;
            proof {
                lemma_sort_desc_contains(cands_all);
                assert forall|i: int|
                    0 <= i < beam@.len() implies cand_ok(g, score_fn, start, cand_view(#[trigger] beam@[i]), (depth + 1) as nat) by {
                    let x = cands_view(beam@)[i];
                    assert(sort_desc(cands_all)[i] == x);
                    assert(sort_desc(cands_all).contains(x));
                    assert(cands_all.contains(x));
                    let l = choose|l: int| 0 <= l < cands_all.len() && cands_all[l] == x;
                    assert(cand_ok(g, score_fn, start, cand_view(cand_seq[l]), (depth + 1) as nat));
                }
                assert forall|sc: spec_fn(StrategyNode) -> int| #[trigger] scores_by(g, score_fn, sc) implies cands_view(beam@) == beam_at(g, sc, w, c0, (depth + 1) as nat) by {
                    assert(cands_view(beam@) =~= take_at_most(sort_desc(expand(g, sc, bv)), w));
                }
            }
            let ghost nb = cands_view(beam@);
            let nbl = beam.len();
            proof {
                assert forall|sc: spec_fn(StrategyNode) -> int| #[trigger] scores_by(g, score_fn, sc) implies history(g, sc, w, c0, depth as nat).len() > 0 && history(g, sc, w, c0, depth as nat) + nb.take(0) == history(g, sc, w, c0, depth as nat) by {
                    lemma_history_nonempty(g, sc, w, c0, depth as nat);
                    assert(history(g, sc, w, c0, depth as nat) + nb.take(0) =~= history(g, sc, w, c0, depth as nat));
                }
            }
            for jj in 0..nbl
                invariant
                    g == graph@,
                    w == beam_width as nat,
                    c0 == (start, s0 as int, seq![start]),
                    nbl == beam@.len(),
                    w == 0 ==> nbl == 0,
                    nb == cands_view(beam@),
                    depth < max_depth,
                    forall|i: int|
                        0 <= i < beam@.len() ==> cand_ok(g, score_fn, start, cand_view(#[trigger] beam@[i]), (depth + 1) as nat),
                    best@.len() > 0,
                    forall|i: int|
                        0 <= i < best@.len() ==> {
                            &&& is_walk_between(g, (#[trigger] best@[i]).path@, start, best@[i].node_id)
                            &&& best@[i].path@.len() <= depth + 2
                            &&& is_path_score(g, score_fn, best@[i].path@, best@[i].score as int)
                        },
                    forall|i: int| 0 <= i < best@.len() ==> (#[trigger] best@[i]).score == best@[0].score,
                    best@[0].score >= s0,
                    w == 0 ==> best@.len() == 1 && cand_view(best@[0]) == c0,
                    forall|sc: spec_fn(StrategyNode) -> int| #[trigger] scores_by(g, score_fn, sc) ==> {
                        &&& history(g, sc, w, c0, depth as nat).len() > 0
                        &&& cands_view(best@) == best_of(history(g, sc, w, c0, depth as nat) + nb.take(jj as int))
                        &&& best@[0].score == max_score(history(g, sc, w, c0, depth as nat) + nb.take(jj as int))
                    },
            {
                let c = &beam[jj];
                let top = best[0].score;
                proof {
                    assert forall|sc: spec_fn(StrategyNode) -> int| #[trigger] scores_by(g, score_fn, sc) implies {
                        let hs = history(g, sc, w, c0, depth as nat) + nb.take(jj as int);
                        &&& history(g, sc, w, c0, depth as nat) + nb.take(jj + 1) == hs.push(nb[jj as int])
                        &&& max_score(hs.push(nb[jj as int])) == if nb[jj as int].1 > max_score(hs) { nb[jj as int].1 } else { max_score(hs) }
                        &&& nb[jj as int].1 > max_score(hs) ==> best_of(hs.push(nb[jj as int])) == seq![nb[jj as int]]
                        &&& nb[jj as int].1 == max_score(hs) ==> best_of(hs.push(nb[jj as int])) == best_of(hs).push(nb[jj as int])
                        &&& nb[jj as int].1 < max_score(hs) ==> best_of(hs.push(nb[jj as int])) == best_of(hs)
                    } by {
                        let hs = history(g, sc, w, c0, depth as nat) + nb.take(jj as int);
                        assert((history(g, sc, w, c0, depth as nat) + nb.take(jj + 1)) =~= hs.push(nb[jj as int]));
                        lemma_best_of_push(hs, nb[jj as int]);
                    }
                    assert(cand_ok(g, score_fn, start, cand_view(beam@[jj as int]), (depth + 1) as nat));
                }
                if c.score > top {
                    let cc = copy_candidate(c);
                    best = Vec::new();
                    best.push(cc);
                    proof {
                        assert(cands_view(best@) =~= seq![nb[jj as int]]);
                    }
                } else if c.score == top {
                    let cc = copy_candidate(c);
                    let ghost old_best = best@;
                    best.push(cc);
                    proof {
                        assert forall|i: int|
                            0 <= i < best@.len() implies {
                                &&& is_walk_between(g, (#[trigger] best@[i]).path@, start, best@[i].node_id)
                                &&& best@[i].path@.len() <= depth + 2
                                &&& is_path_score(g, score_fn, best@[i].path@, best@[i].score as int)
                            } by {
                            if i < old_best.len() {
                                assert(best@[i] == old_best[i]);
                            }
                        }
                        assert forall|i: int| 0 <= i < best@.len() implies (#[trigger] best@[i]).score == best@[0].score by {
                            if i < old_best.len() {
                                assert(best@[i] == old_best[i]);
                            }
                        }
                        assert(cands_view(best@) =~= cands_view(old_best).push(nb[jj as int]));
                    }
                }
            }
            proof {
                assert(nb.take(nbl as int) =~= nb);
                assert forall|sc: spec_fn(StrategyNode) -> int| #[trigger] scores_by(g, score_fn, sc) implies history(g, sc, w, c0, (depth + 1) as nat) == history(g, sc, w, c0, depth as nat) + nb by {
                }
            }
        }
        depth = depth + 1;
    }
    proof {
        assert forall|sc: spec_fn(StrategyNode) -> int| #[trigger] scores_by(g, score_fn, sc) implies cands_view(best@) == beam_search_spec(g, sc, start, w, d) by {
            if stop {
                lemma_beam_empty_stays(g, sc, w, c0, depth as nat, d);
            }
        }
        assert(forall|i: int| 0 <= i < best@.len() ==> #[trigger] best@[i].score >= s0);
    }
    best
}
} // verus!
