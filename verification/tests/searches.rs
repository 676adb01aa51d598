use lib::{
    astar, beam_search, bfs, binary_search_first_nonneg, binary_threshold_search, dfs,
    is_connected, shortest_path, StrategyGraph, StrategyNode, Ternary, TernaryExt,
};

/// 0 - 1 - 2 - 3, with signals +, 0, -, ++.
fn linear() -> StrategyGraph {
    let mut g = StrategyGraph::new();
    let n0 = g.add_node(vec![Ternary::Positive]);
    let n1 = g.add_node(vec![Ternary::Neutral]);
    let n2 = g.add_node(vec![Ternary::Negative]);
    let n3 = g.add_node(vec![Ternary::Positive, Ternary::Positive]);
    g.add_edge(n0, n1);
    g.add_edge(n1, n2);
    g.add_edge(n2, n3);
    g
}

/// 0 - 1, 0 - 2, 1 - 3, 2 - 3, 3 - 4: two shortest routes from 0 to 3.
fn diamond() -> StrategyGraph {
    let mut g = StrategyGraph::new();
    for _ in 0..5 {
        g.add_node(vec![Ternary::Neutral]);
    }
    g.add_edge(0, 1);
    g.add_edge(0, 2);
    g.add_edge(1, 3);
    g.add_edge(2, 3);
    g.add_edge(3, 4);
    g
}

#[test]
fn ternary_values_and_fitness() {
    assert_eq!(Ternary::Positive.value(), 1);
    let empty = StrategyNode::new(7);
    assert_eq!(empty.id, 7);
    assert_eq!(empty.fitness(), 0);
    let n = StrategyNode::with_signals(1, vec![Ternary::Negative, Ternary::Negative, Ternary::Neutral]);
    assert_eq!(n.fitness(), -2);
}

#[test]
fn add_neighbor_is_idempotent() {
    let mut n = StrategyNode::new(0);
    n.add_neighbor(3);
    n.add_neighbor(5);
    n.add_neighbor(3);
    assert_eq!(n.neighbors, vec![3, 5]);
}

#[test]
fn add_node_hands_out_consecutive_ids() {
    let mut g = StrategyGraph::default();
    assert_eq!(g.node_count(), 0);
    assert_eq!(g.add_node(vec![]), 0);
    assert_eq!(g.add_node(vec![Ternary::Positive]), 1);
    assert_eq!(g.add_node(vec![]), 2);
    assert_eq!(g.node_count(), 3);
    assert_eq!(g.get(1).unwrap().signals, vec![Ternary::Positive]);
    assert!(g.get(3).is_none());
    let ids: Vec<usize> = g.nodes().iter().map(|n| n.id).collect();
    assert_eq!(ids, vec![0, 1, 2]);
}

#[test]
fn add_edge_links_only_existing_sides() {
    let mut g = StrategyGraph::new();
    let a = g.add_node(vec![]);
    let b = g.add_node(vec![]);
    g.add_edge(a, b);
    g.add_edge(a, b);
    assert_eq!(g.get(a).unwrap().neighbors, vec![b]);
    assert_eq!(g.get(b).unwrap().neighbors, vec![a]);
    g.add_edge(a, 9);
    assert_eq!(g.get(a).unwrap().neighbors, vec![b, 9]);
    g.add_edge(a, a);
    assert_eq!(g.get(a).unwrap().neighbors, vec![b, 9, a]);
}

#[test]
fn bfs_distances_and_parents_on_diamond() {
    let g = diamond();
    let r = bfs(&g, 0);
    assert_eq!(r.visited, vec![0, 1, 2, 3, 4]);
    assert_eq!(r.distances[&3], 2);
    assert_eq!(r.distances[&4], 3);
    assert_eq!(r.parents[&0], None);
    assert_eq!(r.parents[&3], Some(1));
    assert_eq!(r.parents[&4], Some(3));
}

#[test]
fn bfs_skips_neighbors_that_are_not_nodes() {
    let mut g = StrategyGraph::new();
    let a = g.add_node(vec![]);
    g.add_edge(a, 42);
    let r = bfs(&g, a);
    assert_eq!(r.visited, vec![a]);
    assert!(!r.distances.contains_key(&42));
}

#[test]
fn dfs_orders_on_diamond() {
    let g = diamond();
    let r = dfs(&g, 0);
    assert_eq!(r.visited, r.discovery_order);
    assert_eq!(r.discovery_order, vec![0, 1, 3, 2, 4]);
    assert_eq!(r.finish_order, vec![2, 4, 3, 1, 0]);
    let missing = dfs(&g, 17);
    assert!(missing.visited.is_empty() && missing.finish_order.is_empty());
}

#[test]
fn bfs_and_dfs_visit_the_same_nodes() {
    let g = diamond();
    let mut b = bfs(&g, 2).visited;
    let mut d = dfs(&g, 2).visited;
    b.sort();
    d.sort();
    assert_eq!(b, d);
}

#[test]
fn shortest_path_edge_cases() {
    let g = diamond();
    assert_eq!(shortest_path(&g, 0, 4), Some(vec![0, 1, 3, 4]));
    assert_eq!(shortest_path(&g, 2, 2), Some(vec![2]));
    assert_eq!(shortest_path(&g, 9, 2), None);
    assert_eq!(shortest_path(&g, 2, 9), None);
}

#[test]
fn connectivity_is_symmetric_on_built_graphs() {
    let g = diamond();
    for a in 0..5 {
        for b in 0..5 {
            assert_eq!(is_connected(&g, a, b), is_connected(&g, b, a));
        }
    }
    let mut h = StrategyGraph::new();
    let x = h.add_node(vec![]);
    let y = h.add_node(vec![]);
    assert!(is_connected(&h, x, x));
    assert!(!is_connected(&h, x, y));
    assert!(!is_connected(&h, 5, 5));
}

#[test]
fn threshold_search_edges() {
    assert_eq!(binary_threshold_search(5, 5, |_| 0), 5);
    assert_eq!(binary_threshold_search(9, 3, |_| 0), 9);
    assert_eq!(binary_threshold_search(0, 10, |_| -1), 10);
    assert_eq!(binary_threshold_search(-20, 20, |x| x), 0);
    assert_eq!(binary_threshold_search(0, 100, |_| 0), 0);
}

#[test]
fn first_nonneg_edges() {
    assert_eq!(binary_search_first_nonneg(3, 2, |_| true), None);
    assert_eq!(binary_search_first_nonneg(4, 4, |_| true), Some(4));
    assert_eq!(binary_search_first_nonneg(-50, 50, |x| x >= -7), Some(-7));
    assert_eq!(binary_search_first_nonneg(0, 100, |x| x >= 100), Some(100));
    assert_eq!(binary_search_first_nonneg(i64::MIN, -1, |_| false), None);
    assert_eq!(binary_search_first_nonneg(i64::MAX - 3, i64::MAX, |_| true), Some(i64::MAX - 3));
}

#[test]
fn beam_search_exact_result() {
    let g = linear();
    let r = beam_search(&g, 0, 2, 3, |n| n.fitness());
    let got: Vec<(usize, i64, Vec<usize>)> = r.iter().map(|c| (c.node_id, c.score, c.path.clone())).collect();
    assert_eq!(
        got,
        vec![(0, 2, vec![0, 1, 0]), (1, 2, vec![0, 1, 0, 1]), (3, 2, vec![0, 1, 2, 3])]
    );
}

#[test]
fn beam_search_width_zero_and_depth_zero() {
    let g = linear();
    let r = beam_search(&g, 0, 0, 3, |n| n.fitness());
    assert_eq!(r.len(), 1);
    assert_eq!(r[0].path, vec![0]);
    assert_eq!(r[0].score, 1);
    let r = beam_search(&g, 3, 2, 0, |n| n.fitness());
    assert_eq!(r.len(), 1);
    assert_eq!(r[0].score, 2);
}

#[test]
fn astar_prefers_cheaper_longer_route() {
    let mut g = StrategyGraph::new();
    for _ in 0..3 {
        g.add_node(vec![]);
    }
    g.add_edge(0, 1);
    g.add_edge(1, 2);
    g.add_edge(0, 2);
    let cost = |a: usize, b: usize| if (a == 0 && b == 2) || (a == 2 && b == 0) { 10 } else { 1 };
    let r = astar(&g, 0, 2, |_| 0, cost).unwrap();
    assert_eq!(r.path, vec![0, 1, 2]);
    assert_eq!(r.cost, 2);
    assert_eq!(r.explored, 2);
}

#[test]
fn astar_edge_cases() {
    let g = linear();
    let r = astar(&g, 2, 2, |_| 0, |_, _| 1).unwrap();
    assert_eq!(r.path, vec![2]);
    assert_eq!(r.cost, 0);
    assert_eq!(r.explored, 0);
    assert!(astar(&g, 0, 8, |_| 0, |_, _| 1).is_none());
    assert!(astar(&g, 8, 0, |_| 0, |_, _| 1).is_none());
    let r = astar(&g, 0, 3, |_| 0, |_, _| 2).unwrap();
    assert_eq!(r.cost, 6);
    assert_eq!(r.explored, 3);
}

#[test]
fn readme_quick_start() {
    let mut g = StrategyGraph::new();
    let n0 = g.add_node(vec![Ternary::Positive]);
    let n1 = g.add_node(vec![Ternary::Neutral]);
    let n2 = g.add_node(vec![Ternary::Negative, Ternary::Positive]);
    g.add_edge(n0, n1);
    g.add_edge(n1, n2);
    let result = bfs(&g, n0);
    assert_eq!(result.distances[&n2], 2);
    let result = astar(&g, n0, n2, |_| 0, |_, _| 1).unwrap();
    assert_eq!(result.path, vec![n0, n1, n2]);
}

#[test]
fn shortest_path_length_matches_bfs_distance() {
    let g = diamond();
    let r = bfs(&g, 0);
    for goal in 0..5 {
        let p = shortest_path(&g, 0, goal).unwrap();
        assert_eq!(p.len(), r.distances[&goal] + 1);
        assert_eq!(p[0], 0);
        assert_eq!(*p.last().unwrap(), goal);
    }
}

#[test]
fn astar_reopens_nodes_under_an_admissible_heuristic() {
    // S=0, A=1, B=2, G=3; S-A 1, A-B 1, S-B 3, B-G 3. The estimate 4 at A never
    // overestimates the remaining cost, but it drops by more than the edge A-B,
    // so B is first closed at cost 3 and reopened at cost 2.
    let mut g = StrategyGraph::new();
    for _ in 0..4 {
        g.add_node(vec![]);
    }
    g.add_edge(0, 1);
    g.add_edge(1, 2);
    g.add_edge(0, 2);
    g.add_edge(2, 3);
    let cost = |a: usize, b: usize| {
        let (x, y) = if a < b { (a, b) } else { (b, a) };
        match (x, y) {
            (0, 1) => 1,
            (1, 2) => 1,
            (0, 2) => 3,
            _ => 3,
        }
    };
    let h = |v: usize| if v == 1 { 4 } else { 0 };
    let r = astar(&g, 0, 3, h, cost).unwrap();
    assert_eq!(r.path, vec![0, 1, 2, 3]);
    assert_eq!(r.cost, 5);
    assert_eq!(r.explored, 4);
    let consistent = astar(&g, 0, 3, |_| 0, cost).unwrap();
    assert_eq!(consistent.cost, 5);
    assert_eq!(consistent.path, vec![0, 1, 2, 3]);
}

#[test]
fn astar_with_large_costs() {
    let mut g = StrategyGraph::new();
    for _ in 0..2 {
        g.add_node(vec![]);
    }
    g.add_edge(0, 1);
    let r = astar(&g, 0, 1, |_| 0, |_, _| 1i64 << 61).unwrap();
    assert_eq!(r.path, vec![0, 1]);
    assert_eq!(r.cost, 1i64 << 61);
    let r = astar(&g, 0, 0, |_| i64::MAX, |_, _| 1).unwrap();
    assert_eq!(r.cost, 0);
    assert_eq!(r.explored, 0);
}

#[test]
fn beam_search_with_a_large_depth_on_an_isolated_node() {
    let mut g = StrategyGraph::new();
    g.add_node(vec![Ternary::Positive]);
    let r = beam_search(&g, 0, 3, usize::MAX, |_| i64::MAX);
    assert_eq!(r.len(), 1);
    assert_eq!(r[0].score, i64::MAX);
    assert_eq!(r[0].path, vec![0]);
}

#[test]
fn a_cloned_graph_grows_on_its_own() {
    let g = linear();
    let mut h = g.clone();
    let id = h.add_node(vec![Ternary::Neutral]);
    h.add_edge(3, id);
    assert_eq!(id, 4);
    assert_eq!(h.node_count(), 5);
    assert_eq!(g.node_count(), 4);
    assert!(is_connected(&h, 0, 4));
    assert!(!is_connected(&g, 0, 4));
}

#[test]
fn dfs_finishes_a_subtree_before_the_next_sibling_starts() {
    let mut g = StrategyGraph::new();
    for _ in 0..5 {
        g.add_node(vec![]);
    }
    g.add_edge(0, 1);
    g.add_edge(1, 2);
    g.add_edge(0, 3);
    g.add_edge(3, 4);
    let r = dfs(&g, 0);
    assert_eq!(r.discovery_order, vec![0, 1, 2, 3, 4]);
    assert_eq!(r.finish_order, vec![2, 1, 4, 3, 0]);
}

#[test]
fn astar_with_a_constant_heuristic_is_optimal_and_expands_each_node_once() {
    let mut g = StrategyGraph::new();
    for _ in 0..3 {
        g.add_node(vec![]);
    }
    g.add_edge(0, 2);
    g.add_edge(0, 1);
    g.add_edge(1, 2);
    let cost = |a: usize, b: usize| if a + b == 2 { 10 } else { 1 };
    let r = astar(&g, 0, 2, |_| 5, cost).unwrap();
    assert_eq!(r.path, vec![0, 1, 2]);
    assert_eq!(r.cost, 2);
    assert_eq!(r.explored, 2);
    assert!(r.explored <= g.node_count());
}

#[test]
fn bisection_on_an_evaluation_that_is_not_monotone() {
    let ev = |x: i64| if x == 3 || x >= 6 { 0 } else { -1 };
    assert_eq!(binary_threshold_search(0, 8, ev), 6);
    assert_eq!(binary_search_first_nonneg(0, 8, |x| x == 3 || x >= 6), Some(6));
}

#[test]
fn first_nonneg_agrees_with_threshold_on_monotone_predicates() {
    for t in -5i64..=5 {
        let p = move |x: i64| x >= t;
        let found = binary_search_first_nonneg(-5, 5, p);
        let crossing = binary_threshold_search(-5, 5, move |x| if p(x) { 0 } else { -1 });
        assert_eq!(found, Some(crossing));
    }
}

#[test]
fn the_older_name_of_ternary_still_works() {
    let t: lib::TernaryDeprecated = Ternary::Positive;
    assert_eq!(t.value(), 1);
}
