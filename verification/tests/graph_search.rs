use lib::{
    astar, beam_search, bfs, binary_search_first_nonneg, binary_threshold_search, dfs,
    is_connected, shortest_path, StrategyGraph, StrategyNode, Ternary, TernaryExt,
};

fn make_linear_graph() -> StrategyGraph {
    let mut g = StrategyGraph::new();
    let n0 = g.add_node(vec![Ternary::Positive]);
    let n1 = g.add_node(vec![Ternary::Neutral]);
    let n2 = g.add_node(vec![Ternary::Negative]);
    let n3 = g.add_node(vec![Ternary::Positive, Ternary::Positive]);
    g.add_edge(n0, n1);
    g.add_edge(n1, n2);
    g.add_edge(n2, n3);
    g
}

#[test]
fn test_graph_construction() {
    let g = make_linear_graph();
    assert_eq!(g.node_count(), 4);
}

#[test]
fn test_node_fitness() {
    let node = StrategyNode::with_signals(0, vec![Ternary::Positive, Ternary::Negative, Ternary::Positive]);
    assert_eq!(node.fitness(), 1);
}

#[test]
fn test_bfs_linear() {
    let g = make_linear_graph();
    let result = bfs(&g, 0);
    assert_eq!(result.visited, vec![0, 1, 2, 3]);
    assert_eq!(result.distances[&0], 0);
    assert_eq!(result.distances[&1], 1);
    assert_eq!(result.distances[&3], 3);
}

#[test]
fn test_bfs_missing_node() {
    let g = make_linear_graph();
    let result = bfs(&g, 99);
    assert!(result.visited.is_empty());
}

#[test]
fn test_dfs_linear() {
    let g = make_linear_graph();
    let result = dfs(&g, 0);
    assert_eq!(result.visited, vec![0, 1, 2, 3]);
    assert_eq!(result.finish_order.last(), Some(&0)); // starts first, finishes last
}

#[test]
fn test_shortest_path() {
    let g = make_linear_graph();
    let path = shortest_path(&g, 0, 3).unwrap();
    assert_eq!(path, vec![0, 1, 2, 3]);
}

#[test]
fn test_shortest_path_unreachable() {
    let mut g = StrategyGraph::new();
    let a = g.add_node(vec![Ternary::Positive]);
    let b = g.add_node(vec![Ternary::Negative]);
    // no edge
    assert!(shortest_path(&g, a, b).is_none());
}

#[test]
fn test_is_connected() {
    let g = make_linear_graph();
    assert!(is_connected(&g, 0, 3));
    assert!(is_connected(&g, 3, 0));
}

#[test]
fn test_binary_threshold_search() {
    let result = binary_threshold_search(0, 100, |x| if x >= 42 { 0 } else { -1 });
    assert_eq!(result, 42);
}

#[test]
fn test_binary_search_first_nonneg() {
    let result = binary_search_first_nonneg(0, 100, |x| x >= 50);
    assert_eq!(result, Some(50));
}

#[test]
fn test_binary_search_first_nonneg_none() {
    let result = binary_search_first_nonneg(0, 100, |_| false);
    assert_eq!(result, None);
}

#[test]
fn test_beam_search() {
    let g = make_linear_graph();
    let results = beam_search(&g, 0, 2, 3, |n| n.fitness());
    assert!(!results.is_empty());
    assert!(results[0].path.contains(&0));
}

#[test]
fn test_beam_search_empty() {
    let g = StrategyGraph::new();
    let results = beam_search(&g, 0, 2, 3, |n| n.fitness());
    assert!(results.is_empty());
}

#[test]
fn test_astar() {
    let g = make_linear_graph();
    let result = astar(&g, 0, 3, |_| 0, |_, _| 1).unwrap();
    assert_eq!(result.path, vec![0, 1, 2, 3]);
    assert_eq!(result.cost, 3);
}

#[test]
fn test_astar_no_path() {
    let mut g = StrategyGraph::new();
    let a = g.add_node(vec![Ternary::Positive]);
    let b = g.add_node(vec![Ternary::Negative]);
    let result = astar(&g, a, b, |_| 0, |_, _| 1);
    assert!(result.is_none());
}

#[test]
fn test_astar_with_heuristic() {
    let g = make_linear_graph();
    let result = astar(&g, 0, 3, |n| (3 - n) as i64, |_, _| 1).unwrap();
    assert_eq!(result.path, vec![0, 1, 2, 3]);
}

#[test]
fn test_ternary_value() {
    assert_eq!(Ternary::Positive.value(), 1);
    assert_eq!(Ternary::Negative.value(), -1);
    assert_eq!(Ternary::Neutral.value(), 0);
}

#[test]
fn test_graph_add_node_returns_ids() {
    let mut g = StrategyGraph::new();
    let a = g.add_node(vec![]);
    let b = g.add_node(vec![]);
    assert_ne!(a, b);
}

#[test]
fn test_cyclic_graph_bfs() {
    let mut g = StrategyGraph::new();
    let a = g.add_node(vec![Ternary::Positive]);
    let b = g.add_node(vec![Ternary::Negative]);
    let c = g.add_node(vec![Ternary::Neutral]);
    g.add_edge(a, b);
    g.add_edge(b, c);
    g.add_edge(c, a);
    let result = bfs(&g, a);
    assert_eq!(result.visited.len(), 3);
}
