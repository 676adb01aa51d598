# ternary-search (verified)

Search algorithms over graphs of ternary strategy nodes — binary threshold
search, breadth-first and depth-first search, shortest paths, connectivity,
beam search and A* — written in Verus, with every function of the library
proved against its contract.

## Layout

- `src/ternary.rs` — the `Ternary` signal and its numeric value.
- `src/graph.rs` — `StrategyNode`, `StrategyGraph` (its view is the map from
  node ids to nodes), and the well-formedness type invariant that every graph
  keeps.
- `src/paths.rs` — the mathematical model: edges, walks, reachability in a
  given number of steps, shortest distances.
- `src/threshold.rs` — the two binary searches, exact for every evaluation
  that gives fixed values (the bisection they perform), and giving the least
  crossover point when the evaluation is monotone.
- `src/bfs.rs` — breadth-first search (reachable set, shortest distances,
  parents, the exact visiting order), shortest paths and connectivity.
- `src/dfs.rs` — depth-first search (reachable set, discovery and finish
  orders, the node each node was discovered from, and the nesting of
  subtrees in the finish order).
- `src/beam.rs` — beam search with a model of its rounds; exact when the
  score function gives fixed scores on the graph's nodes.
- `src/astar.rs` — A* with reopening (finds a path exactly when one exists,
  short of costs that reach `i64::MAX`; the path's cost is the least of any
  walk when edge costs are fixed and non-negative and the heuristic is
  admissible; with a consistent heuristic no node is expanded twice).
- `src/laws.rs` — properties that relate the searches to one another.
- `tests/` — scenarios for every search, and edge cases.

## Verification

Every function in `src/` is verified by Verus; the tests under `tests/` exercise the compiled library.
