//! Search algorithms over ternary strategy spaces: binary threshold search,
//! breadth- and depth-first traversal of strategy graphs, beam search and A*.

pub mod astar;
pub mod beam;
pub mod bfs;
pub mod dfs;
pub mod graph;
pub mod laws;
pub mod paths;
pub mod ternary;
pub mod threshold;

pub use astar::{astar, AStarResult};
pub use beam::{beam_search, BeamCandidate};
pub use bfs::{bfs, is_connected, shortest_path, BfsResult};
pub use dfs::{dfs, DfsResult};
pub use graph::{StrategyGraph, StrategyNode};
pub use ternary::{Ternary, TernaryDeprecated, TernaryExt};
pub use threshold::{binary_search_first_nonneg, binary_threshold_search};
