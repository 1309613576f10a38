//! The graph, its traversals and dominators, and the theory behind them.

pub mod dfs;
pub mod disjointset;
pub mod domtree;
pub mod forest;
pub mod graph;
pub mod paths;
pub mod postorder;
pub mod semidom;
