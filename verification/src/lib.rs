//! Control-flow recovery: an indexed directed graph with depth-first
//! traversal, immediate dominators, and a region-based structurizer.

pub mod analysis;
pub mod ir;
pub mod util;
