//! Recovery of structured control flow from a flow graph.

pub mod regions;
pub mod structurizer;
