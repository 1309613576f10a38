//! The routine model the structurizer reads: basic blocks in a flow graph.
//! What a statement or a condition says is no concern of this crate.

use crate::util::graph::Graph;
use vstd::prelude::*;

verus! {

/// An expression of the intermediate representation; opaque here.
#[derive(Debug, Clone, PartialEq, Eq)]
pub struct PDExpression {}

/// The kinds of statement a basic block holds.
#[derive(Debug, Clone, Copy, PartialEq, Eq)]
pub enum PDStatement {
    Assignment,
    Call,
    Intrinsic,
    FlowTransfer,
}

/// A straight run of statements, followed by a transfer of control that
/// branches on `transfer_cond` if there is one.
#[derive(Debug, Clone, PartialEq, Eq)]
pub struct BasicBlock {
    pub statements: Vec<PDStatement>,
    pub transfer_cond: Option<PDExpression>,
}

/// A routine: its basic blocks, joined by the edges control can take. The
/// root of the graph leads to the entry blocks, and the blocks that leave the
/// routine lead to the terminator.
pub struct PDRoutine {
    pub blocks: Graph<BasicBlock>,
}

} // verus!
