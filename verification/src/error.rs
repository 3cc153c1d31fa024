//! Structural failures of lowering. None is recoverable by retrying.

use vstd::prelude::*;
use crate::index::{Binding, Label};

verus! {

/// A shape of the input that is not lowered.
#[derive(Debug, Clone, Copy, PartialEq, Eq, Structural)]
pub enum Construct {
    /// An additive combination bound by an assignment.
    AssignedAdd,
    /// A call bound by an assignment.
    AssignedCall,
}

#[derive(Debug, Clone, PartialEq, Eq)]
pub enum LoweringError {
    /// A value refers to an identifier that no earlier statement bound.
    UnresolvedAlias(Binding),
    UnsupportedConstruct(Construct),
    /// The listed blocks, in increasing order, have no result count.
    CyclicCallGraph(Vec<Label>),
    /// The two arms of the block's conditional branch yield different counts.
    ConditionalArityMismatch { block: Label, count_if_true: usize, count_if_false: usize },
}

} // verus!
