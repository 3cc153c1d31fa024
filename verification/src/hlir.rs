//! The block-structured input: named bindings, assignments and one terminator per block.

use vstd::prelude::*;
use crate::index::{Binding, Label};

verus! {

/// A value reference.
#[derive(Debug, Clone, Copy, PartialEq, Eq, Structural)]
pub enum Pure {
    Binding(Binding),
    Label(Label),
    Constant(u64),
}

/// A target of an assignment: the identifier bound, and which of the value's
/// results it takes.
#[derive(Debug, Clone, Copy, PartialEq, Eq, Structural)]
pub struct AssignedBinding {
    pub binding: Binding,
    pub assign_index: usize,
}

#[derive(Debug, Clone, PartialEq, Eq)]
pub enum Value {
    Copied(Vec<Pure>),
    Add { lhs: Pure, rest: Vec<Pure> },
    Call { label: Label, params: Vec<Pure> },
}

#[derive(Debug, Clone, PartialEq, Eq)]
pub struct Assignment {
    pub used_bindings: Vec<AssignedBinding>,
    pub value: Value,
}

#[derive(Debug, Clone, PartialEq, Eq)]
pub enum End {
    TailValue(Value),
    ConditionalBranch { condition: Pure, label_if_true: Label, label_if_false: Label },
    BlockIsEmpty,
}

#[derive(Debug, Clone, PartialEq, Eq)]
pub struct Block {
    /// The identifiers of the block's parameters, in order.
    pub gets: Vec<Binding>,
    pub assigns: Vec<Assignment>,
    pub end: End,
}

} // verus!
