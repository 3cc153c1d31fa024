//! How a binding is defined and where it is used.
//!
//! A bucket is the physical place a binding may occupy. Buckets are never
//! represented; only the records that let an allocator reason about them are.

use vstd::prelude::*;

verus! {

#[derive(Debug, Clone, Copy, PartialEq, Eq, Structural)]
pub enum UsageKind {
    /// The binding must hold its place alone for the statement that uses it.
    Exclusive,
    /// The binding shares a place with alternatives of which only one exists.
    Selective { selection_bucket: u8 },
}

#[derive(Debug, Clone, Copy, PartialEq, Eq, Structural)]
pub enum UsageIndex {
    /// Used by the operation at this index.
    Op(usize),
    /// Used by the block's terminator.
    BlockEnd,
}

impl UsageIndex {
    pub fn as_index(self) -> (index: Option<usize>)
        ensures
            index == match self {
                UsageIndex::Op(i) => Some(i),
                UsageIndex::BlockEnd => None::<usize>,
            },
    {
        match self {
            UsageIndex::Op(index) => Some(index),
            UsageIndex::BlockEnd => None,
        }
    }
}

/// One place where a binding's value must still be available.
#[derive(Debug, Clone, Copy, PartialEq, Eq, Structural)]
pub struct Usage {
    pub usage_kind: UsageKind,
    pub index: UsageIndex,
}

/// How a binding comes to exist.
#[derive(Debug, Clone, Copy, PartialEq, Eq, Structural)]
pub enum Definition {
    /// The block's parameter at this position.
    Argument(usize),
    /// The result of the operation at this index.
    Op(usize),
}

} // verus!
