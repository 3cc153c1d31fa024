//! Dense, zero-based identifiers.

use vstd::prelude::*;

verus! {

/// Identifier of a value inside one block: an index into the block's binding arrays.
#[derive(Clone, Copy, Debug, PartialEq, Eq, Structural, Hash)]
pub struct Binding(pub usize);

/// Identifier of a block: an index into the program's block list.
#[derive(Clone, Copy, Debug, PartialEq, Eq, Structural, Hash)]
pub struct Label(pub usize);

impl Binding {
    pub fn from_index(index: usize) -> (binding: Self)
        ensures
            binding.0 == index,
    {
        Binding(index)
    }

    pub fn to_index(self) -> (index: usize)
        ensures
            index == self.0,
    {
        self.0
    }
}

impl Label {
    pub fn from_index(index: usize) -> (label: Self)
        ensures
            label.0 == index,
    {
        Label(index)
    }

    pub fn to_index(self) -> (index: usize)
        ensures
            index == self.0,
    {
        self.0
    }
}

} // verus!
