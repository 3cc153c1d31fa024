//! The per-block containers: operations, terminator and binding storage.

use vstd::prelude::*;
use std::collections::HashMap;
use crate::bucket::{Definition, Usage};
use crate::hlir::Pure;
use crate::index::{Binding, Label};

verus! {

/// A contiguous span of bindings, such as the results of one call. It is only
/// made while a block is lowered, from bindings that the block holds.
#[derive(Debug, Clone, PartialEq, Eq)]
pub struct BindingRange {
    start: usize,
    end: usize,
}

impl BindingRange {
    /// The first binding of the span.
    pub closed spec fn start(&self) -> usize {
        self.start
    }

    /// The binding after the last of the span.
    pub closed spec fn end(&self) -> usize {
        self.end
    }

    /// The bindings that are left in the span, in order.
    pub open spec fn view(&self) -> Seq<Binding> {
        Seq::new(
            if self.start() <= self.end() {
                (self.end() - self.start()) as nat
            } else {
                0
            },
            |i: int| Binding((self.start() + i) as usize),
        )
    }

    pub(crate) fn between(start: usize, end: usize) -> (range: Self)
        requires
            start <= end,
        ensures
            range.start() == start,
            range.end() == end,
    {
        BindingRange { start, end }
    }

    /// The span that holds `binding` alone.
    pub fn single(binding: Binding) -> (range: Self)
        requires
            binding.0 < usize::MAX,
        ensures
            range@ == seq![binding],
            range.start() == binding.0,
            range.end() == binding.0 + 1,
    {
        let range = BindingRange { start: binding.0, end: binding.0 + 1 };
        assert(range@ =~= seq![binding]);
        range
    }

    pub fn first_index(&self) -> (index: usize)
        ensures
            index == self.start(),
    {
        self.start
    }

    pub fn end_index(&self) -> (index: usize)
        ensures
            index == self.end(),
    {
        self.end
    }

    /// How many bindings are left.
    pub fn len(&self) -> (n: usize)
        ensures
            n == self@.len(),
    {
        if self.start <= self.end {
            self.end - self.start
        } else {
            0
        }
    }

    /// The exact number of bindings left, as a lower and an upper bound.
    pub fn size_hint(&self) -> (hint: (usize, Option<usize>))
        ensures
            hint.0 == self@.len(),
            hint.1 == Some(hint.0),
    {
        let n: usize = self.len();
        (n, Some(n))
    }

    /// Takes the first binding off the span.
    pub fn next(&mut self) -> (item: Option<Binding>)
        ensures
            old(self)@.len() == 0 ==> item is None && final(self)@ == old(self)@,
            old(self)@.len() > 0 ==> item == Some(old(self)@[0]) && final(self)@ == old(self)@.skip(
                1,
            ),
    {
        if self.start < self.end {
            let binding = Binding(self.start);
            proof {
                assert(old(self)@[0] == binding);
            }
            self.start = self.start + 1;
            assert(self@ =~= old(self)@.skip(1));
            Some(binding)
        } else {
            assert(self@ =~= old(self)@);
            None
        }
    }

    /// The bindings left, in order.
    pub fn to_vec(&self) -> (bindings: Vec<Binding>)
        ensures
            bindings@ == self@,
    {
        let mut bindings: Vec<Binding> = Vec::new();
        let mut i: usize = self.start;
        while i < self.end
            invariant
                i >= self.start(),
                i <= self.end() || i == self.start(),
                bindings@.len() == i - self.start(),
                forall|j: int|
                    0 <= j < bindings@.len() ==> bindings@[j] == Binding((self.start() + j) as usize),
            decreases self.end() - i,
        {
            bindings.push(Binding(i));
            i += 1;
        }
        assert(bindings@ =~= self@);
        bindings
    }
}

/// Which results of a call are consumed, and by which bindings.
#[derive(Debug, Clone, PartialEq, Eq)]
pub struct CallReturnUsage {
    /// Positions in the callee's result list, one per consumed result.
    pub result_usage: Vec<usize>,
    /// The freshly allocated bindings that take the consumed results.
    pub result_binding_range: BindingRange,
    pub called_label: Label,
}

/// For each successor, the ordered bindings handed to its merge point. Keys
/// are labels, by index.
pub type ExportedBindings = HashMap<usize, Vec<Binding>>;

/// How control leaves a block.
#[derive(Debug, Clone, PartialEq, Eq)]
pub enum CFTransfer {
    /// Values go back to a caller that is not known statically.
    Return(Vec<Binding>),
    DirectBranch { target: Label, exported_bindings: ExportedBindings },
    ConditionalBranch {
        exported_bindings: ExportedBindings,
        condition_source: Binding,
        target_if_true: Label,
        target_if_false: Label,
    },
}

/// One candidate of a merge: the bindings taken when control comes from `block_from`.
#[derive(Debug, Clone, PartialEq, Eq)]
pub struct PhiSelector {
    pub used_bindings: Vec<Binding>,
    pub block_from: Label,
}

#[derive(Debug, Clone, Copy, PartialEq, Eq, Structural)]
pub enum Constant {
    Numeric(u64),
    Label(Label),
}

impl Constant {
    /// The constant that a value reference stands for, or the identifier that
    /// it refers to.
    pub fn try_from(value: Pure) -> (r: Result<Constant, Binding>)
        ensures
            r == match value {
                Pure::Binding(binding) => Err::<Constant, Binding>(binding),
                Pure::Label(label) => Ok(Constant::Label(label)),
                Pure::Constant(c) => Ok(Constant::Numeric(c)),
            },
    {
        match value {
            Pure::Binding(binding) => Err(binding),
            Pure::Label(label) => Ok(Constant::Label(label)),
            Pure::Constant(constant) => Ok(Constant::Numeric(constant)),
        }
    }
}

/// What the machine is to do. Which bindings an operation defines is kept in
/// the block's binding arrays, not here.
#[derive(Debug, Clone, PartialEq, Eq)]
pub enum Op {
    Constant(Constant),
    Phi(Vec<PhiSelector>),
    Call { label: Label, args: Vec<Binding>, usage_info_index: usize },
    Add { lhs: Binding, rhs: Binding },
}

#[derive(Debug, Clone, PartialEq, Eq)]
pub struct Block {
    /// The first `arg_count` bindings are the block's parameters.
    pub arg_count: usize,
    /// The definition of each binding, by index.
    pub binding_defs: Vec<Definition>,
    /// The usages of each binding, by index.
    pub binding_usages: Vec<Vec<Usage>>,
    pub call_return_usages: Vec<CallReturnUsage>,
    pub operations: Vec<Op>,
    pub end: CFTransfer,
}

} // verus!
