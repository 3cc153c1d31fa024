//! From a block of the input to a block of this representation.

use vstd::prelude::*;
use std::collections::HashMap;
use crate::block::{Block, CFTransfer};
use crate::builder::BlockBuilder;
use crate::error::{Construct, LoweringError};
use crate::hlir::{Assignment, End, Value};
use crate::index::Binding;
use crate::model::{lowered, AssignedUsage, BlockModel, BuilderModel};

verus! {

broadcast use vstd::std_specs::hash::group_hash_axioms;

/// A list of assignments whose prefix fails fails in the same way.
pub proof fn lemma_assign_prefix_fails(m: BuilderModel, stmts: Seq<Assignment>, k: int)
    requires
        0 <= k <= stmts.len(),
        m.assign_all(stmts.take(k)) is Err,
    ensures
        m.assign_all(stmts) == m.assign_all(stmts.take(k)),
    decreases stmts.len() - k,
{
    if k == stmts.len() {
        assert(stmts.take(k) =~= stmts);
    } else {
        assert(stmts.take(k + 1).drop_last() =~= stmts.take(k));
        lemma_assign_prefix_fails(m, stmts, k + 1);
    }
}

impl BlockBuilder {
    /// Lowers one assignment.
    pub fn compile_assignment(&mut self, stmt: &Assignment) -> (r: Result<(), LoweringError>)
        requires
            old(self)@.wf(),
        ensures
            final(self)@.wf(),
            match r {
                Ok(_) => old(self)@.assign(*stmt) == Ok::<BuilderModel, LoweringError>(final(self)@),
                Err(e) => old(self)@.assign(*stmt) == Err::<BuilderModel, LoweringError>(e),
            },
    {
        match &stmt.value {
            Value::Copied(pures) => {
                let results: Vec<Binding> = match self.compile_copied(pures) {
                    Ok(results) => results,
                    Err(e) => {
                        return Err(e);
                    },
                };
                let ghost resolved = self@;
                let limit: usize = if stmt.used_bindings.len() <= results.len() {
                    stmt.used_bindings.len()
                } else {
                    results.len()
                };
                let mut i: usize = 0;
                while i < limit
                    invariant
                        i <= limit,
                        limit <= stmt.used_bindings.len(),
                        limit <= results.len(),
                        self@.wf(),
                        self@.defs == resolved.defs,
                        forall|j: int|
                            0 <= j < results@.len() ==> (#[trigger] results@[j]).0
                                < resolved.defs.len(),
                        self@ == resolved.alias_zip(stmt.used_bindings@, results@, i as int),
                    decreases limit - i,
                {
                    self.register_result(stmt.used_bindings[i].binding, results[i]);
                    i += 1;
                }
                Ok(())
            },
            Value::Add { .. } => Err(LoweringError::UnsupportedConstruct(Construct::AssignedAdd)),
            Value::Call { .. } => Err(LoweringError::UnsupportedConstruct(Construct::AssignedCall)),
        }
    }
}

/// Lowers one block of the input, which the caller keeps.
pub fn lower_block(hlir_block: &crate::hlir::Block, block_return_counts: &Vec<usize>) -> (r: Result<
    Block,
    LoweringError,
>)
    requires
        !(hlir_block.end is BlockIsEmpty),
        match hlir_block.end {
            End::TailValue(Value::Call { label, .. }) => label.0 < block_return_counts.len(),
            _ => true,
        },
    ensures
        match r {
            Ok(block) => lowered(*hlir_block, block_return_counts@) == Ok::<BlockModel, LoweringError>(
                block@,
            ) && block@.wf(),
            Err(e) => lowered(*hlir_block, block_return_counts@) == Err::<BlockModel, LoweringError>(
                e,
            ),
        },
{
    let mut builder = BlockBuilder::new(&hlir_block.gets);
    let ghost initial = builder@;
    let mut i: usize = 0;
    assert(hlir_block.assigns@.take(0) =~= Seq::<Assignment>::empty());
    while i < hlir_block.assigns.len()
        invariant
            i <= hlir_block.assigns.len(),
            builder@.wf(),
            initial == BuilderModel::initial(hlir_block.gets@),
            initial.assign_all(hlir_block.assigns@.take(i as int)) == Ok::<
                BuilderModel,
                LoweringError,
            >(builder@),
        decreases hlir_block.assigns.len() - i,
    {
        assert(hlir_block.assigns@.take(i + 1).drop_last() =~= hlir_block.assigns@.take(
            i as int,
        ));
        match builder.compile_assignment(&hlir_block.assigns[i]) {
            Ok(_) => {},
            Err(e) => {
                proof {
                    lemma_assign_prefix_fails(initial, hlir_block.assigns@, i + 1);
                }
                return Err(e);
            },
        }
        i += 1;
    }
    assert(hlir_block.assigns@.take(i as int) =~= hlir_block.assigns@);
    let end = match &hlir_block.end {
        End::TailValue(value) => match value {
            Value::Copied(pures) => match builder.compile_copied(pures) {
                Ok(results) => CFTransfer::Return(results),
                Err(e) => {
                    return Err(e);
                },
            },
            Value::Add { lhs, rest } => match builder.compile_add(*lhs, rest) {
                Ok(sum) => {
                    let mut results: Vec<Binding> = Vec::new();
                    results.push(sum);
                    assert(results@ =~= seq![sum]);
                    CFTransfer::Return(results)
                },
                Err(e) => {
                    return Err(e);
                },
            },
            Value::Call { label, params } => match builder.compile_call(
                *label,
                params,
                AssignedUsage::All,
                block_return_counts[label.0],
            ) {
                Ok(range) => CFTransfer::Return(range.to_vec()),
                Err(e) => {
                    return Err(e);
                },
            },
        },
        End::ConditionalBranch { condition, label_if_true, label_if_false } => {
            match builder.compile_pure(*condition) {
                Ok(source) => {
                    let exported: HashMap<usize, Vec<Binding>> = HashMap::new();
                    let end = CFTransfer::ConditionalBranch {
                        exported_bindings: exported,
                        condition_source: source,
                        target_if_true: *label_if_true,
                        target_if_false: *label_if_false,
                    };
                    assert(end@->ConditionalBranch_exported_bindings =~= Map::<
                        usize,
                        Seq<Binding>,
                    >::empty());
                    end
                },
                Err(e) => {
                    return Err(e);
                },
            }
        },
        End::BlockIsEmpty => vstd::pervasive::unreached(),
    };
    Ok(builder.release(end))
}

impl Block {
    /// Lowers one block of the input. `block_return_counts` gives, for
    /// every block of the program, the number of results that it yields.
    pub fn from_hlir_block(hlir_block: crate::hlir::Block, block_return_counts: &Vec<usize>) -> (r:
        Result<Block, LoweringError>)
        requires
            !(hlir_block.end is BlockIsEmpty),
            match hlir_block.end {
                End::TailValue(Value::Call { label, .. }) => label.0 < block_return_counts.len(),
                _ => true,
            },
        ensures
            match r {
                Ok(block) => lowered(hlir_block, block_return_counts@) == Ok::<
                    BlockModel,
                    LoweringError,
                >(block@) && block@.wf(),
                Err(e) => lowered(hlir_block, block_return_counts@) == Err::<
                    BlockModel,
                    LoweringError,
                >(e),
            },
    {
        lower_block(&hlir_block, block_return_counts)
    }
}

} // verus!
