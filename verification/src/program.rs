//! The stages in their fixed order: the result counts of the whole program
//! first, then every block by itself, then the control-flow maps.

use vstd::prelude::*;
use crate::block::Block;
use crate::cfg::IR;
use crate::error::LoweringError;
use crate::hlir;
use crate::lowering::lower_block;
use crate::model::{lowered, BlockModel};
use crate::solver::{
    compute_return_counts, is_solution, lemma_resolved_targets_exist, none_empty, return_count,
};

verus! {

/// Every block of the program has a result count.
pub open spec fn all_resolved(blocks: Seq<hlir::Block>) -> bool {
    forall|i: int| 0 <= i < blocks.len() ==> (#[trigger] return_count(blocks, i)) is Some
}

/// The result counts of a program in which every block has one.
pub open spec fn count_table(blocks: Seq<hlir::Block>) -> Seq<usize> {
    Seq::new(blocks.len(), |i: int| return_count(blocks, i).unwrap() as usize)
}

/// Block `i` is the first that fails to lower, and it fails with `e`.
pub open spec fn first_failure(blocks: Seq<hlir::Block>, i: int, e: LoweringError) -> bool {
    &&& 0 <= i < blocks.len()
    &&& lowered(blocks[i], count_table(blocks)) == Err::<BlockModel, LoweringError>(e)
    &&& forall|j: int| 0 <= j < i ==> (#[trigger] lowered(blocks[j], count_table(blocks))) is Ok
}

/// Lowers a whole program. It fails as the solving of the result counts
/// fails, or else as the first block that cannot be lowered fails. Otherwise
/// every block is lowered with the program's result counts, in order, and the
/// two control-flow maps are exact.
pub fn lower_program(blocks: &Vec<hlir::Block>) -> (r: Result<IR, LoweringError>)
    requires
        none_empty(blocks@),
    ensures
        match r {
            Ok(ir) => {
                &&& all_resolved(blocks@)
                &&& ir.blocks@.len() == blocks@.len()
                &&& forall|i: int|
                    0 <= i < blocks@.len() ==> lowered(blocks@[i], count_table(blocks@)) == Ok::<
                        BlockModel,
                        LoweringError,
                    >((#[trigger] ir.blocks@[i])@) && ir.blocks@[i]@.wf()
                &&& ir.forwards_exact()
                &&& ir.backwards_exact()
                &&& forall|l: usize, p: usize| ir.has_predecessor(l, p) <==> ir.has_successor(p, l)
            },
            Err(e) => is_solution(blocks@, Err::<Vec<usize>, LoweringError>(e)) || (all_resolved(
                blocks@,
            ) && exists|i: int| first_failure(blocks@, i, e)),
        },
{
    let counts: Vec<usize> = match compute_return_counts(blocks) {
        Ok(counts) => counts,
        Err(e) => {
            return Err(e);
        },
    };
    proof {
        assert forall|i: int| 0 <= i < blocks@.len() implies (#[trigger] return_count(
            blocks@,
            i,
        )) is Some by {
            assert(return_count(blocks@, i) == Some(counts@[i] as nat));
        }
        assert(counts@ =~= count_table(blocks@));
    }
    let mut done: Vec<Block> = Vec::new();
    let mut i: usize = 0;
    while i < blocks.len()
        invariant
            i <= blocks.len(),
            none_empty(blocks@),
            all_resolved(blocks@),
            counts@ == count_table(blocks@),
            done@.len() == i,
            forall|j: int|
                0 <= j < i ==> lowered(blocks@[j], count_table(blocks@)) == Ok::<
                    BlockModel,
                    LoweringError,
                >((#[trigger] done@[j])@) && done@[j]@.wf(),
        decreases blocks.len() - i,
    {
        proof {
            assert(return_count(blocks@, i as int) is Some);
            lemma_resolved_targets_exist(blocks@, i as int);
        }
        match lower_block(&blocks[i], &counts) {
            Ok(block) => {
                done.push(block);
            },
            Err(e) => {
                proof {
                    assert forall|j: int| 0 <= j < i implies (#[trigger] lowered(
                        blocks@[j],
                        count_table(blocks@),
                    )) is Ok by {
                        assert(done@[j]@.wf());
                    }
                    assert(first_failure(blocks@, i as int, e));
                }
                return Err(e);
            },
        }
        i += 1;
    }
    Ok(IR::from_blocks(done))
}

} // verus!
