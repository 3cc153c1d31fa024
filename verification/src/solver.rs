//! How many results each block yields.
//!
//! A block that ends in a list of values yields as many as the list holds; one
//! that ends in an additive combination yields one; one that ends in a tail call
//! yields what its target yields; one that ends in a conditional branch yields
//! what both arms yield, provided that they agree. The counts must be known
//! before any call site is lowered.

use vstd::prelude::*;
use crate::error::LoweringError;
use crate::hlir::{Block, End, Value};
use crate::index::Label;

verus! {

/// The count of block `i` as far as it can be derived in `fuel` steps along
/// tail calls and branches.
pub open spec fn count_within(blocks: Seq<Block>, i: int, fuel: nat) -> Option<nat>
    decreases fuel,
{
    if fuel == 0 || !(0 <= i < blocks.len()) {
        None
    } else {
        match blocks[i].end {
            End::TailValue(Value::Copied(pures)) => Some(pures@.len()),
            End::TailValue(Value::Add { .. }) => Some(1),
            End::TailValue(Value::Call { label, .. }) => count_within(
                blocks,
                label.0 as int,
                (fuel - 1) as nat,
            ),
            End::ConditionalBranch { label_if_true, label_if_false, .. } => {
                let t = count_within(blocks, label_if_true.0 as int, (fuel - 1) as nat);
                let f = count_within(blocks, label_if_false.0 as int, (fuel - 1) as nat);
                if t is Some && f is Some && t == f {
                    t
                } else {
                    None
                }
            },
            End::BlockIsEmpty => None,
        }
    }
}

/// The count of block `i`, or `None` where no finite derivation gives one.
pub open spec fn return_count(blocks: Seq<Block>, i: int) -> Option<nat> {
    if exists|fuel: nat| count_within(blocks, i, fuel) is Some {
        count_within(blocks, i, choose|fuel: nat| count_within(blocks, i, fuel) is Some)
    } else {
        None
    }
}

/// Block `i` ends in a conditional branch whose arms both have a count, and the
/// two counts differ.
pub open spec fn arity_mismatch_at(blocks: Seq<Block>, i: int) -> bool {
    &&& 0 <= i < blocks.len()
    &&& match blocks[i].end {
        End::ConditionalBranch { label_if_true, label_if_false, .. } => {
            let t = return_count(blocks, label_if_true.0 as int);
            let f = return_count(blocks, label_if_false.0 as int);
            t is Some && f is Some && t != f
        },
        _ => false,
    }
}

/// The blocks below `k` that have no count, in increasing order.
pub open spec fn unresolved_below(blocks: Seq<Block>, k: int) -> Seq<Label>
    decreases k,
{
    if k <= 0 {
        Seq::empty()
    } else if return_count(blocks, k - 1) is None {
        unresolved_below(blocks, k - 1).push(Label((k - 1) as usize))
    } else {
        unresolved_below(blocks, k - 1)
    }
}

/// No block is of the empty kind, which is pruned before lowering.
pub open spec fn none_empty(blocks: Seq<Block>) -> bool {
    forall|i: int| 0 <= i < blocks.len() ==> !(#[trigger] blocks[i].end is BlockIsEmpty)
}

/// What solving the program `blocks` must give. A mismatch is reported at the
/// first block that has one; failing that, the blocks without a count are
/// reported; failing that, every block has its count.
pub open spec fn is_solution(blocks: Seq<Block>, outcome: Result<Vec<usize>, LoweringError>) -> bool {
    match outcome {
        Ok(counts) => {
            &&& counts@.len() == blocks.len()
            &&& forall|i: int|
                0 <= i < blocks.len() ==> return_count(blocks, i) == Some(
                    #[trigger] counts@[i] as nat,
                )
        },
        Err(LoweringError::ConditionalArityMismatch { block, count_if_true, count_if_false }) => {
            &&& arity_mismatch_at(blocks, block.0 as int)
            &&& forall|j: int| 0 <= j < block.0 ==> !arity_mismatch_at(blocks, j)
            &&& match blocks[block.0 as int].end {
                End::ConditionalBranch { label_if_true, label_if_false, .. } => {
                    &&& return_count(blocks, label_if_true.0 as int) == Some(count_if_true as nat)
                    &&& return_count(blocks, label_if_false.0 as int) == Some(
                        count_if_false as nat,
                    )
                },
                _ => false,
            }
        },
        Err(LoweringError::CyclicCallGraph(unresolved)) => {
            &&& forall|j: int| 0 <= j < blocks.len() ==> !arity_mismatch_at(blocks, j)
            &&& unresolved@.len() > 0
            &&& unresolved@ == unresolved_below(blocks, blocks.len() as int)
        },
        Err(_) => false,
    }
}

/// Two outcomes are the same: equal counts, or the same failure with the same
/// blocks and counts.
pub open spec fn same_outcome(
    a: Result<Vec<usize>, LoweringError>,
    b: Result<Vec<usize>, LoweringError>,
) -> bool {
    match (a, b) {
        (Ok(x), Ok(y)) => x@ == y@,
        (
            Err(LoweringError::ConditionalArityMismatch { block: b1, count_if_true: t1, count_if_false: f1 }),
            Err(LoweringError::ConditionalArityMismatch { block: b2, count_if_true: t2, count_if_false: f2 }),
        ) => b1 == b2 && t1 == t2 && f1 == f2,
        (Err(LoweringError::CyclicCallGraph(x)), Err(LoweringError::CyclicCallGraph(y))) => x@
            == y@,
        _ => false,
    }
}

/// A count that is derived with some fuel is derived with any larger fuel.
pub proof fn lemma_count_stable(blocks: Seq<Block>, i: int, fuel: nat, more: nat)
    requires
        count_within(blocks, i, fuel) is Some,
        fuel <= more,
    ensures
        count_within(blocks, i, more) == count_within(blocks, i, fuel),
    decreases fuel,
{
    match blocks[i].end {
        End::TailValue(Value::Call { label, .. }) => {
            lemma_count_stable(blocks, label.0 as int, (fuel - 1) as nat, (more - 1) as nat);
        },
        End::ConditionalBranch { label_if_true, label_if_false, .. } => {
            lemma_count_stable(blocks, label_if_true.0 as int, (fuel - 1) as nat, (more - 1) as nat);
            lemma_count_stable(blocks, label_if_false.0 as int, (fuel - 1) as nat, (more - 1) as nat);
        },
        _ => {},
    }
}

/// A count that is derived with some fuel is the block's count.
pub proof fn lemma_count_from_fuel(blocks: Seq<Block>, i: int, fuel: nat)
    requires
        count_within(blocks, i, fuel) is Some,
    ensures
        return_count(blocks, i) == count_within(blocks, i, fuel),
{
    let chosen = choose|f: nat| count_within(blocks, i, f) is Some;
    if chosen <= fuel {
        lemma_count_stable(blocks, i, chosen, fuel);
    } else {
        lemma_count_stable(blocks, i, fuel, chosen);
    }
}

/// A block that has a count has it within some fuel.
pub proof fn lemma_fuel_for_count(blocks: Seq<Block>, i: int) -> (fuel: nat)
    requires
        return_count(blocks, i) is Some,
    ensures
        count_within(blocks, i, fuel) == return_count(blocks, i),
        fuel > 0,
        0 <= i < blocks.len(),
{
    choose|f: nat| count_within(blocks, i, f) is Some
}

/// The rule by which a block's count follows from its terminator and from the
/// counts of the blocks that the terminator names.
pub open spec fn count_rule(blocks: Seq<Block>, i: int) -> Option<nat> {
    match blocks[i].end {
        End::TailValue(Value::Copied(pures)) => Some(pures@.len()),
        End::TailValue(Value::Add { .. }) => Some(1),
        End::TailValue(Value::Call { label, .. }) => return_count(blocks, label.0 as int),
        End::ConditionalBranch { label_if_true, label_if_false, .. } => {
            let t = return_count(blocks, label_if_true.0 as int);
            let f = return_count(blocks, label_if_false.0 as int);
            if t is Some && f is Some && t == f {
                t
            } else {
                None
            }
        },
        End::BlockIsEmpty => None,
    }
}

/// The counts satisfy the rule at every block.
pub proof fn lemma_count_unfold(blocks: Seq<Block>, i: int)
    requires
        0 <= i < blocks.len(),
    ensures
        return_count(blocks, i) == count_rule(blocks, i),
{
    if return_count(blocks, i) is Some {
        let fuel = lemma_fuel_for_count(blocks, i);
        match blocks[i].end {
            End::TailValue(Value::Call { label, .. }) => {
                lemma_count_from_fuel(blocks, label.0 as int, (fuel - 1) as nat);
            },
            End::ConditionalBranch { label_if_true, label_if_false, .. } => {
                lemma_count_from_fuel(blocks, label_if_true.0 as int, (fuel - 1) as nat);
                lemma_count_from_fuel(blocks, label_if_false.0 as int, (fuel - 1) as nat);
            },
            _ => {},
        }
    } else if count_rule(blocks, i) is Some {
        match blocks[i].end {
            End::TailValue(Value::Call { label, .. }) => {
                let fuel = lemma_fuel_for_count(blocks, label.0 as int);
                assert(count_within(blocks, i, fuel + 1) is Some);
            },
            End::ConditionalBranch { label_if_true, label_if_false, .. } => {
                let ft = lemma_fuel_for_count(blocks, label_if_true.0 as int);
                let ff = lemma_fuel_for_count(blocks, label_if_false.0 as int);
                let fuel = if ft <= ff { ff } else { ft };
                lemma_count_stable(blocks, label_if_true.0 as int, ft, fuel);
                lemma_count_stable(blocks, label_if_false.0 as int, ff, fuel);
                assert(count_within(blocks, i, fuel + 1) is Some);
            },
            _ => {
                assert(count_within(blocks, i, 1) is Some);
            },
        }
    }
}

/// A block that has a count leads only to blocks that exist: the target of its
/// tail call, or both targets of its branch.
pub proof fn lemma_resolved_targets_exist(blocks: Seq<Block>, i: int)
    requires
        0 <= i < blocks.len(),
        return_count(blocks, i) is Some,
    ensures
        match blocks[i].end {
            End::TailValue(Value::Call { label, .. }) => label.0 < blocks.len(),
            End::ConditionalBranch { label_if_true, label_if_false, .. } => label_if_true.0
                < blocks.len() && label_if_false.0 < blocks.len(),
            _ => true,
        },
{
    lemma_count_unfold(blocks, i);
    match blocks[i].end {
        End::TailValue(Value::Call { label, .. }) => {
            let fuel = lemma_fuel_for_count(blocks, label.0 as int);
        },
        End::ConditionalBranch { label_if_true, label_if_false, .. } => {
            let ft = lemma_fuel_for_count(blocks, label_if_true.0 as int);
            let ff = lemma_fuel_for_count(blocks, label_if_false.0 as int);
        },
        _ => {},
    }
}

/// Solving is a function of the program alone: whatever two runs return, in
/// whatever order they visit the blocks, they return the same.
pub proof fn lemma_solution_unique(
    blocks: Seq<Block>,
    a: Result<Vec<usize>, LoweringError>,
    b: Result<Vec<usize>, LoweringError>,
)
    requires
        is_solution(blocks, a),
        is_solution(blocks, b),
    ensures
        same_outcome(a, b),
{
    match (a, b) {
        (Ok(x), Ok(y)) => {
            assert forall|i: int| 0 <= i < x@.len() implies x@[i] == y@[i] by {
                assert(return_count(blocks, i) == Some(x@[i] as nat));
                assert(return_count(blocks, i) == Some(y@[i] as nat));
            }
            assert(x@ =~= y@);
        },
        (Ok(x), Err(LoweringError::ConditionalArityMismatch { block, .. })) => {
            lemma_mismatch_is_unresolved(blocks, block.0 as int);
            assert(return_count(blocks, block.0 as int) == Some(x@[block.0 as int] as nat));
        },
        (Err(LoweringError::ConditionalArityMismatch { block, .. }), Ok(x)) => {
            lemma_mismatch_is_unresolved(blocks, block.0 as int);
            assert(return_count(blocks, block.0 as int) == Some(x@[block.0 as int] as nat));
        },
        (Ok(x), Err(LoweringError::CyclicCallGraph(u))) => {
            assert(x@.len() == x.len());
            lemma_unresolved_below(blocks, blocks.len() as int);
            let l = u@[0];
            assert(u@.contains(l));
            assert(return_count(blocks, l.0 as int) == Some(x@[l.0 as int] as nat));
        },
        (Err(LoweringError::CyclicCallGraph(u)), Ok(x)) => {
            assert(x@.len() == x.len());
            lemma_unresolved_below(blocks, blocks.len() as int);
            let l = u@[0];
            assert(u@.contains(l));
            assert(return_count(blocks, l.0 as int) == Some(x@[l.0 as int] as nat));
        },
        _ => {},
    }
}

/// A block whose arms disagree has no count itself.
pub proof fn lemma_mismatch_is_unresolved(blocks: Seq<Block>, i: int)
    requires
        arity_mismatch_at(blocks, i),
    ensures
        return_count(blocks, i) is None,
{
    lemma_count_unfold(blocks, i);
}

/// `unresolved_below` lists exactly the blocks below `k` that have no count.
pub proof fn lemma_unresolved_below(blocks: Seq<Block>, k: int)
    requires
        0 <= k <= usize::MAX,
    ensures
        forall|l: Label|
            unresolved_below(blocks, k).contains(l) <==> (0 <= l.0 < k && return_count(
                blocks,
                l.0 as int,
            ) is None),
    decreases k,
{
    if k > 0 {
        lemma_unresolved_below(blocks, k - 1);
        let prev = unresolved_below(blocks, k - 1);
        let last = Label((k - 1) as usize);
        if return_count(blocks, k - 1) is None {
            assert forall|l: Label|
                unresolved_below(blocks, k).contains(l) <==> (0 <= l.0 < k && return_count(
                    blocks,
                    l.0 as int,
                ) is None) by {
                if prev.push(last).contains(l) {
                    let j = choose|j: int| 0 <= j < prev.push(last).len() && prev.push(last)[j] == l;
                    if j < prev.len() {
                        assert(prev[j] == l);
                        assert(prev.contains(l));
                    }
                }
                if 0 <= l.0 < k && return_count(blocks, l.0 as int) is None {
                    if l.0 == k - 1 {
                        assert(prev.push(last)[prev.len() as int] == l);
                    } else {
                        assert(prev.contains(l));
                        let j = choose|j: int| 0 <= j < prev.len() && prev[j] == l;
                        assert(prev.push(last)[j] == l);
                    }
                }
            }
        }
    }
}

/// What one visit to block `i` yields, given the blocks solved so far.
spec fn step_value(blocks: Seq<Block>, solved: Seq<bool>, counts: Seq<usize>, i: int) -> Option<
    usize,
> {
    match blocks[i].end {
        End::TailValue(Value::Copied(pures)) => Some(pures@.len() as usize),
        End::TailValue(Value::Add { .. }) => Some(1usize),
        End::TailValue(Value::Call { label, .. }) => if label.0 < solved.len() && solved[label.0 as int] {
            Some(counts[label.0 as int])
        } else {
            None
        },
        End::ConditionalBranch { label_if_true, label_if_false, .. } => if label_if_true.0
            < solved.len() && label_if_false.0 < solved.len() && solved[label_if_true.0 as int]
            && solved[label_if_false.0 as int] && counts[label_if_true.0 as int]
            == counts[label_if_false.0 as int] {
            Some(counts[label_if_true.0 as int])
        } else {
            None
        },
        End::BlockIsEmpty => None,
    }
}

/// Every block marked solved carries its count.
spec fn sound(blocks: Seq<Block>, solved: Seq<bool>, counts: Seq<usize>) -> bool {
    &&& solved.len() == blocks.len()
    &&& counts.len() == blocks.len()
    &&& forall|i: int|
        0 <= i < blocks.len() && #[trigger] solved[i] ==> return_count(blocks, i) == Some(
            counts[i] as nat,
        )
}

/// No visit to an unsolved block would solve it.
spec fn closed(blocks: Seq<Block>, solved: Seq<bool>, counts: Seq<usize>) -> bool {
    forall|i: int|
        0 <= i < blocks.len() && !#[trigger] solved[i] ==> step_value(blocks, solved, counts, i)
            is None
}

/// Every unsolved block is still waiting in `pending`.
spec fn covers(pending: Seq<usize>, solved: Seq<bool>) -> bool {
    forall|i: int| 0 <= i < solved.len() && !#[trigger] solved[i] ==> pending.contains(i as usize)
}

proof fn lemma_step_sound(blocks: Seq<Block>, solved: Seq<bool>, counts: Seq<usize>, i: int)
    requires
        sound(blocks, solved, counts),
        0 <= i < blocks.len(),
        step_value(blocks, solved, counts, i) is Some,
    ensures
        return_count(blocks, i) == Some(step_value(blocks, solved, counts, i).unwrap() as nat),
{
    lemma_count_unfold(blocks, i);
    match blocks[i].end {
        End::TailValue(Value::Copied(pures)) => {
            assert(pures@.len() == pures.len());
        },
        End::TailValue(Value::Call { label, .. }) => {
            assert(solved[label.0 as int]);
        },
        End::ConditionalBranch { label_if_true, label_if_false, .. } => {
            assert(solved[label_if_true.0 as int] && solved[label_if_false.0 as int]);
        },
        _ => {},
    }
}

proof fn lemma_closed_complete(
    blocks: Seq<Block>,
    solved: Seq<bool>,
    counts: Seq<usize>,
    i: int,
    fuel: nat,
)
    requires
        sound(blocks, solved, counts),
        closed(blocks, solved, counts),
        count_within(blocks, i, fuel) is Some,
    ensures
        0 <= i < blocks.len(),
        solved[i],
    decreases fuel,
{
    match blocks[i].end {
        End::TailValue(Value::Call { label, .. }) => {
            lemma_closed_complete(blocks, solved, counts, label.0 as int, (fuel - 1) as nat);
        },
        End::ConditionalBranch { label_if_true, label_if_false, .. } => {
            let t = label_if_true.0 as int;
            let f = label_if_false.0 as int;
            lemma_closed_complete(blocks, solved, counts, t, (fuel - 1) as nat);
            lemma_closed_complete(blocks, solved, counts, f, (fuel - 1) as nat);
            lemma_count_from_fuel(blocks, t, (fuel - 1) as nat);
            lemma_count_from_fuel(blocks, f, (fuel - 1) as nat);
            assert(solved[t] && solved[f]);
            assert(counts[t] as nat == counts[f] as nat);
        },
        _ => {},
    }
}

/// Once no visit makes progress, the solved blocks are exactly those that have
/// a count.
proof fn lemma_closed_exact(blocks: Seq<Block>, solved: Seq<bool>, counts: Seq<usize>)
    requires
        sound(blocks, solved, counts),
        closed(blocks, solved, counts),
    ensures
        forall|i: int|
            #[trigger] return_count(blocks, i) == if 0 <= i < blocks.len() && solved[i] {
                Some(counts[i] as nat)
            } else {
                None
            },
{
    assert forall|i: int|
        #[trigger] return_count(blocks, i) == if 0 <= i < blocks.len() && solved[i] {
            Some(counts[i] as nat)
        } else {
            None
        } by {
        if return_count(blocks, i) is Some {
            let fuel = lemma_fuel_for_count(blocks, i);
            lemma_closed_complete(blocks, solved, counts, i, fuel);
        }
    }
}

fn try_step(blocks: &Vec<Block>, solved: &Vec<bool>, counts: &Vec<usize>, idx: usize) -> (r: Option<
    usize,
>)
    requires
        idx < blocks.len(),
        solved.len() == blocks.len(),
        counts.len() == blocks.len(),
    ensures
        r == step_value(blocks@, solved@, counts@, idx as int),
{
    match &blocks[idx].end {
        End::TailValue(value) => match value {
            Value::Copied(pures) => Some(pures.len()),
            Value::Add { .. } => Some(1),
            Value::Call { label, .. } => {
                let t: usize = label.0;
                if t < solved.len() && solved[t] {
                    Some(counts[t])
                } else {
                    None
                }
            },
        },
        End::ConditionalBranch { label_if_true, label_if_false, .. } => {
            let t: usize = label_if_true.0;
            let f: usize = label_if_false.0;
            if t < solved.len() && f < solved.len() && solved[t] && solved[f] && counts[t]
                == counts[f] {
                Some(counts[t])
            } else {
                None
            }
        },
        End::BlockIsEmpty => None,
    }
}

/// Visits the pending blocks in order, pass after pass, until a whole pass
/// solves nothing.
fn run_passes(blocks: &Vec<Block>, seed: Vec<usize>) -> (state: (Vec<bool>, Vec<usize>))
    requires
        forall|j: int| 0 <= j < seed.len() ==> seed[j] < blocks.len(),
        forall|i: usize| i < blocks.len() ==> seed@.contains(i),
    ensures
        sound(blocks@, state.0@, state.1@),
        closed(blocks@, state.0@, state.1@),
{
    let n: usize = blocks.len();
    let mut counts: Vec<usize> = Vec::new();
    let mut solved: Vec<bool> = Vec::new();
    let mut i: usize = 0;
    while i < n
        invariant
            i <= n,
            counts.len() == i,
            solved.len() == i,
            forall|j: int| 0 <= j < i ==> !solved[j],
        decreases n - i,
    {
        counts.push(0);
        solved.push(false);
        i += 1;
    }
    let mut pending: Vec<usize> = seed;
    let mut progress: bool = true;
    while progress
        invariant
            n == blocks.len(),
            sound(blocks@, solved@, counts@),
            forall|j: int| 0 <= j < pending.len() ==> pending[j] < n,
            covers(pending@, solved@),
            !progress ==> closed(blocks@, solved@, counts@),
        decreases pending.len() + (if progress { 1int } else { 0int }),
    {
        progress = false;
        let mut next: Vec<usize> = Vec::new();
        let mut k: usize = 0;
        while k < pending.len()
            invariant
                k <= pending.len(),
                n == blocks.len(),
                sound(blocks@, solved@, counts@),
                forall|j: int| 0 <= j < pending.len() ==> pending[j] < n,
                forall|j: int| 0 <= j < next.len() ==> next[j] < n,
                covers(pending@, solved@),
                next.len() <= k,
                progress ==> next.len() < k,
                forall|i: int|
                    0 <= i < n && !#[trigger] solved[i] ==> next@.contains(i as usize) || exists|
                        j: int,
                    |
                        k <= j < pending.len() && pending[j] == i,
                !progress ==> forall|j: int|
                    0 <= j < k ==> solved[#[trigger] pending[j] as int] || step_value(
                        blocks@,
                        solved@,
                        counts@,
                        pending[j] as int,
                    ) is None,
            decreases pending.len() - k,
        {
            let idx: usize = pending[k];
            let ghost old_solved = solved@;
            let ghost old_next = next@;
            if !solved[idx] {
                match try_step(blocks, &solved, &counts, idx) {
                    Some(c) => {
                        proof {
                            lemma_step_sound(blocks@, solved@, counts@, idx as int);
                        }
                        counts.set(idx, c);
                        solved.set(idx, true);
                        progress = true;
                    },
                    None => {
                        next.push(idx);
                        assert(next@[next.len() - 1] == idx);
                    },
                }
            }
            assert forall|i: int| 0 <= i < n && !#[trigger] solved[i] implies next@.contains(
                i as usize,
            ) || exists|j: int| k + 1 <= j < pending.len() && pending[j] == i by {
                assert(!old_solved[i]);
                if old_next.contains(i as usize) {
                    let w = choose|w: int| 0 <= w < old_next.len() && old_next[w] == i as usize;
                    assert(next@[w] == i as usize);
                } else {
                    let j = choose|j: int| k <= j < pending.len() && pending[j] == i;
                    if j == k {
                        assert(next@[next.len() - 1] == i as usize);
                    } else {
                        assert(k + 1 <= j < pending.len() && pending[j] == i);
                    }
                }
            }
            k += 1;
        }
        proof {
            if !progress {
                assert forall|i: int| 0 <= i < n && !#[trigger] solved[i] implies step_value(
                    blocks@,
                    solved@,
                    counts@,
                    i,
                ) is None by {
                    assert(pending@.contains(i as usize));
                    let j = choose|j: int| 0 <= j < pending.len() && pending[j] == i as usize;
                    assert(solved[pending[j] as int] || step_value(
                        blocks@,
                        solved@,
                        counts@,
                        pending[j] as int,
                    ) is None);
                }
            }
        }
        pending = next;
    }
    (solved, counts)
}

/// Solves the program, visiting the blocks in the order that `order` gives.
/// Every block must occur in `order`; an entry that names no block is skipped.
/// The outcome does not depend on that order.
pub fn compute_return_counts_in_order(blocks: &Vec<Block>, order: &Vec<usize>) -> (outcome: Result<
    Vec<usize>,
    LoweringError,
>)
    requires
        none_empty(blocks@),
        forall|i: usize| i < blocks.len() ==> order@.contains(i),
    ensures
        is_solution(blocks@, outcome),
{
    let n: usize = blocks.len();
    let mut seed: Vec<usize> = Vec::new();
    let mut k: usize = 0;
    while k < order.len()
        invariant
            k <= order.len(),
            n == blocks.len(),
            forall|j: int| 0 <= j < seed.len() ==> seed[j] < n,
            forall|j: int| 0 <= j < k && order[j] < n ==> seed@.contains(#[trigger] order[j]),
        decreases order.len() - k,
    {
        let idx: usize = order[k];
        let ghost old_seed = seed@;
        if idx < n {
            seed.push(idx);
            assert(seed@[seed.len() - 1] == idx);
        }
        assert forall|j: int| 0 <= j < k + 1 && order[j] < n implies seed@.contains(
            #[trigger] order[j],
        ) by {
            if j < k {
                let w = choose|w: int| 0 <= w < old_seed.len() && old_seed[w] == order[j];
                assert(seed@[w] == order[j]);
            }
        }
        k += 1;
    }
    assert forall|i: usize| i < blocks.len() implies seed@.contains(i) by {
        assert(order@.contains(i));
        let j = choose|j: int| 0 <= j < order.len() && order[j] == i;
        assert(seed@.contains(order[j]));
    }
    let (solved, counts) = run_passes(blocks, seed);
    proof {
        lemma_closed_exact(blocks@, solved@, counts@);
    }
    let mut i: usize = 0;
    while i < n
        invariant
            i <= n,
            n == blocks.len(),
            solved.len() == n,
            counts.len() == n,
            forall|j: int|
                #[trigger] return_count(blocks@, j) == if 0 <= j < blocks.len() && solved[j] {
                    Some(counts[j] as nat)
                } else {
                    None
                },
            forall|j: int| 0 <= j < i ==> !arity_mismatch_at(blocks@, j),
        decreases n - i,
    {
        match &blocks[i].end {
            End::ConditionalBranch { label_if_true, label_if_false, .. } => {
                let t: usize = label_if_true.0;
                let f: usize = label_if_false.0;
                if t < n && f < n && solved[t] && solved[f] && counts[t] != counts[f] {
                    return Err(
                        LoweringError::ConditionalArityMismatch {
                            block: Label(i),
                            count_if_true: counts[t],
                            count_if_false: counts[f],
                        },
                    );
                }
            },
            _ => {},
        }
        i += 1;
    }
    let mut unresolved: Vec<Label> = Vec::new();
    let mut i: usize = 0;
    while i < n
        invariant
            i <= n,
            n == blocks.len(),
            solved.len() == n,
            forall|j: int|
                #[trigger] return_count(blocks@, j) == if 0 <= j < blocks.len() && solved[j] {
                    Some(counts[j] as nat)
                } else {
                    None
                },
            unresolved@ == unresolved_below(blocks@, i as int),
        decreases n - i,
    {
        if !solved[i] {
            unresolved.push(Label(i));
        }
        i += 1;
    }
    if unresolved.len() > 0 {
        Err(LoweringError::CyclicCallGraph(unresolved))
    } else {
        proof {
            lemma_unresolved_below(blocks@, n as int);
            assert forall|j: int| 0 <= j < n implies solved[j] by {
                if !solved[j] {
                    assert(return_count(blocks@, j) is None);
                    assert(unresolved@.contains(Label(j as usize)));
                }
            }
        }
        Ok(counts)
    }
}

/// Solves the program, visiting the blocks first in the order of their labels.
pub fn compute_return_counts(blocks: &Vec<Block>) -> (outcome: Result<Vec<usize>, LoweringError>)
    requires
        none_empty(blocks@),
    ensures
        is_solution(blocks@, outcome),
{
    let n: usize = blocks.len();
    let mut order: Vec<usize> = Vec::new();
    let mut i: usize = 0;
    while i < n
        invariant
            i <= n,
            order.len() == i,
            forall|j: int| 0 <= j < i ==> order[j] == j,
        decreases n - i,
    {
        order.push(i);
        i += 1;
    }
    assert forall|i: usize| i < blocks.len() implies order@.contains(i) by {
        assert(order@[i as int] == i);
    }
    compute_return_counts_in_order(blocks, &order)
}

} // verus!
