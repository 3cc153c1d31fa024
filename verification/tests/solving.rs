use optir::error::LoweringError;
use optir::hlir::{Block, End, Pure, Value};
use optir::index::Label;
use optir::solver::{compute_return_counts, compute_return_counts_in_order};

fn yields(n: usize) -> Block {
    Block { gets: vec![], assigns: vec![], end: End::TailValue(Value::Copied(vec![Pure::Constant(0); n])) }
}

fn sum() -> Block {
    Block {
        gets: vec![],
        assigns: vec![],
        end: End::TailValue(Value::Add { lhs: Pure::Constant(1), rest: vec![Pure::Constant(2)] }),
    }
}

fn tail_call(target: usize) -> Block {
    Block {
        gets: vec![],
        assigns: vec![],
        end: End::TailValue(Value::Call { label: Label(target), params: vec![] }),
    }
}

fn branch(if_true: usize, if_false: usize) -> Block {
    Block {
        gets: vec![],
        assigns: vec![],
        end: End::ConditionalBranch {
            condition: Pure::Constant(1),
            label_if_true: Label(if_true),
            label_if_false: Label(if_false),
        },
    }
}

#[test]
fn empty_program_has_no_counts() {
    assert_eq!(compute_return_counts(&vec![]), Ok(vec![]));
}

#[test]
fn value_list_counts_its_length() {
    assert_eq!(compute_return_counts(&vec![yields(0), yields(1), yields(4)]), Ok(vec![0, 1, 4]));
}

#[test]
fn sum_counts_one() {
    assert_eq!(compute_return_counts(&vec![sum()]), Ok(vec![1]));
}

#[test]
fn tail_call_takes_count_of_target() {
    let blocks = vec![tail_call(1), tail_call(2), yields(3)];
    assert_eq!(compute_return_counts(&blocks), Ok(vec![3, 3, 3]));
}

#[test]
fn long_chain_of_tail_calls_is_solved() {
    let mut blocks = Vec::new();
    for i in 0..40 {
        blocks.push(tail_call(i + 1));
    }
    blocks.push(yields(5));
    assert_eq!(compute_return_counts(&blocks), Ok(vec![5; 41]));
}

#[test]
fn branch_with_agreeing_arms_takes_their_count() {
    let blocks = vec![branch(1, 2), yields(2), tail_call(1)];
    assert_eq!(compute_return_counts(&blocks), Ok(vec![2, 2, 2]));
}

#[test]
fn direct_cycle_is_reported() {
    let blocks = vec![tail_call(1), tail_call(0)];
    assert_eq!(
        compute_return_counts(&blocks),
        Err(LoweringError::CyclicCallGraph(vec![Label(0), Label(1)]))
    );
}

#[test]
fn self_call_is_reported() {
    let blocks = vec![yields(1), tail_call(1)];
    assert_eq!(compute_return_counts(&blocks), Err(LoweringError::CyclicCallGraph(vec![Label(1)])));
}

#[test]
fn cycle_lists_only_unresolved_blocks() {
    let blocks = vec![yields(2), tail_call(2), tail_call(1), tail_call(0), tail_call(2)];
    assert_eq!(
        compute_return_counts(&blocks),
        Err(LoweringError::CyclicCallGraph(vec![Label(1), Label(2), Label(4)]))
    );
}

#[test]
fn call_to_missing_block_is_unresolved() {
    let blocks = vec![tail_call(7)];
    assert_eq!(compute_return_counts(&blocks), Err(LoweringError::CyclicCallGraph(vec![Label(0)])));
}

#[test]
fn arms_of_two_and_three_mismatch() {
    let blocks = vec![branch(1, 2), yields(2), yields(3)];
    assert_eq!(
        compute_return_counts(&blocks),
        Err(LoweringError::ConditionalArityMismatch {
            block: Label(0),
            count_if_true: 2,
            count_if_false: 3,
        })
    );
}

#[test]
fn first_mismatch_is_reported() {
    let blocks = vec![yields(1), branch(4, 0), tail_call(1), branch(0, 4), yields(2)];
    assert_eq!(
        compute_return_counts(&blocks),
        Err(LoweringError::ConditionalArityMismatch {
            block: Label(1),
            count_if_true: 2,
            count_if_false: 1,
        })
    );
}

#[test]
fn mismatch_comes_before_cycle() {
    let blocks = vec![tail_call(0), branch(2, 3), yields(0), yields(1)];
    assert_eq!(
        compute_return_counts(&blocks),
        Err(LoweringError::ConditionalArityMismatch {
            block: Label(1),
            count_if_true: 0,
            count_if_false: 1,
        })
    );
}

#[test]
fn counts_do_not_depend_on_order() {
    let blocks = vec![tail_call(3), branch(0, 2), yields(2), tail_call(2), sum()];
    let expected = Ok(vec![2, 2, 2, 2, 1]);
    assert_eq!(compute_return_counts(&blocks), expected);
    assert_eq!(compute_return_counts_in_order(&blocks, &vec![4, 3, 2, 1, 0]), expected);
    assert_eq!(compute_return_counts_in_order(&blocks, &vec![1, 0, 3, 2, 4]), expected);
    assert_eq!(compute_return_counts_in_order(&blocks, &vec![1, 1, 9, 0, 4, 3, 2, 0]), expected);
}

#[test]
fn failures_do_not_depend_on_order() {
    let blocks = vec![tail_call(1), tail_call(0), yields(1)];
    let expected = Err(LoweringError::CyclicCallGraph(vec![Label(0), Label(1)]));
    assert_eq!(compute_return_counts_in_order(&blocks, &vec![0, 1, 2]), expected);
    assert_eq!(compute_return_counts_in_order(&blocks, &vec![2, 1, 0]), expected);
}

#[test]
fn solving_twice_gives_the_same() {
    let blocks = vec![tail_call(2), sum(), branch(1, 1)];
    let first = compute_return_counts(&blocks);
    assert_eq!(first, Ok(vec![1, 1, 1]));
    assert_eq!(compute_return_counts(&blocks), first);
}
