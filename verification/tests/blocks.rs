use std::collections::HashMap;

use optir::block::{Block, CFTransfer, Constant, Op};
use optir::bucket::{Definition, Usage, UsageIndex, UsageKind};
use optir::builder::BlockBuilder;
use optir::error::{Construct, LoweringError};
use optir::hlir;
use optir::hlir::{AssignedBinding, Assignment, End, Pure, Value};
use optir::index::{Binding, Label};
use optir::model::AssignedUsage;

fn exclusive(op: usize) -> Usage {
    Usage { usage_kind: UsageKind::Exclusive, index: UsageIndex::Op(op) }
}

fn tail(gets: Vec<Binding>, value: Value) -> hlir::Block {
    hlir::Block { gets, assigns: vec![], end: End::TailValue(value) }
}

#[test]
fn two_literals_returned() {
    let input = tail(vec![], Value::Copied(vec![Pure::Constant(10), Pure::Constant(20)]));
    let block = Block::from_hlir_block(input, &vec![2]).unwrap();
    assert_eq!(block.arg_count, 0);
    assert_eq!(
        block.operations,
        vec![Op::Constant(Constant::Numeric(10)), Op::Constant(Constant::Numeric(20))]
    );
    assert_eq!(block.binding_defs, vec![Definition::Op(0), Definition::Op(1)]);
    assert_eq!(block.binding_usages, vec![vec![], vec![]]);
    assert!(block.call_return_usages.is_empty());
    assert_eq!(block.end, CFTransfer::Return(vec![Binding(0), Binding(1)]));
}

#[test]
fn argument_returned() {
    let input = tail(vec![Binding(0)], Value::Copied(vec![Pure::Binding(Binding(0))]));
    let block = Block::from_hlir_block(input, &vec![1]).unwrap();
    assert_eq!(block.arg_count, 1);
    assert_eq!(block.binding_defs, vec![Definition::Argument(0)]);
    assert_eq!(block.binding_usages, vec![vec![]]);
    assert_eq!(block.operations, vec![]);
    assert_eq!(block.end, CFTransfer::Return(vec![Binding(0)]));
}

#[test]
fn sum_of_three_constants() {
    let input = tail(
        vec![],
        Value::Add { lhs: Pure::Constant(1), rest: vec![Pure::Constant(2), Pure::Constant(3)] },
    );
    let block = Block::from_hlir_block(input, &vec![1]).unwrap();
    assert_eq!(
        block.operations,
        vec![
            Op::Constant(Constant::Numeric(1)),
            Op::Constant(Constant::Numeric(2)),
            Op::Constant(Constant::Numeric(3)),
            Op::Add { lhs: Binding(0), rhs: Binding(1) },
            Op::Add { lhs: Binding(3), rhs: Binding(2) },
        ]
    );
    assert_eq!(
        block.binding_defs,
        vec![
            Definition::Op(0),
            Definition::Op(1),
            Definition::Op(2),
            Definition::Op(3),
            Definition::Op(4),
        ]
    );
    assert_eq!(
        block.binding_usages,
        vec![vec![exclusive(3)], vec![exclusive(3)], vec![exclusive(4)], vec![exclusive(4)], vec![]]
    );
    assert_eq!(block.end, CFTransfer::Return(vec![Binding(4)]));
}

#[test]
fn sum_of_a_binding_with_itself_uses_it_twice() {
    let input = tail(
        vec![Binding(0)],
        Value::Add { lhs: Pure::Binding(Binding(0)), rest: vec![Pure::Binding(Binding(0))] },
    );
    let block = Block::from_hlir_block(input, &vec![1]).unwrap();
    assert_eq!(block.operations, vec![Op::Add { lhs: Binding(0), rhs: Binding(0) }]);
    assert_eq!(block.binding_usages, vec![vec![exclusive(0), exclusive(0)], vec![]]);
    assert_eq!(block.end, CFTransfer::Return(vec![Binding(1)]));
}

#[test]
fn sum_without_further_operands_is_the_operand() {
    let input = tail(vec![], Value::Add { lhs: Pure::Constant(5), rest: vec![] });
    let block = Block::from_hlir_block(input, &vec![1]).unwrap();
    assert_eq!(block.operations, vec![Op::Constant(Constant::Numeric(5))]);
    assert_eq!(block.end, CFTransfer::Return(vec![Binding(0)]));
}

#[test]
fn tail_call_takes_all_results() {
    let input = tail(vec![], Value::Call { label: Label(1), params: vec![] });
    let block = Block::from_hlir_block(input, &vec![2, 2]).unwrap();
    assert_eq!(
        block.operations,
        vec![Op::Call { label: Label(1), args: vec![], usage_info_index: 0 }]
    );
    assert_eq!(block.binding_defs, vec![Definition::Op(0), Definition::Op(0)]);
    assert_eq!(block.binding_usages, vec![vec![], vec![]]);
    assert_eq!(block.call_return_usages.len(), 1);
    let record = &block.call_return_usages[0];
    assert_eq!(record.result_usage, vec![0, 1]);
    assert_eq!(record.called_label, Label(1));
    assert_eq!(record.result_binding_range.to_vec(), vec![Binding(0), Binding(1)]);
    assert_eq!(block.end, CFTransfer::Return(vec![Binding(0), Binding(1)]));
}

#[test]
fn tail_call_uses_its_parameters_at_the_call() {
    let input = tail(
        vec![Binding(0)],
        Value::Call { label: Label(0), params: vec![Pure::Constant(7), Pure::Binding(Binding(0))] },
    );
    let block = Block::from_hlir_block(input, &vec![3]).unwrap();
    assert_eq!(
        block.operations,
        vec![
            Op::Constant(Constant::Numeric(7)),
            Op::Call { label: Label(0), args: vec![Binding(1), Binding(0)], usage_info_index: 0 },
        ]
    );
    assert_eq!(
        block.binding_defs,
        vec![
            Definition::Argument(0),
            Definition::Op(0),
            Definition::Op(1),
            Definition::Op(1),
            Definition::Op(1),
        ]
    );
    assert_eq!(
        block.binding_usages,
        vec![vec![exclusive(1)], vec![exclusive(1)], vec![], vec![], vec![]]
    );
    assert_eq!(block.call_return_usages[0].result_usage, vec![0, 1, 2]);
    assert_eq!(block.call_return_usages[0].result_binding_range.first_index(), 2);
    assert_eq!(block.call_return_usages[0].result_binding_range.end_index(), 5);
    assert_eq!(block.end, CFTransfer::Return(vec![Binding(2), Binding(3), Binding(4)]));
}

#[test]
fn tail_call_to_block_without_results() {
    let input = tail(vec![], Value::Call { label: Label(1), params: vec![] });
    let block = Block::from_hlir_block(input, &vec![0, 0]).unwrap();
    assert_eq!(block.binding_defs, vec![]);
    assert_eq!(block.call_return_usages[0].result_usage, Vec::<usize>::new());
    assert_eq!(block.call_return_usages[0].result_binding_range.len(), 0);
    assert_eq!(block.end, CFTransfer::Return(vec![]));
}

#[test]
fn conditional_branch_resolves_its_condition() {
    let input = hlir::Block {
        gets: vec![Binding(0)],
        assigns: vec![],
        end: End::ConditionalBranch {
            condition: Pure::Binding(Binding(0)),
            label_if_true: Label(1),
            label_if_false: Label(2),
        },
    };
    let block = Block::from_hlir_block(input, &vec![1, 1, 1]).unwrap();
    assert_eq!(block.operations, vec![]);
    assert_eq!(
        block.end,
        CFTransfer::ConditionalBranch {
            exported_bindings: HashMap::new(),
            condition_source: Binding(0),
            target_if_true: Label(1),
            target_if_false: Label(2),
        }
    );
}

#[test]
fn copy_assignment_binds_its_targets() {
    let input = hlir::Block {
        gets: vec![Binding(0)],
        assigns: vec![Assignment {
            used_bindings: vec![
                AssignedBinding { binding: Binding(1), assign_index: 0 },
                AssignedBinding { binding: Binding(2), assign_index: 1 },
            ],
            value: Value::Copied(vec![Pure::Constant(9), Pure::Binding(Binding(0))]),
        }],
        end: End::TailValue(Value::Copied(vec![
            Pure::Binding(Binding(2)),
            Pure::Binding(Binding(1)),
        ])),
    };
    let block = Block::from_hlir_block(input, &vec![2]).unwrap();
    assert_eq!(block.operations, vec![Op::Constant(Constant::Numeric(9))]);
    assert_eq!(block.binding_defs, vec![Definition::Argument(0), Definition::Op(0)]);
    assert_eq!(block.end, CFTransfer::Return(vec![Binding(0), Binding(1)]));
}

#[test]
fn label_reference_becomes_a_constant() {
    let input = tail(vec![], Value::Copied(vec![Pure::Label(Label(4))]));
    let block = Block::from_hlir_block(input, &vec![1]).unwrap();
    assert_eq!(block.operations, vec![Op::Constant(Constant::Label(Label(4)))]);
}

#[test]
fn unbound_identifier_is_an_error() {
    let input = tail(vec![Binding(0)], Value::Copied(vec![Pure::Binding(Binding(3))]));
    assert_eq!(
        Block::from_hlir_block(input, &vec![1]),
        Err(LoweringError::UnresolvedAlias(Binding(3)))
    );
}

#[test]
fn unbound_identifier_in_a_sum_is_an_error() {
    let input = tail(
        vec![],
        Value::Add { lhs: Pure::Constant(1), rest: vec![Pure::Binding(Binding(0))] },
    );
    assert_eq!(
        Block::from_hlir_block(input, &vec![1]),
        Err(LoweringError::UnresolvedAlias(Binding(0)))
    );
}

#[test]
fn assigned_sum_is_not_lowered() {
    let input = hlir::Block {
        gets: vec![],
        assigns: vec![Assignment {
            used_bindings: vec![AssignedBinding { binding: Binding(0), assign_index: 0 }],
            value: Value::Add { lhs: Pure::Constant(1), rest: vec![Pure::Constant(2)] },
        }],
        end: End::TailValue(Value::Copied(vec![])),
    };
    assert_eq!(
        Block::from_hlir_block(input, &vec![0]),
        Err(LoweringError::UnsupportedConstruct(Construct::AssignedAdd))
    );
}

#[test]
fn assigned_call_is_not_lowered() {
    let input = hlir::Block {
        gets: vec![],
        assigns: vec![Assignment {
            used_bindings: vec![],
            value: Value::Call { label: Label(0), params: vec![] },
        }],
        end: End::TailValue(Value::Copied(vec![])),
    };
    assert_eq!(
        Block::from_hlir_block(input, &vec![0]),
        Err(LoweringError::UnsupportedConstruct(Construct::AssignedCall))
    );
}

#[test]
fn builder_starts_with_the_parameters() {
    let builder = BlockBuilder::new(&vec![Binding(0), Binding(1)]);
    assert_eq!(builder.arg_count, 2);
    assert_eq!(builder.binding_definitions, vec![Definition::Argument(0), Definition::Argument(1)]);
    assert_eq!(builder.binding_usages, vec![vec![], vec![]]);
    assert_eq!(builder.hlir_results[&0], Binding(0));
    assert_eq!(builder.hlir_results[&1], Binding(1));
}

#[test]
fn pure_constant_defines_a_binding() {
    let mut builder = BlockBuilder::new(&vec![Binding(0)]);
    assert_eq!(builder.compile_pure(Pure::Constant(3)), Ok(Binding(1)));
    assert_eq!(builder.compile_pure(Pure::Binding(Binding(0))), Ok(Binding(0)));
    assert_eq!(builder.ops, vec![Op::Constant(Constant::Numeric(3))]);
    assert_eq!(
        builder.compile_pure(Pure::Binding(Binding(5))),
        Err(LoweringError::UnresolvedAlias(Binding(5)))
    );
    assert_eq!(builder.ops.len(), 1);
}

#[test]
fn copied_resolves_from_left_to_right() {
    let mut builder = BlockBuilder::new(&vec![Binding(0)]);
    let result = builder.compile_copied(&vec![
        Pure::Constant(1),
        Pure::Binding(Binding(0)),
        Pure::Label(Label(2)),
    ]);
    assert_eq!(result, Ok(vec![Binding(1), Binding(0), Binding(2)]));
    assert_eq!(
        builder.ops,
        vec![Op::Constant(Constant::Numeric(1)), Op::Constant(Constant::Label(Label(2)))]
    );
}

#[test]
fn registered_result_is_found_again() {
    let mut builder = BlockBuilder::new(&vec![Binding(0)]);
    builder.register_result(Binding(8), Binding(0));
    assert_eq!(builder.compile_pure(Pure::Binding(Binding(8))), Ok(Binding(0)));
}

#[test]
fn pushed_operation_defines_nothing() {
    let mut builder = BlockBuilder::new(&vec![Binding(0)]);
    builder.push_op(Op::Add { lhs: Binding(0), rhs: Binding(0) });
    assert_eq!(builder.ops, vec![Op::Add { lhs: Binding(0), rhs: Binding(0) }]);
    assert_eq!(builder.binding_definitions.len(), 1);
    assert_eq!(builder.binding_usages, vec![vec![]]);
}

#[test]
fn call_with_specific_results_binds_the_targets() {
    let mut builder = BlockBuilder::new(&vec![Binding(0)]);
    let targets = vec![
        AssignedBinding { binding: Binding(5), assign_index: 2 },
        AssignedBinding { binding: Binding(6), assign_index: 0 },
    ];
    let range = builder
        .compile_call(Label(3), &vec![Pure::Binding(Binding(0))], AssignedUsage::Specific(targets), 4)
        .unwrap();
    assert_eq!(range.to_vec(), vec![Binding(1), Binding(2)]);
    assert_eq!(builder.call_return_usages[0].result_usage, vec![2, 0]);
    assert_eq!(builder.call_return_usages[0].called_label, Label(3));
    assert_eq!(
        builder.binding_definitions,
        vec![Definition::Argument(0), Definition::Op(0), Definition::Op(0)]
    );
    assert_eq!(builder.binding_usages, vec![vec![exclusive(0)], vec![], vec![]]);
    assert_eq!(builder.compile_pure(Pure::Binding(Binding(5))), Ok(Binding(1)));
    assert_eq!(builder.compile_pure(Pure::Binding(Binding(6))), Ok(Binding(2)));
}

#[test]
fn two_calls_have_disjoint_ranges() {
    let mut builder = BlockBuilder::new(&vec![]);
    let first = builder.compile_call(Label(1), &vec![], AssignedUsage::All, 2).unwrap();
    let second = builder.compile_call(Label(2), &vec![Pure::Constant(1)], AssignedUsage::All, 3).unwrap();
    assert_eq!(first.to_vec(), vec![Binding(0), Binding(1)]);
    assert_eq!(second.to_vec(), vec![Binding(3), Binding(4), Binding(5)]);
    assert_eq!(builder.binding_definitions.len(), builder.binding_usages.len());
    assert_eq!(
        builder.ops[2],
        Op::Call { label: Label(2), args: vec![Binding(2)], usage_info_index: 1 }
    );
    assert_eq!(builder.binding_definitions[3], Definition::Op(2));
}

#[test]
fn released_block_holds_what_was_built() {
    let mut builder = BlockBuilder::new(&vec![Binding(0)]);
    let sum = builder.compile_add(Pure::Binding(Binding(0)), &vec![Pure::Constant(1)]).unwrap();
    let block = builder.release(CFTransfer::Return(vec![sum]));
    assert_eq!(block.arg_count, 1);
    assert_eq!(
        block.operations,
        vec![Op::Constant(Constant::Numeric(1)), Op::Add { lhs: Binding(0), rhs: Binding(1) }]
    );
    assert_eq!(block.binding_defs.len(), block.binding_usages.len());
    assert_eq!(block.binding_usages, vec![vec![exclusive(1)], vec![exclusive(1)], vec![]]);
    assert_eq!(block.end, CFTransfer::Return(vec![Binding(2)]));
}
