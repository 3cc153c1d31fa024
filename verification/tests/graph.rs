use std::collections::HashMap;

use optir::block::{Block, CFTransfer, Constant, Op, PhiSelector};
use optir::bucket::{Definition, Usage, UsageIndex, UsageKind};
use optir::cfg::{ForwardEdge, IR};
use optir::index::{Binding, Label};

fn block_with(end: CFTransfer) -> Block {
    Block {
        arg_count: 0,
        binding_defs: vec![],
        binding_usages: vec![],
        call_return_usages: vec![],
        operations: vec![],
        end,
    }
}

fn returning() -> Block {
    block_with(CFTransfer::Return(vec![]))
}

fn jumping(target: usize) -> Block {
    block_with(CFTransfer::DirectBranch { target: Label(target), exported_bindings: HashMap::new() })
}

fn branching(if_true: usize, if_false: usize) -> Block {
    block_with(CFTransfer::ConditionalBranch {
        exported_bindings: HashMap::new(),
        condition_source: Binding(0),
        target_if_true: Label(if_true),
        target_if_false: Label(if_false),
    })
}

#[test]
fn empty_program_has_empty_maps() {
    let ir = IR::from_blocks(vec![]);
    assert!(ir.blocks.is_empty());
    assert!(ir.forwards_branching_map.is_empty());
    assert!(ir.backwards_branching_map.is_empty());
}

#[test]
fn return_is_dynamic_and_has_no_backward_edge() {
    let ir = IR::from_blocks(vec![returning(), returning()]);
    assert_eq!(ir.forwards_branching_map.len(), 2);
    assert_eq!(ir.forwards_branching_map[&0], ForwardEdge::Dynamic);
    assert_eq!(ir.forwards_branching_map[&1], ForwardEdge::Dynamic);
    assert!(ir.backwards_branching_map.is_empty());
}

#[test]
fn direct_branch_registers_its_source() {
    let ir = IR::from_blocks(vec![jumping(1), returning()]);
    assert_eq!(ir.forwards_branching_map[&0], ForwardEdge::Direct(Label(1)));
    assert_eq!(ir.backwards_branching_map.len(), 1);
    assert_eq!(ir.backwards_branching_map[&1], vec![Label(0)]);
}

#[test]
fn conditional_branch_registers_its_source_at_both_targets() {
    let ir = IR::from_blocks(vec![branching(1, 2), returning(), jumping(1)]);
    assert_eq!(
        ir.forwards_branching_map[&0],
        ForwardEdge::Conditional { target_if_true: Label(1), target_if_false: Label(2) }
    );
    assert_eq!(ir.forwards_branching_map[&2], ForwardEdge::Direct(Label(1)));
    assert_eq!(ir.backwards_branching_map.len(), 2);
    assert_eq!(ir.backwards_branching_map[&1], vec![Label(0), Label(2)]);
    assert_eq!(ir.backwards_branching_map[&2], vec![Label(0)]);
}

#[test]
fn both_arms_to_one_target_register_once() {
    let ir = IR::from_blocks(vec![branching(0, 0)]);
    assert_eq!(ir.backwards_branching_map[&0], vec![Label(0)]);
}

#[test]
fn loop_in_the_graph_is_kept() {
    let ir = IR::from_blocks(vec![jumping(1), jumping(0)]);
    assert_eq!(ir.backwards_branching_map[&0], vec![Label(1)]);
    assert_eq!(ir.backwards_branching_map[&1], vec![Label(0)]);
}

#[test]
fn maps_are_inverse_of_each_other() {
    let blocks = vec![branching(1, 3), jumping(3), returning(), branching(0, 3), jumping(2)];
    let ir = IR::from_blocks(blocks);
    for l in 0..5usize {
        for p in 0..5usize {
            let listed = ir
                .backwards_branching_map
                .get(&l)
                .map_or(false, |sources| sources.contains(&Label(p)));
            let leads = match ir.forwards_branching_map[&p] {
                ForwardEdge::Dynamic => false,
                ForwardEdge::Direct(target) => target == Label(l),
                ForwardEdge::Conditional { target_if_true, target_if_false } => {
                    target_if_true == Label(l) || target_if_false == Label(l)
                }
            };
            assert_eq!(listed, leads);
        }
    }
}

#[test]
fn blocks_are_kept_in_order() {
    let blocks = vec![jumping(1), returning()];
    let ir = IR::from_blocks(blocks.clone());
    assert_eq!(ir.blocks, blocks);
}

#[test]
fn selective_usages_and_merges_pass_through_unchanged() {
    let block = Block {
        arg_count: 1,
        binding_defs: vec![Definition::Argument(0), Definition::Op(0), Definition::Op(1)],
        binding_usages: vec![
            vec![Usage {
                usage_kind: UsageKind::Selective { selection_bucket: 3 },
                index: UsageIndex::Op(1),
            }],
            vec![Usage { usage_kind: UsageKind::Exclusive, index: UsageIndex::BlockEnd }],
            vec![],
        ],
        call_return_usages: vec![],
        operations: vec![
            Op::Constant(Constant::Numeric(1)),
            Op::Phi(vec![PhiSelector { used_bindings: vec![Binding(0)], block_from: Label(0) }]),
        ],
        end: CFTransfer::Return(vec![Binding(1)]),
    };
    let ir = IR::from_blocks(vec![block.clone()]);
    assert_eq!(ir.blocks[0], block);
    assert_eq!(
        ir.blocks[0].binding_usages[0][0].usage_kind,
        UsageKind::Selective { selection_bucket: 3 }
    );
}
