use optir::block::{Block, CFTransfer, Constant, Op};
use optir::bucket::Definition;
use optir::cfg::ForwardEdge;
use optir::error::LoweringError;
use optir::hlir;
use optir::hlir::{End, Pure, Value};
use optir::index::{Binding, Label};
use optir::lowering::lower_block;
use optir::program::lower_program;

fn program() -> Vec<hlir::Block> {
    vec![
        hlir::Block {
            gets: vec![Binding(0)],
            assigns: vec![],
            end: End::ConditionalBranch {
                condition: Pure::Binding(Binding(0)),
                label_if_true: Label(1),
                label_if_false: Label(2),
            },
        },
        hlir::Block {
            gets: vec![],
            assigns: vec![],
            end: End::TailValue(Value::Copied(vec![Pure::Constant(1)])),
        },
        hlir::Block {
            gets: vec![],
            assigns: vec![],
            end: End::TailValue(Value::Call { label: Label(1), params: vec![] }),
        },
    ]
}

#[test]
fn whole_program_is_lowered_in_order() {
    let ir = lower_program(&program()).unwrap();
    assert_eq!(ir.blocks.len(), 3);
    assert_eq!(ir.blocks[0].arg_count, 1);
    assert_eq!(ir.blocks[1].operations, vec![Op::Constant(Constant::Numeric(1))]);
    assert_eq!(ir.blocks[1].end, CFTransfer::Return(vec![Binding(0)]));
    assert_eq!(ir.blocks[2].binding_defs, vec![Definition::Op(0)]);
    assert_eq!(ir.blocks[2].call_return_usages[0].result_usage, vec![0]);
    assert_eq!(ir.blocks[2].end, CFTransfer::Return(vec![Binding(0)]));
    assert_eq!(
        ir.forwards_branching_map[&0],
        ForwardEdge::Conditional { target_if_true: Label(1), target_if_false: Label(2) }
    );
    assert_eq!(ir.forwards_branching_map[&1], ForwardEdge::Dynamic);
    assert_eq!(ir.forwards_branching_map[&2], ForwardEdge::Dynamic);
    assert_eq!(ir.backwards_branching_map.len(), 2);
    assert_eq!(ir.backwards_branching_map[&1], vec![Label(0)]);
    assert_eq!(ir.backwards_branching_map[&2], vec![Label(0)]);
}

#[test]
fn program_with_a_cycle_is_not_lowered() {
    let mut blocks = program();
    blocks[1].end = End::TailValue(Value::Call { label: Label(2), params: vec![] });
    assert_eq!(
        lower_program(&blocks),
        Err(LoweringError::CyclicCallGraph(vec![Label(0), Label(1), Label(2)]))
    );
}

#[test]
fn program_fails_as_its_first_failing_block() {
    let mut blocks = program();
    blocks[1].end = End::TailValue(Value::Copied(vec![Pure::Binding(Binding(4))]));
    blocks[2].end = End::TailValue(Value::Copied(vec![Pure::Binding(Binding(5))]));
    assert_eq!(lower_program(&blocks), Err(LoweringError::UnresolvedAlias(Binding(4))));
}

#[test]
fn block_is_lowered_alike_kept_or_given() {
    let blocks = program();
    let counts = vec![1, 1, 1];
    let kept = lower_block(&blocks[2], &counts);
    let given = Block::from_hlir_block(blocks[2].clone(), &counts);
    assert_eq!(kept, given);
    assert!(kept.is_ok());
}
