use eir::builder::FunctionBuilder;
use eir::exception_handler_stack::ExceptionHandlerStack;
use eir::function::Function;
use eir::ir::{AtomicLiteral, Label, Op, OpKind, Source, Value};
use eir::validate::ValidationError;

fn op(kind: OpKind, reads: Vec<Source>, writes: Vec<Value>) -> Op {
    Op { kind, reads, writes }
}

fn var(v: u32) -> Source {
    Source::Variable(Value(v))
}

/// 0 jumps to 1, 1 returns.
fn two_blocks() -> FunctionBuilder {
    let mut b = FunctionBuilder::new(Function::new());
    let l = b.create_block();
    b.append_op(l, op(OpKind::ReturnOk, vec![Source::Constant(AtomicLiteral::Nil)], vec![]), vec![]);
    b.append_op(Label(0), op(OpKind::Jump, vec![], vec![]), vec![l]);
    b
}

#[test]
fn create_block_takes_the_next_label() {
    let mut b = FunctionBuilder::new(Function::new());
    assert_eq!(b.create_block(), Label(1));
    assert_eq!(b.create_block(), Label(2));
    assert_eq!(b.fun().blocks.len(), 3);
    assert!(b.fun().get(Label(2)).ops.is_empty());
    assert_eq!(b.fun().get(Label(2)).label, Label(2));
}

#[test]
fn fresh_values_count_up() {
    let mut b = FunctionBuilder::new(Function::new());
    assert_eq!(b.fresh_value(), Value(0));
    assert_eq!(b.fresh_value(), Value(1));
    b.reserve_values(10);
    assert_eq!(b.fresh_value(), Value(12));
    assert_eq!(b.fun().next_value, 13);
}

#[test]
fn appending_a_terminator_records_back_references() {
    let b = two_blocks();
    assert_eq!(b.fun().get(Label(0)).jumps, vec![Label(1)]);
    assert_eq!(b.fun().get(Label(1)).back_refs, vec![Label(0)]);
    assert_eq!(b.fun().graph_validate_global(), Ok(()));
}

#[test]
fn appending_another_operation_keeps_the_successors() {
    let mut b = two_blocks();
    b.append_op(Label(0), op(OpKind::Move, vec![var(0)], vec![Value(1)]), vec![]);
    assert_eq!(b.fun().get(Label(0)).jumps, vec![Label(1)]);
    assert_eq!(b.fun().get(Label(0)).ops.len(), 2);
    // a terminator that is not last is an arity error
    assert_eq!(b.fun().graph_validate_global(), Err(ValidationError::JumpArity));
}

#[test]
fn set_targets_moves_back_references() {
    let mut b = two_blocks();
    let other = b.create_block();
    b.set_targets(Label(0), vec![other, other, Label(0)]);
    assert_eq!(b.fun().get(Label(0)).jumps, vec![other, other, Label(0)]);
    assert!(b.fun().get(Label(1)).back_refs.is_empty());
    assert_eq!(b.fun().get(other).back_refs, vec![Label(0)]);
    assert_eq!(b.fun().get(Label(0)).back_refs, vec![Label(0)]);
}

#[test]
fn pop_op_of_a_terminator_clears_the_successors() {
    let mut b = two_blocks();
    let popped = b.pop_op(Label(0)).unwrap();
    assert!(matches!(popped.kind, OpKind::Jump));
    assert!(b.fun().get(Label(0)).jumps.is_empty());
    assert!(b.fun().get(Label(1)).back_refs.is_empty());
    assert!(b.pop_op(Label(0)).is_none());
}

#[test]
fn retarget_replaces_every_occurrence() {
    let mut b = two_blocks();
    let other = b.create_block();
    b.set_targets(Label(0), vec![Label(1), other, Label(1)]);
    b.retarget(Label(0), Label(1), other);
    assert_eq!(b.fun().get(Label(0)).jumps, vec![other, other, other]);
    assert!(b.fun().get(Label(1)).back_refs.is_empty());
    assert_eq!(b.fun().get(other).back_refs, vec![Label(0)]);
}

#[test]
fn phi_entries_are_added_removed_and_rekeyed() {
    let mut b = two_blocks();
    let k = b.add_phi(Label(1), Value(5));
    assert_eq!(k, 0);
    b.add_phi_entry(Label(1), 0, Label(0), var(1));
    b.add_phi_entry(Label(1), 0, Label(7), var(2));
    assert_eq!(b.fun().get(Label(1)).phi_nodes[0].entries, vec![(Label(0), var(1)), (Label(7), var(2))]);
    b.rekey_phi_entries(Label(1), Label(7), Label(8));
    assert_eq!(b.fun().get(Label(1)).phi_nodes[0].entries, vec![(Label(0), var(1)), (Label(8), var(2))]);
    b.remove_phi_entries(Label(1), Label(8));
    assert_eq!(b.fun().get(Label(1)).phi_nodes[0].entries, vec![(Label(0), var(1))]);
    assert_eq!(b.fun().graph_validate_global(), Ok(()));
    let phi = b.remove_phi(Label(1), 0);
    assert_eq!(phi.ssa, Value(5));
    assert!(b.fun().get(Label(1)).phi_nodes.is_empty());
}

#[test]
fn replace_uses_rewrites_operands_and_phi_entries() {
    let mut b = two_blocks();
    b.add_phi(Label(1), Value(5));
    b.add_phi_entry(Label(1), 0, Label(0), var(1));
    let mut c = FunctionBuilder::new(b.finish());
    c.pop_op(Label(1));
    c.append_op(Label(1), op(OpKind::ReturnOk, vec![var(1), var(2), var(1)], vec![Value(1)]), vec![]);
    c.replace_uses(Value(1), Source::Constant(AtomicLiteral::Integer(4)));
    let four = Source::Constant(AtomicLiteral::Integer(4));
    assert_eq!(c.fun().get(Label(1)).ops[0].reads, vec![four, var(2), four]);
    // a definition is no use
    assert_eq!(c.fun().get(Label(1)).ops[0].writes, vec![Value(1)]);
    assert_eq!(c.fun().get(Label(1)).phi_nodes[0].entries, vec![(Label(0), four)]);
}

#[test]
fn remove_block_cleans_up_after_it() {
    // 0 -> 1, and 2 -> 1 with nothing jumping to 2
    let mut b = two_blocks();
    let dead = b.create_block();
    b.append_op(dead, op(OpKind::Jump, vec![], vec![]), vec![Label(1)]);
    b.add_phi(Label(1), Value(5));
    b.add_phi_entry(Label(1), 0, Label(0), var(1));
    b.add_phi_entry(Label(1), 0, dead, var(2));
    assert_eq!(b.fun().graph_validate_global(), Ok(()));
    b.remove_block(dead);
    assert!(!b.fun().live(dead));
    assert_eq!(b.fun().get(Label(1)).back_refs, vec![Label(0)]);
    assert_eq!(b.fun().get(Label(1)).phi_nodes[0].entries, vec![(Label(0), var(1))]);
    assert_eq!(b.fun().graph_validate_global(), Ok(()));
}

#[test]
fn op_call_ends_the_block_in_a_tail_call() {
    let mut b = FunctionBuilder::new(Function::new());
    b.reserve_values(4);
    b.op_call(Label(0), Value(0), &[Value(1), Value(2)]);
    let f = b.finish();
    let root = f.get(Label(0));
    assert!(matches!(root.ops[0].kind, OpKind::Apply));
    assert_eq!(root.ops[0].reads, vec![var(0), var(1), var(2)]);
    assert_eq!(root.ops[0].writes, vec![Value(4), Value(5)]);
    assert_eq!(root.jumps, vec![Label(1), Label(2)]);
    assert!(matches!(f.get(Label(1)).ops[0].kind, OpKind::ReturnOk));
    assert_eq!(f.get(Label(1)).ops[0].reads, vec![var(4)]);
    assert!(matches!(f.get(Label(2)).ops[0].kind, OpKind::ReturnThrow));
    assert_eq!(f.get(Label(2)).ops[0].reads, vec![var(5)]);
    assert_eq!(f.graph_validate_global(), Ok(()));
}

#[test]
fn error_jump_passes_arguments_to_a_handler_that_takes_them() {
    let mut stack = ExceptionHandlerStack::new();
    stack.push_anon_handler(Value(8));
    stack.push_handler(Value(9));
    let mut b = FunctionBuilder::new(Function::new());
    b.reserve_values(10);
    stack.make_error_jump(&mut b, Label(0), Value(1), Value(2), Value(3));
    assert_eq!(b.fun().get(Label(0)).ops[0].reads, vec![var(9), var(1), var(2), var(3)]);
    assert_eq!(b.fun().graph_validate_global(), Ok(()));
}

#[test]
fn error_jump_passes_nothing_to_an_anonymous_handler() {
    let mut stack = ExceptionHandlerStack::new();
    stack.push_handler(Value(9));
    stack.push_anon_handler(Value(8));
    let mut b = FunctionBuilder::new(Function::new());
    b.reserve_values(10);
    stack.make_error_jump(&mut b, Label(0), Value(1), Value(2), Value(3));
    assert!(matches!(b.fun().get(Label(0)).ops[0].kind, OpKind::Apply));
    assert_eq!(b.fun().get(Label(0)).ops[0].reads, vec![var(8)]);
    stack.pop_handler();
    stack.pop_handler();
    assert_eq!(stack.balance(), Ok(()));
    stack.finish();
}
