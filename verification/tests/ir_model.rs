use eir::function::Function;
use eir::ir::{Atom, AtomicLiteral, BasicBlock, Clause, FunctionIdent, Label, LambdaEnvIdx, Op, OpKind, Pattern, Phi, Source, Value};
use eir::validate::ValidationError;

fn ident() -> FunctionIdent {
    FunctionIdent { module: Atom(1), name: Atom(2), arity: 0 }
}

fn op(kind: OpKind, reads: Vec<Source>, writes: Vec<Value>) -> Op {
    Op { kind, reads, writes }
}

fn block(label: u32, back_refs: Vec<u32>, phis: Vec<Phi>, ops: Vec<Op>, jumps: Vec<u32>) -> Option<BasicBlock> {
    Some(BasicBlock {
        label: Label(label),
        back_refs: back_refs.into_iter().map(Label).collect(),
        phi_nodes: phis,
        ops,
        jumps: jumps.into_iter().map(Label).collect(),
    })
}

fn ret(v: u32) -> Op {
    op(OpKind::ReturnOk, vec![Source::Variable(Value(v))], vec![])
}

/// entry 0: call -> 1 (result), 2 (exception); 1 and 2 return.
fn call_graph() -> Function {
    Function {
        blocks: vec![
            block(0, vec![], vec![], vec![op(OpKind::Call, vec![Source::Constant(AtomicLiteral::Atom(Atom(7))), Source::Constant(AtomicLiteral::Atom(Atom(8)))], vec![Value(0), Value(1)])], vec![1, 2]),
            block(1, vec![0], vec![], vec![ret(0)], vec![]),
            block(2, vec![0], vec![], vec![op(OpKind::ReturnThrow, vec![Source::Variable(Value(1))], vec![])], vec![]),
        ],
        entry: Label(0),
        next_value: 2,
    }
}

#[test]
fn num_jumps_of_every_kind() {
    assert_eq!(OpKind::Move.num_jumps(), None);
    assert_eq!(OpKind::Call.num_jumps(), Some(2));
    assert_eq!(OpKind::Apply.num_jumps(), Some(2));
    assert_eq!(OpKind::CaptureNamedFunction(ident()).num_jumps(), None);
    assert_eq!(OpKind::MakeTuple.num_jumps(), None);
    assert_eq!(OpKind::MakeList.num_jumps(), None);
    assert_eq!(OpKind::MakeClosureEnv { env_idx: LambdaEnvIdx(0) }.num_jumps(), None);
    assert_eq!(OpKind::BindClosure { ident: ident() }.num_jumps(), None);
    assert_eq!(OpKind::Jump.num_jumps(), Some(1));
    assert_eq!(OpKind::PrimOp(Atom(3)).num_jumps(), None);
    assert_eq!(OpKind::ReturnOk.num_jumps(), Some(0));
    assert_eq!(OpKind::ReturnThrow.num_jumps(), Some(0));
    assert_eq!(OpKind::IsLiteral(AtomicLiteral::Nil).num_jumps(), Some(2));
    assert_eq!(OpKind::UnpackTuple { arity: 3 }.num_jumps(), Some(2));
    assert_eq!(OpKind::MatchFail.num_jumps(), Some(0));
}

#[test]
fn case_has_one_jump_per_clause() {
    let clauses = vec![
        Clause { patterns: vec![Pattern::Wildcard] },
        Clause { patterns: vec![Pattern::Literal(AtomicLiteral::Integer(1))] },
        Clause { patterns: vec![Pattern::Variable(Value(9))] },
    ];
    assert_eq!(OpKind::Case { clauses }.num_jumps(), Some(3));
    assert_eq!(OpKind::Case { clauses: vec![] }.num_jumps(), Some(0));
}

#[test]
fn new_function_has_one_empty_entry_block() {
    let f = Function::new();
    assert_eq!(f.blocks.len(), 1);
    assert_eq!(f.entry, Label(0));
    assert!(f.live(Label(0)));
    assert!(!f.live(Label(1)));
    assert_eq!(f.get(Label(0)).ops.len(), 0);
    // an empty block is not terminated
    assert_eq!(f.graph_validate_global(), Err(ValidationError::JumpArity));
}

#[test]
fn sound_graph_validates() {
    assert_eq!(call_graph().graph_validate_global(), Ok(()));
    assert_eq!(call_graph().collect_defs(), vec![Value(0), Value(1)]);
}

#[test]
fn block_under_wrong_label_is_an_arena_error() {
    let mut f = call_graph();
    f.blocks[1].as_mut().unwrap().label = Label(2);
    assert_eq!(f.graph_validate_global(), Err(ValidationError::Arena));
}

#[test]
fn dead_entry_is_an_arena_error() {
    let mut f = call_graph();
    f.entry = Label(9);
    assert_eq!(f.graph_validate_global(), Err(ValidationError::Arena));
}

#[test]
fn jump_to_deleted_block_is_dangling() {
    let mut f = call_graph();
    f.blocks[2] = None;
    assert_eq!(f.graph_validate_global(), Err(ValidationError::DanglingLabel));
}

#[test]
fn jump_beyond_arena_is_dangling() {
    let mut f = call_graph();
    f.blocks[0].as_mut().unwrap().jumps[1] = Label(17);
    assert_eq!(f.graph_validate_global(), Err(ValidationError::DanglingLabel));
}

#[test]
fn missing_back_reference_is_reported() {
    let mut f = call_graph();
    f.blocks[1].as_mut().unwrap().back_refs.clear();
    assert_eq!(f.graph_validate_global(), Err(ValidationError::BackReference));
}

#[test]
fn stale_back_reference_is_reported() {
    let mut f = call_graph();
    f.blocks[1].as_mut().unwrap().back_refs.push(Label(2));
    assert_eq!(f.graph_validate_global(), Err(ValidationError::BackReference));
}

#[test]
fn duplicate_back_reference_is_reported() {
    let mut f = call_graph();
    f.blocks[1].as_mut().unwrap().back_refs.push(Label(0));
    assert_eq!(f.graph_validate_global(), Err(ValidationError::BackReference));
}

#[test]
fn wrong_successor_count_is_an_arity_error() {
    // a jump with two successors, both recorded as predecessors
    let f = Function {
        blocks: vec![
            block(0, vec![], vec![], vec![op(OpKind::Jump, vec![], vec![])], vec![1, 1]),
            block(1, vec![0], vec![], vec![op(OpKind::ReturnOk, vec![Source::Constant(AtomicLiteral::Nil)], vec![])], vec![]),
        ],
        entry: Label(0),
        next_value: 0,
    };
    assert_eq!(f.graph_validate_global(), Err(ValidationError::JumpArity));
}

#[test]
fn terminator_in_the_middle_is_an_arity_error() {
    let mut f = call_graph();
    f.blocks[1].as_mut().unwrap().ops.insert(0, op(OpKind::ReturnOk, vec![], vec![]));
    assert_eq!(f.graph_validate_global(), Err(ValidationError::JumpArity));
}

#[test]
fn unterminated_block_is_an_arity_error() {
    let mut f = call_graph();
    f.blocks[1].as_mut().unwrap().ops = vec![op(OpKind::Move, vec![Source::Variable(Value(0))], vec![Value(5)])];
    assert_eq!(f.graph_validate_global(), Err(ValidationError::JumpArity));
}

#[test]
fn phi_missing_a_predecessor_is_reported() {
    let mut f = call_graph();
    f.blocks[1].as_mut().unwrap().phi_nodes.push(Phi { entries: vec![], ssa: Value(5) });
    assert_eq!(f.graph_validate_global(), Err(ValidationError::PhiEntries));
}

#[test]
fn phi_with_stale_entry_is_reported() {
    let mut f = call_graph();
    f.blocks[1].as_mut().unwrap().phi_nodes.push(Phi {
        entries: vec![(Label(0), Source::Variable(Value(0))), (Label(2), Source::Variable(Value(0)))],
        ssa: Value(5),
    });
    assert_eq!(f.graph_validate_global(), Err(ValidationError::PhiEntries));
}

#[test]
fn phi_with_duplicate_entry_is_reported() {
    let mut f = call_graph();
    f.blocks[1].as_mut().unwrap().phi_nodes.push(Phi {
        entries: vec![(Label(0), Source::Variable(Value(0))), (Label(0), Source::Variable(Value(1)))],
        ssa: Value(5),
    });
    assert_eq!(f.graph_validate_global(), Err(ValidationError::PhiEntries));
}

#[test]
fn complete_phi_validates() {
    let mut f = call_graph();
    f.blocks[1].as_mut().unwrap().phi_nodes.push(Phi { entries: vec![(Label(0), Source::Variable(Value(0)))], ssa: Value(5) });
    assert_eq!(f.graph_validate_global(), Ok(()));
}

#[test]
fn value_defined_twice_is_reported() {
    let mut f = call_graph();
    f.blocks[1].as_mut().unwrap().ops.insert(0, op(OpKind::Move, vec![Source::Variable(Value(1))], vec![Value(0)]));
    assert_eq!(f.graph_validate_global(), Err(ValidationError::MultipleDefinition));
}

#[test]
fn phi_and_operation_defining_one_value_is_reported() {
    let mut f = call_graph();
    f.blocks[1].as_mut().unwrap().phi_nodes.push(Phi { entries: vec![(Label(0), Source::Variable(Value(0)))], ssa: Value(1) });
    assert_eq!(f.graph_validate_global(), Err(ValidationError::MultipleDefinition));
}

#[test]
fn earlier_invariant_wins() {
    // both a dangling jump and a doubly defined value: the dangling jump is reported
    let mut f = call_graph();
    f.blocks[1].as_mut().unwrap().ops.insert(0, op(OpKind::Move, vec![], vec![Value(0)]));
    f.blocks[2] = None;
    assert_eq!(f.graph_validate_global(), Err(ValidationError::DanglingLabel));
}
