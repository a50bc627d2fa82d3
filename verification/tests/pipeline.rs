use eir::builder::FunctionBuilder;
use eir::compile_pattern::{compile_case, CaseOutcome, CompilePatternPass};
use eir::function::{Function, Module};
use eir::ir::{Atom, AtomicLiteral, Clause, FunctionIdent, Label, Op, OpKind, Pattern, Source, Value};
use eir::pass::{FunctionPass, PassManager, PipelineError};
use eir::pattern::Decision;
use eir::simplify_cfg::{apply_step, find_step, simplify, SimplifyCfgPass, SimplifyStep};
use eir::validate::ValidationError;

fn op(kind: OpKind, reads: Vec<Source>, writes: Vec<Value>) -> Op {
    Op { kind, reads, writes }
}

fn var(v: u32) -> Source {
    Source::Variable(Value(v))
}

fn lit(i: i64) -> Pattern {
    Pattern::Literal(AtomicLiteral::Integer(i))
}

fn labels(ls: &[u32]) -> Vec<Label> {
    ls.iter().map(|l| Label(*l)).collect()
}

/// One case split over the scrutinee `Value(0)` with the clauses
/// `0 -> B1`, `x -> B2`, `_ -> B3`, where `x` is `Value(1)` and the body of
/// the second clause returns `x`.
fn three_clause_function() -> Function {
    let mut b = FunctionBuilder::new(Function::new());
    let s = b.fresh_value();
    let x = b.fresh_value();
    assert_eq!((s, x), (Value(0), Value(1)));
    let b1 = b.create_block();
    let b2 = b.create_block();
    let b3 = b.create_block();
    assert_eq!((b1, b2, b3), (Label(1), Label(2), Label(3)));
    b.append_op(b1, op(OpKind::ReturnOk, vec![Source::Constant(AtomicLiteral::Integer(10))], vec![]), vec![]);
    b.append_op(b2, op(OpKind::ReturnOk, vec![var(1)], vec![]), vec![]);
    b.append_op(b3, op(OpKind::ReturnOk, vec![Source::Constant(AtomicLiteral::Integer(30))], vec![]), vec![]);
    let clauses = vec![
        Clause { patterns: vec![lit(0)] },
        Clause { patterns: vec![Pattern::Variable(x)] },
        Clause { patterns: vec![Pattern::Wildcard] },
    ];
    b.append_op(Label(0), op(OpKind::Case { clauses }, vec![var(0)], vec![x]), vec![b1, b2, b3]);
    b.finish()
}

#[test]
fn case_split_function_is_sound_before_compilation() {
    let f = three_clause_function();
    assert_eq!(f.graph_validate_global(), Ok(()));
    assert_eq!(f.get(Label(1)).back_refs, labels(&[0]));
    assert_eq!(f.get(Label(0)).jumps, labels(&[1, 2, 3]));
}

#[test]
fn literal_variable_wildcard_end_to_end() {
    let mut b = FunctionBuilder::new(three_clause_function());
    let mut pass = CompilePatternPass::new();
    pass.run_function_pass(&mut b);
    assert_eq!(pass.skipped, 0);
    let f = b.finish();
    assert_eq!(f.graph_validate_global(), Ok(()));
    assert_eq!(f.blocks.len(), 9);
    // the block of the case split tests the scrutinee against 0
    let root = f.get(Label(0));
    assert_eq!(root.ops.len(), 1);
    assert!(matches!(root.ops[0].kind, OpKind::IsLiteral(AtomicLiteral::Integer(0))));
    assert_eq!(root.ops[0].reads, vec![var(0)]);
    assert!(root.ops[0].writes.is_empty());
    assert_eq!(root.jumps, labels(&[7, 8]));
    // on success: the first clause, through its landing block, to B1
    let yes = f.get(Label(7));
    assert!(matches!(yes.ops[0].kind, OpKind::Jump));
    assert_eq!(yes.jumps, labels(&[4]));
    let land1 = f.get(Label(4));
    assert!(land1.phi_nodes.is_empty());
    assert_eq!(land1.jumps, labels(&[1]));
    assert_eq!(land1.back_refs, labels(&[7]));
    assert_eq!(f.get(Label(1)).back_refs, labels(&[4]));
    // on failure: the default block jumps on without a test, and x is bound to the scrutinee
    let default = f.get(Label(8));
    assert_eq!(default.ops.len(), 1);
    assert!(matches!(default.ops[0].kind, OpKind::Jump));
    assert_eq!(default.jumps, labels(&[5]));
    let land2 = f.get(Label(5));
    assert_eq!(land2.phi_nodes.len(), 1);
    assert_eq!(land2.phi_nodes[0].ssa, Value(1));
    assert_eq!(land2.phi_nodes[0].entries, vec![(Label(8), var(0))]);
    assert_eq!(land2.jumps, labels(&[2]));
    // the third clause is dead, and still there
    let land3 = f.get(Label(6));
    assert!(land3.back_refs.is_empty());
    assert_eq!(land3.jumps, labels(&[3]));
    assert!(f.live(Label(3)));
    assert_eq!(f.get(Label(3)).back_refs, labels(&[6]));
}

#[test]
fn simplification_flags_the_dead_clause() {
    let mut b = FunctionBuilder::new(three_clause_function());
    CompilePatternPass::new().run_function_pass(&mut b);
    let mut simp = SimplifyCfgPass::new();
    simp.run_function_pass(&mut b);
    let f = b.finish();
    assert_eq!(f.graph_validate_global(), Ok(()));
    assert!(simp.applied.contains(&SimplifyStep::RemoveBlock(Label(3))));
    assert!(simp.applied.contains(&SimplifyStep::RemoveBlock(Label(6))));
    assert!(!f.live(Label(3)));
    // what is left: the test, and the two bodies it selects
    let root = f.get(Label(0));
    assert!(matches!(root.ops[0].kind, OpKind::IsLiteral(AtomicLiteral::Integer(0))));
    assert_eq!(root.jumps, labels(&[1, 2]));
    let live: Vec<usize> = (0..f.blocks.len()).filter(|i| f.blocks[*i].is_some()).collect();
    assert_eq!(live, vec![0, 1, 2]);
    // x was bound to the scrutinee: the body of the second clause returns the scrutinee
    assert_eq!(f.get(Label(2)).ops[0].reads, vec![var(0)]);
    assert!(f.get(Label(2)).phi_nodes.is_empty());
}

#[test]
fn simplifying_twice_is_simplifying_once() {
    let mut b = FunctionBuilder::new(three_clause_function());
    CompilePatternPass::new().run_function_pass(&mut b);
    let first = simplify(&mut b);
    assert!(!first.is_empty());
    let once = format!("{:?}", b.fun());
    let second = simplify(&mut b);
    assert!(second.is_empty());
    assert_eq!(format!("{:?}", b.fun()), once);
    assert_eq!(find_step(b.fun()), None);
}

#[test]
fn compile_case_reports_what_is_not_a_case() {
    let mut b = FunctionBuilder::new(three_clause_function());
    assert!(matches!(compile_case(&mut b, Label(1)), CaseOutcome::NotACase));
    assert!(matches!(compile_case(&mut b, Label(42)), CaseOutcome::NotACase));
    match compile_case(&mut b, Label(0)) {
        CaseOutcome::Compiled(Decision::Test { column: 0, .. }) => {}
        other => panic!("unexpected outcome {:?}", other),
    }
    assert!(matches!(compile_case(&mut b, Label(0)), CaseOutcome::NotACase));
}

#[test]
fn compile_case_without_room_changes_nothing() {
    let mut f = three_clause_function();
    f.next_value = u32::MAX;
    let clauses = vec![Clause { patterns: vec![Pattern::Tuple(vec![Pattern::Wildcard])] }];
    f.blocks[0].as_mut().unwrap().ops[0].kind = OpKind::Case { clauses };
    f.blocks[0].as_mut().unwrap().jumps = labels(&[1]);
    f.blocks[2].as_mut().unwrap().back_refs.clear();
    f.blocks[3].as_mut().unwrap().back_refs.clear();
    let before = format!("{:?}", f);
    let mut b = FunctionBuilder::new(f);
    assert!(matches!(compile_case(&mut b, Label(0)), CaseOutcome::TooLarge(_)));
    assert_eq!(format!("{:?}", b.fun()), before);
    let mut pass = CompilePatternPass::new();
    pass.run_function_pass(&mut b);
    assert_eq!(pass.skipped, 1);
}

#[test]
fn empty_case_split_compiles_to_match_failure() {
    let mut b = FunctionBuilder::new(Function::new());
    let s = b.fresh_value();
    b.append_op(Label(0), op(OpKind::Case { clauses: vec![] }, vec![Source::Variable(s)], vec![]), vec![]);
    CompilePatternPass::new().run_function_pass(&mut b);
    let f = b.finish();
    assert_eq!(f.blocks.len(), 1);
    assert!(matches!(f.get(Label(0)).ops[0].kind, OpKind::MatchFail));
    assert_eq!(f.graph_validate_global(), Ok(()));
}

#[test]
fn existing_phi_of_a_body_is_rekeyed_to_the_landing_block() {
    // B1 has a phi node for its one predecessor, the block of the case split
    let mut f = three_clause_function();
    f.next_value = 3;
    f.blocks[1].as_mut().unwrap().phi_nodes.push(eir::ir::Phi { entries: vec![(Label(0), var(0))], ssa: Value(2) });
    assert_eq!(f.graph_validate_global(), Ok(()));
    let mut b = FunctionBuilder::new(f);
    CompilePatternPass::new().run_function_pass(&mut b);
    let f = b.finish();
    assert_eq!(f.get(Label(1)).phi_nodes[0].entries, vec![(Label(4), var(0))]);
    assert_eq!(f.graph_validate_global(), Ok(()));
}

#[test]
fn tuple_patterns_unpack_into_fresh_values() {
    let mut b = FunctionBuilder::new(Function::new());
    let s = b.fresh_value();
    let x = b.fresh_value();
    let y = b.fresh_value();
    let body = b.create_block();
    b.append_op(body, op(OpKind::ReturnOk, vec![Source::Variable(y)], vec![]), vec![]);
    let clauses = vec![Clause { patterns: vec![Pattern::Tuple(vec![Pattern::Variable(x), Pattern::Variable(y)])] }];
    b.append_op(Label(0), op(OpKind::Case { clauses }, vec![Source::Variable(s)], vec![x, y]), vec![body]);
    CompilePatternPass::new().run_function_pass(&mut b);
    let f = b.finish();
    assert_eq!(f.graph_validate_global(), Ok(()));
    let root = f.get(Label(0));
    assert!(matches!(root.ops[0].kind, OpKind::UnpackTuple { arity: 2 }));
    assert_eq!(root.ops[0].reads, vec![Source::Variable(s)]);
    assert_eq!(root.ops[0].writes, vec![Value(3), Value(4)]);
    assert_eq!(f.next_value, 5);
    // landing block 2, then the blocks of the test: 3 on success, 4 on failure
    assert_eq!(root.jumps, labels(&[3, 4]));
    assert!(matches!(f.get(Label(4)).ops[0].kind, OpKind::MatchFail));
    let land = f.get(Label(2));
    assert_eq!(land.phi_nodes[0].ssa, x);
    assert_eq!(land.phi_nodes[0].entries, vec![(Label(3), var(3))]);
    assert_eq!(land.phi_nodes[1].ssa, y);
    assert_eq!(land.phi_nodes[1].entries, vec![(Label(3), var(4))]);
}

#[test]
fn default_pipeline_runs_over_a_module() {
    let id = |n: u32| FunctionIdent { module: Atom(0), name: Atom(n), arity: 1 };
    let mut module = Module { functions: vec![(id(1), three_clause_function()), (id(2), three_clause_function())] };
    let mut man = PassManager::default();
    assert_eq!(man.run(&mut module), Ok(()));
    assert_eq!(module.functions.len(), 2);
    assert_eq!(module.functions[0].0, id(1));
    for (_, f) in &module.functions {
        assert_eq!(f.graph_validate_global(), Ok(()));
        assert!(f.blocks.iter().flatten().all(|b| b.ops.iter().all(|o| !matches!(o.kind, OpKind::Case { .. }))));
    }
}

#[test]
fn pipeline_stops_at_the_first_broken_function() {
    let id = |n: u32| FunctionIdent { module: Atom(0), name: Atom(n), arity: 1 };
    let mut broken = three_clause_function();
    broken.blocks[1].as_mut().unwrap().back_refs.clear();
    let mut module = Module { functions: vec![(id(1), three_clause_function()), (id(2), broken), (id(3), three_clause_function())] };
    let mut man = PassManager::default();
    assert_eq!(man.run(&mut module), Err(PipelineError { function: 1, error: ValidationError::BackReference }));
    // the first was compiled, the third was not touched
    assert_eq!(module.functions[0].1.blocks.len(), 9);
    assert_eq!(module.functions[2].1.blocks.len(), 4);
}

#[test]
fn pipeline_reports_what_a_pass_leaves_unsound() {
    // an unterminated block passes the builder's invariant and fails validation
    let mut man = PassManager::new();
    man.push_function_pass(SimplifyCfgPass::new());
    let (f, r) = man.run_function(Function::new());
    assert_eq!(r, Err(ValidationError::JumpArity));
    assert_eq!(f.blocks.len(), 1);
}

#[test]
fn empty_pipeline_only_validates() {
    let mut man = PassManager::new();
    let (f, r) = man.run_function(three_clause_function());
    assert_eq!(r, Ok(()));
    assert!(matches!(f.get(Label(0)).ops[0].kind, OpKind::Case { .. }));
}

#[test]
fn threading_keeps_phi_entries_in_step() {
    // 0 -> 1 -> 2, where 1 only jumps on and 2 has a phi node
    let mut b = FunctionBuilder::new(Function::new());
    let v = b.fresh_value();
    let w = b.fresh_value();
    let mid = b.create_block();
    let end = b.create_block();
    b.append_op(end, op(OpKind::ReturnOk, vec![Source::Variable(w)], vec![]), vec![]);
    let k = b.add_phi(end, w);
    b.append_op(mid, op(OpKind::Jump, vec![], vec![]), vec![end]);
    b.add_phi_entry(end, k, mid, Source::Variable(v));
    b.append_op(Label(0), op(OpKind::Move, vec![Source::Constant(AtomicLiteral::Nil)], vec![v]), vec![]);
    b.append_op(Label(0), op(OpKind::Jump, vec![], vec![]), vec![mid]);
    assert_eq!(b.fun().graph_validate_global(), Ok(()));
    assert_eq!(find_step(b.fun()), Some(SimplifyStep::Thread(mid)));
    apply_step(&mut b, SimplifyStep::Thread(mid));
    assert_eq!(b.fun().graph_validate_global(), Ok(()));
    assert_eq!(b.fun().get(Label(0)).jumps, vec![end]);
    assert_eq!(b.fun().get(end).phi_nodes[0].entries, vec![(Label(0), Source::Variable(v))]);
    assert!(!b.fun().live(mid));
    // then the phi node has one entry and collapses into its operand
    assert_eq!(find_step(b.fun()), Some(SimplifyStep::CollapsePhi(end, 0)));
    let log = simplify(&mut b);
    assert_eq!(log, vec![SimplifyStep::CollapsePhi(end, 0)]);
    assert_eq!(b.fun().get(end).ops[0].reads, vec![Source::Variable(v)]);
    assert_eq!(b.fun().graph_validate_global(), Ok(()));
}

#[test]
fn default_pipeline_keeps_a_sound_function_sound() {
    let (f, r) = eir::pass::run_default_pipeline(three_clause_function());
    assert_eq!(r, Ok(()));
    assert_eq!(f.graph_validate_global(), Ok(()));
    assert_eq!(f.blocks.len(), 9);
}

#[test]
fn default_passes_report_no_skipped_case() {
    let mut b = FunctionBuilder::new(three_clause_function());
    assert_eq!(eir::pass::run_default_passes(&mut b), 0);
    assert!(b.fun().blocks.iter().flatten().all(|blk| !matches!(blk.ops.last().unwrap().kind, OpKind::Case { .. })));
}

#[test]
fn variable_defined_outside_its_case_split_ends_up_defined_twice() {
    // the second clause binds x, but the case split does not define x: the block of the first clause does
    let mut f = three_clause_function();
    f.blocks[0].as_mut().unwrap().ops[0].writes.clear();
    f.blocks[1].as_mut().unwrap().ops.insert(0, op(OpKind::Move, vec![var(0)], vec![Value(1)]));
    assert_eq!(f.graph_validate_global(), Ok(()));
    let (_, r) = eir::pass::run_default_pipeline(f);
    assert_eq!(r, Err(ValidationError::MultipleDefinition));
}

#[test]
fn default_pipeline_leaves_a_broken_graph_alone() {
    let mut f = three_clause_function();
    f.blocks[3] = None;
    let (g, r) = eir::pass::run_default_pipeline(f);
    assert_eq!(r, Err(ValidationError::DanglingLabel));
    assert!(matches!(g.get(Label(0)).ops[0].kind, OpKind::Case { .. }));
    assert_eq!(g.blocks.len(), 4);
}

#[test]
fn two_clauses_with_one_body_get_a_landing_block_each() {
    let mut b = FunctionBuilder::new(Function::new());
    let s = b.fresh_value();
    let w = b.fresh_value();
    let body = b.create_block();
    b.append_op(body, op(OpKind::ReturnOk, vec![Source::Variable(w)], vec![]), vec![]);
    let k = b.add_phi(body, w);
    let clauses = vec![Clause { patterns: vec![lit(1)] }, Clause { patterns: vec![lit(2)] }];
    b.append_op(Label(0), op(OpKind::Case { clauses }, vec![Source::Variable(s)], vec![]), vec![body, body]);
    b.add_phi_entry(body, k, Label(0), Source::Constant(AtomicLiteral::Nil));
    assert_eq!(b.fun().graph_validate_global(), Ok(()));
    assert_eq!(b.fun().get(body).back_refs, labels(&[0]));
    CompilePatternPass::new().run_function_pass(&mut b);
    let f = b.finish();
    assert_eq!(f.graph_validate_global(), Ok(()));
    // the body has the two landing blocks as predecessors, and its phi node an entry for each
    assert_eq!(f.get(body).back_refs, labels(&[2, 3]));
    let nil = Source::Constant(AtomicLiteral::Nil);
    assert_eq!(f.get(body).phi_nodes[0].entries, vec![(Label(2), nil), (Label(3), nil)]);
    // test for 1, and on failure test for 2, and on failure fail
    assert!(matches!(f.get(Label(0)).ops[0].kind, OpKind::IsLiteral(AtomicLiteral::Integer(1))));
    let second = f.get(Label(0)).jumps[1];
    assert!(matches!(f.get(second).ops[0].kind, OpKind::IsLiteral(AtomicLiteral::Integer(2))));
    let fail = f.get(second).jumps[1];
    assert!(matches!(f.get(fail).ops[0].kind, OpKind::MatchFail));
}

#[test]
fn nested_case_splits_are_both_compiled() {
    // the body of the first clause of the outer case split ends in a case split itself
    let mut b = FunctionBuilder::new(Function::new());
    let s = b.fresh_value();
    let inner = b.create_block();
    let leaf = b.create_block();
    b.append_op(leaf, op(OpKind::ReturnOk, vec![Source::Variable(s)], vec![]), vec![]);
    b.append_op(inner, op(OpKind::Case { clauses: vec![Clause { patterns: vec![Pattern::Wildcard] }] }, vec![Source::Variable(s)], vec![]), vec![leaf]);
    b.append_op(Label(0), op(OpKind::Case { clauses: vec![Clause { patterns: vec![lit(7)] }] }, vec![Source::Variable(s)], vec![]), vec![inner]);
    let mut pass = CompilePatternPass::new();
    pass.run_function_pass(&mut b);
    assert_eq!(pass.skipped, 0);
    let f = b.finish();
    assert_eq!(f.graph_validate_global(), Ok(()));
    assert!(matches!(f.get(Label(0)).ops[0].kind, OpKind::IsLiteral(AtomicLiteral::Integer(7))));
    assert!(matches!(f.get(inner).ops[0].kind, OpKind::Jump));
    let (g, r) = eir::pass::run_default_pipeline(f);
    assert_eq!(r, Ok(()));
    let mut b2 = FunctionBuilder::new(g);
    simplify(&mut b2);
    assert_eq!(b2.fun().graph_validate_global(), Ok(()));
}

#[test]
fn standard_pipeline_with_simplification_leaves_the_test_and_two_bodies() {
    let (f, r) = eir::pass::run_standard_pipeline(three_clause_function(), vec![], true);
    assert_eq!(r, Ok(()));
    let live: Vec<usize> = (0..f.blocks.len()).filter(|i| f.blocks[*i].is_some()).collect();
    assert_eq!(live, vec![0, 1, 2]);
    assert_eq!(f.get(Label(0)).jumps, labels(&[1, 2]));
}

#[test]
fn next_step_is_taken_at_the_first_block_that_has_one() {
    let mut b = FunctionBuilder::new(three_clause_function());
    CompilePatternPass::new().run_function_pass(&mut b);
    // block 4, the landing block of the first clause, only jumps on and has one predecessor
    assert_eq!(find_step(b.fun()), Some(SimplifyStep::Thread(Label(4))));
    apply_step(&mut b, SimplifyStep::Thread(Label(4)));
    // block 5 has a phi node with one entry: collapsing comes before threading
    assert_eq!(find_step(b.fun()), Some(SimplifyStep::CollapsePhi(Label(5), 0)));
}

/// A pass that appends one operation, marked with its number, to the entry.
struct Mark(u32);

impl FunctionPass for Mark {
    fn run_function_pass(&mut self, b: &mut FunctionBuilder) {
        let entry = b.fun().entry;
        b.append_op(entry, op(OpKind::PrimOp(Atom(self.0)), vec![], vec![]), vec![]);
    }
}

#[test]
fn passes_run_in_the_order_they_were_pushed() {
    let mut man = PassManager::new();
    man.push_function_pass(Mark(1));
    man.push_function_pass(Mark(2));
    man.push_function_pass(Mark(3));
    assert_eq!(man.pass_count(), 3);
    let (f, _) = man.run_function(Function::new());
    let marks: Vec<u32> = f
        .get(Label(0))
        .ops
        .iter()
        .map(|o| match o.kind {
            OpKind::PrimOp(Atom(n)) => n,
            _ => 0,
        })
        .collect();
    assert_eq!(marks, vec![1, 2, 3]);
    // the passes stay: a second run appends the same marks again
    let (g, _) = man.run_function(f);
    assert_eq!(g.get(Label(0)).ops.len(), 6);
}

#[test]
fn pushed_pass_is_the_one_that_runs() {
    let mut man = PassManager::new();
    man.push_function_pass(CompilePatternPass::new());
    assert_eq!(man.pass_count(), 1);
    let (f, r) = man.run_function(three_clause_function());
    assert_eq!(r, Ok(()));
    assert!(f.blocks.iter().flatten().all(|b| b.ops.iter().all(|o| !matches!(o.kind, OpKind::Case { .. }))));
    assert_eq!(f.blocks.len(), 9);
}

#[test]
fn default_pipeline_is_compilation_then_inlining() {
    let mut man = PassManager::default();
    assert_eq!(man.pass_count(), 2);
    let mut b = FunctionBuilder::new(three_clause_function());
    man.run_pass(0, &mut b);
    assert!(b.fun().blocks.iter().flatten().all(|bl| bl.ops.iter().all(|o| !matches!(o.kind, OpKind::Case { .. }))));
    let compiled = format!("{:?}", b.fun());
    man.run_pass(1, &mut b);
    assert_eq!(format!("{:?}", b.fun()), compiled);
    // the whole pipeline leaves the same graph
    let (f, r) = PassManager::default().run_function(three_clause_function());
    assert_eq!(r, Ok(()));
    assert_eq!(format!("{:?}", f), compiled);
    // and so do the fixed pipelines
    let (g, _) = eir::pass::run_default_pipeline(three_clause_function());
    assert_eq!(format!("{:?}", g), compiled);
    let (h, _) = eir::pass::run_standard_pipeline(three_clause_function(), vec![], false);
    assert_eq!(format!("{:?}", h), compiled);
}

#[test]
fn empty_pipeline_leaves_the_module_as_it_is() {
    let id = |n: u32| FunctionIdent { module: Atom(0), name: Atom(n), arity: 1 };
    let mut module = Module { functions: vec![(id(1), three_clause_function()), (id(2), Function::new())] };
    let before = format!("{:?}", module);
    let mut man = PassManager::new();
    assert_eq!(man.pass_count(), 0);
    // the second function has an unterminated block: the run stops there
    assert_eq!(man.run(&mut module), Err(PipelineError { function: 1, error: ValidationError::JumpArity }));
    assert_eq!(format!("{:?}", module), before);
}

#[test]
fn standard_pipeline_reads_its_switch() {
    let (plain, _) = eir::pass::run_standard_pipeline(three_clause_function(), vec![], false);
    let (simple, r) = eir::pass::run_standard_pipeline(three_clause_function(), vec![], true);
    assert_eq!(r, Ok(()));
    assert_eq!(plain.blocks.iter().flatten().count(), 9);
    assert!(simple.blocks.iter().flatten().count() < 9);
}
