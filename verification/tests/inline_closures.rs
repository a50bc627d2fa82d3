use eir::builder::FunctionBuilder;
use eir::function::Function;
use eir::ir::{Atom, AtomicLiteral, Clause, FunctionIdent, Label, Op, OpKind, Pattern, Source, Value};
use eir::naive_inline_closures::{inline_call, is_self_referential, lambda_binds, InlineOutcome, Lambda, NaiveInlineClosuresPass, Resolution};
use eir::pass::{run_standard_pipeline, FunctionPass, PassManager};

fn op(kind: OpKind, reads: Vec<Source>, writes: Vec<Value>) -> Op {
    Op { kind, reads, writes }
}

fn var(v: u32) -> Source {
    Source::Variable(Value(v))
}

fn name(n: u32) -> FunctionIdent {
    FunctionIdent { module: Atom(0), name: Atom(n), arity: 1 }
}

/// A body that adds its captured value (`Value(0)`) to its parameter
/// (`Value(1)`) and returns the sum (`Value(2)`).
fn adder(ident: FunctionIdent) -> Lambda {
    let mut b = FunctionBuilder::new(Function::new());
    b.reserve_values(3);
    b.append_op(Label(0), op(OpKind::PrimOp(Atom(99)), vec![var(0), var(1)], vec![Value(2)]), vec![]);
    b.append_op(Label(0), op(OpKind::ReturnOk, vec![var(2)], vec![]), vec![]);
    Lambda { ident, captures: vec![Value(0)], params: vec![Value(1)], body: b.finish() }
}

/// A body that binds a closure over `other` and returns it.
fn binder(ident: FunctionIdent, other: FunctionIdent) -> Lambda {
    let mut b = FunctionBuilder::new(Function::new());
    b.reserve_values(3);
    b.append_op(Label(0), op(OpKind::BindClosure { ident: other }, vec![var(0)], vec![Value(2)]), vec![]);
    b.append_op(Label(0), op(OpKind::ReturnOk, vec![var(2)], vec![]), vec![]);
    Lambda { ident, captures: vec![Value(0)], params: vec![Value(1)], body: b.finish() }
}

/// A function that binds a closure over `ident`, capturing `Value(0)`,
/// calls it with `Value(1)` and returns the result or throws the
/// exception.
fn caller(ident: FunctionIdent) -> Function {
    let mut b = FunctionBuilder::new(Function::new());
    b.reserve_values(5);
    let ok = b.create_block();
    let throw = b.create_block();
    b.append_op(ok, op(OpKind::ReturnOk, vec![var(3)], vec![]), vec![]);
    b.append_op(throw, op(OpKind::ReturnThrow, vec![var(4)], vec![]), vec![]);
    b.append_op(Label(0), op(OpKind::BindClosure { ident }, vec![var(0)], vec![Value(2)]), vec![]);
    b.append_op(Label(0), op(OpKind::Apply, vec![var(2), var(1)], vec![Value(3), Value(4)]), vec![ok, throw]);
    let f = b.finish();
    assert_eq!(f.graph_validate_global(), Ok(()));
    f
}

#[test]
fn known_closure_is_inlined() {
    let table = vec![adder(name(1))];
    let mut b = FunctionBuilder::new(caller(name(1)));
    let r = inline_call(&mut b, &table, Label(0));
    assert_eq!(r, InlineOutcome::Inlined(Resolution { block: Label(0), op: 0, lambda: 0 }, Label(5)));
    let f = b.finish();
    assert_eq!(f.graph_validate_global(), Ok(()));
    // the call has become a jump into the copy of the body
    let root = f.get(Label(0));
    assert_eq!(root.ops.len(), 2);
    assert!(matches!(root.ops[0].kind, OpKind::BindClosure { .. }));
    assert!(matches!(root.ops[1].kind, OpKind::Jump));
    assert_eq!(root.jumps, vec![Label(5)]);
    // the copy reads the captured operand and the argument, and defines a fresh value
    let copy = f.get(Label(5));
    assert!(matches!(copy.ops[0].kind, OpKind::PrimOp(Atom(99))));
    assert_eq!(copy.ops[0].reads, vec![var(0), var(1)]);
    assert_eq!(copy.ops[0].writes, vec![Value(7)]);
    assert_eq!(f.next_value, 8);
    // the return has become a jump to the landing block of the result
    assert!(matches!(copy.ops[1].kind, OpKind::Jump));
    assert_eq!(copy.jumps, vec![Label(3)]);
    let land = f.get(Label(3));
    assert_eq!(land.phi_nodes[0].ssa, Value(3));
    assert_eq!(land.phi_nodes[0].entries, vec![(Label(5), var(7))]);
    assert_eq!(land.jumps, vec![Label(1)]);
    // nothing in the body throws: the landing block of the exception has no predecessor
    let land_throw = f.get(Label(4));
    assert_eq!(land_throw.phi_nodes[0].ssa, Value(4));
    assert!(land_throw.phi_nodes[0].entries.is_empty());
    assert!(land_throw.back_refs.is_empty());
    assert_eq!(land_throw.jumps, vec![Label(2)]);
}

#[test]
fn self_referential_closure_is_left_alone() {
    let table = vec![binder(name(1), name(1))];
    assert!(lambda_binds(&table[0], name(1)));
    assert!(is_self_referential(&table, 0));
    let mut b = FunctionBuilder::new(caller(name(1)));
    let before = format!("{:?}", b.fun());
    let r = inline_call(&mut b, &table, Label(0));
    assert_eq!(r, InlineOutcome::SelfReferential(Resolution { block: Label(0), op: 0, lambda: 0 }));
    assert_eq!(format!("{:?}", b.fun()), before);
}

#[test]
fn closure_in_a_cycle_is_left_alone() {
    let table = vec![binder(name(1), name(2)), adder(name(3)), binder(name(2), name(1))];
    assert!(is_self_referential(&table, 0));
    assert!(!is_self_referential(&table, 1));
    assert!(is_self_referential(&table, 2));
    let mut b = FunctionBuilder::new(caller(name(2)));
    let before = format!("{:?}", b.fun());
    assert_eq!(inline_call(&mut b, &table, Label(0)), InlineOutcome::SelfReferential(Resolution { block: Label(0), op: 0, lambda: 2 }));
    assert_eq!(format!("{:?}", b.fun()), before);
}

#[test]
fn chain_without_cycle_is_not_self_referential() {
    let table = vec![binder(name(1), name(2)), binder(name(2), name(3)), adder(name(3))];
    assert!(!is_self_referential(&table, 0));
    assert!(!is_self_referential(&table, 1));
    assert!(!is_self_referential(&table, 2));
    assert!(lambda_binds(&table[0], name(2)));
    assert!(!lambda_binds(&table[0], name(3)));
}

#[test]
fn unknown_closure_is_left_alone() {
    let table = vec![adder(name(1))];
    let mut b = FunctionBuilder::new(caller(name(5)));
    assert_eq!(inline_call(&mut b, &table, Label(0)), InlineOutcome::UnknownClosure);
    assert_eq!(inline_call(&mut b, &table, Label(1)), InlineOutcome::NotACall);
    assert_eq!(inline_call(&mut b, &table, Label(77)), InlineOutcome::NotACall);
}

#[test]
fn lambda_that_does_not_fit_is_left_alone() {
    let mut two_params = adder(name(1));
    two_params.params.push(Value(2));
    let mut b = FunctionBuilder::new(caller(name(1)));
    let at = Resolution { block: Label(0), op: 0, lambda: 0 };
    assert_eq!(inline_call(&mut b, &vec![two_params], Label(0)), InlineOutcome::Unfit(at));
    // a body that is not sound does not fit either
    let mut unsound = adder(name(1));
    unsound.body.blocks[0].as_mut().unwrap().ops.pop();
    assert_eq!(inline_call(&mut b, &vec![unsound], Label(0)), InlineOutcome::Unfit(at));
}

#[test]
fn body_without_room_is_left_alone() {
    let mut f = caller(name(1));
    f.next_value = u32::MAX - 1;
    let mut b = FunctionBuilder::new(f);
    let at = Resolution { block: Label(0), op: 0, lambda: 0 };
    assert_eq!(inline_call(&mut b, &vec![adder(name(1))], Label(0)), InlineOutcome::TooLarge(at));
}

#[test]
fn pass_inlines_every_call_it_finds() {
    let mut pass = NaiveInlineClosuresPass::with_lambdas(vec![adder(name(1))]);
    let mut b = FunctionBuilder::new(caller(name(1)));
    pass.run_function_pass(&mut b);
    assert_eq!(pass.inlined, 1);
    assert_eq!(
        pass.outcomes,
        vec![
            InlineOutcome::Inlined(Resolution { block: Label(0), op: 0, lambda: 0 }, Label(5)),
            InlineOutcome::NotACall,
            InlineOutcome::NotACall,
        ]
    );
    assert_eq!(b.fun().graph_validate_global(), Ok(()));
    // a second run finds no call
    pass.run_function_pass(&mut b);
    assert_eq!(pass.inlined, 0);
}

#[test]
fn pass_without_lambdas_changes_nothing() {
    let mut pass = NaiveInlineClosuresPass::new();
    let mut b = FunctionBuilder::new(caller(name(1)));
    let before = format!("{:?}", b.fun());
    pass.run_function_pass(&mut b);
    assert_eq!(pass.inlined, 0);
    assert_eq!(format!("{:?}", b.fun()), before);
}

#[test]
fn body_with_two_returns_meets_in_one_phi() {
    // the body tests its parameter and returns from both sides
    let mut bb = FunctionBuilder::new(Function::new());
    bb.reserve_values(2);
    let yes = bb.create_block();
    let no = bb.create_block();
    bb.append_op(yes, op(OpKind::ReturnOk, vec![var(0)], vec![]), vec![]);
    bb.append_op(no, op(OpKind::ReturnThrow, vec![Source::Constant(AtomicLiteral::Nil)], vec![]), vec![]);
    bb.append_op(Label(0), op(OpKind::IsLiteral(AtomicLiteral::Integer(0)), vec![var(1)], vec![]), vec![yes, no]);
    let lam = Lambda { ident: name(1), captures: vec![Value(0)], params: vec![Value(1)], body: bb.finish() };
    let mut b = FunctionBuilder::new(caller(name(1)));
    let r = inline_call(&mut b, &vec![lam], Label(0));
    assert!(matches!(r, InlineOutcome::Inlined(_, Label(5))));
    let f = b.finish();
    assert_eq!(f.graph_validate_global(), Ok(()));
    assert_eq!(f.get(Label(5)).jumps, vec![Label(6), Label(7)]);
    assert_eq!(f.get(Label(3)).phi_nodes[0].entries, vec![(Label(6), var(0))]);
    assert_eq!(f.get(Label(4)).phi_nodes[0].entries, vec![(Label(7), Source::Constant(AtomicLiteral::Nil))]);
}

#[test]
fn body_with_a_case_split_is_copied_with_fresh_pattern_variables() {
    let mut bb = FunctionBuilder::new(Function::new());
    bb.reserve_values(3);
    let hit = bb.create_block();
    bb.append_op(hit, op(OpKind::ReturnOk, vec![var(2)], vec![]), vec![]);
    let clauses = vec![Clause { patterns: vec![Pattern::Tuple(vec![Pattern::Variable(Value(2)), Pattern::Wildcard])] }];
    bb.append_op(Label(0), op(OpKind::Case { clauses }, vec![var(1)], vec![Value(2)]), vec![hit]);
    let lam = Lambda { ident: name(1), captures: vec![Value(0)], params: vec![Value(1)], body: bb.finish() };
    assert_eq!(lam.body.graph_validate_global(), Ok(()));
    let mut b = FunctionBuilder::new(caller(name(1)));
    assert!(matches!(inline_call(&mut b, &vec![lam], Label(0)), InlineOutcome::Inlined(_, Label(5))));
    let f = b.finish();
    assert_eq!(f.graph_validate_global(), Ok(()));
    let copy = f.get(Label(5));
    assert_eq!(copy.ops[0].reads, vec![var(1)]);
    assert_eq!(copy.ops[0].writes, vec![Value(7)]);
    match &copy.ops[0].kind {
        OpKind::Case { clauses } => match &clauses[0].patterns[0] {
            Pattern::Tuple(ps) => {
                assert!(matches!(ps[0], Pattern::Variable(Value(7))));
                assert!(matches!(ps[1], Pattern::Wildcard));
            }
            _ => panic!("expected a tuple pattern"),
        },
        _ => panic!("expected a case split"),
    }
    assert_eq!(copy.jumps, vec![Label(6)]);
    assert_eq!(f.get(Label(6)).ops[0].kind.num_jumps(), Some(1));
    assert_eq!(f.get(Label(3)).phi_nodes[0].entries, vec![(Label(6), var(7))]);
}

#[test]
fn deleted_blocks_of_a_body_are_not_copied() {
    let mut bb = FunctionBuilder::new(Function::new());
    bb.reserve_values(2);
    let dead = bb.create_block();
    let end = bb.create_block();
    bb.append_op(end, op(OpKind::ReturnOk, vec![var(1)], vec![]), vec![]);
    bb.append_op(Label(0), op(OpKind::Jump, vec![], vec![]), vec![end]);
    bb.remove_block(dead);
    let lam = Lambda { ident: name(1), captures: vec![Value(0)], params: vec![Value(1)], body: bb.finish() };
    let mut b = FunctionBuilder::new(caller(name(1)));
    assert!(matches!(inline_call(&mut b, &vec![lam], Label(0)), InlineOutcome::Inlined(_, Label(5))));
    let f = b.finish();
    assert_eq!(f.blocks.len(), 7);
    assert_eq!(f.get(Label(5)).jumps, vec![Label(6)]);
    assert_eq!(f.get(Label(6)).jumps, vec![Label(3)]);
    assert_eq!(f.get(Label(3)).phi_nodes[0].entries, vec![(Label(6), var(1))]);
    assert_eq!(f.graph_validate_global(), Ok(()));
}

/// Runs blocks of tests, jumps and returns from the end of block `start`.
/// Returns how the run ends: at a return (with whether it is a result, and
/// the value), or at one of the `stops` (with the block it came from and
/// the values then).
fn run_graph(
    f: &Function,
    start: Label,
    mut env: std::collections::HashMap<Value, i64>,
    stops: &[Label],
) -> (Option<(bool, i64)>, Option<(Label, Label, std::collections::HashMap<Value, i64>)>) {
    let eval = |env: &std::collections::HashMap<Value, i64>, s: &Source| match s {
        Source::Variable(v) => env[v],
        Source::Constant(AtomicLiteral::Integer(i)) => *i,
        _ => -1,
    };
    let mut at = start;
    let mut first = true;
    let mut from = start;
    for _ in 0..100 {
        if !first {
            if stops.contains(&at) {
                return (None, Some((at, from, env)));
            }
            let olds = env.clone();
            for phi in &f.get(at).phi_nodes {
                let (_, s) = phi.entries.iter().find(|(p, _)| *p == from).unwrap();
                env.insert(phi.ssa, eval(&olds, s));
            }
        }
        first = false;
        let b = f.get(at);
        let op = b.ops.last().unwrap();
        let next = match &op.kind {
            OpKind::ReturnOk => return (Some((true, eval(&env, &op.reads[0]))), None),
            OpKind::ReturnThrow => return (Some((false, eval(&env, &op.reads[0]))), None),
            OpKind::Jump => b.jumps[0],
            OpKind::IsLiteral(AtomicLiteral::Integer(i)) => {
                if eval(&env, &op.reads[0]) == *i {
                    b.jumps[0]
                } else {
                    b.jumps[1]
                }
            }
            other => panic!("unexpected operation {:?}", other),
        };
        from = at;
        at = next;
    }
    panic!("the run did not end");
}

#[test]
fn inlined_call_runs_as_the_body_runs() {
    // the body returns its captured value where its parameter is 0, throws its parameter where it is 1,
    // and returns 7 otherwise
    let mut bb = FunctionBuilder::new(Function::new());
    bb.reserve_values(2);
    let zero = bb.create_block();
    let other = bb.create_block();
    let one = bb.create_block();
    let rest = bb.create_block();
    bb.append_op(zero, op(OpKind::ReturnOk, vec![var(0)], vec![]), vec![]);
    bb.append_op(one, op(OpKind::ReturnThrow, vec![var(1)], vec![]), vec![]);
    bb.append_op(rest, op(OpKind::ReturnOk, vec![Source::Constant(AtomicLiteral::Integer(7))], vec![]), vec![]);
    bb.append_op(other, op(OpKind::IsLiteral(AtomicLiteral::Integer(1)), vec![var(1)], vec![]), vec![one, rest]);
    bb.append_op(Label(0), op(OpKind::IsLiteral(AtomicLiteral::Integer(0)), vec![var(1)], vec![]), vec![zero, other]);
    let lam = Lambda { ident: name(1), captures: vec![Value(0)], params: vec![Value(1)], body: bb.finish() };
    let table = vec![lam];
    let mut b = FunctionBuilder::new(caller(name(1)));
    assert!(matches!(inline_call(&mut b, &table, Label(0)), InlineOutcome::Inlined(_, _)));
    let g = b.finish();
    assert_eq!(g.graph_validate_global(), Ok(()));
    for captured in [10, 20] {
        for arg in [0, 1, 2, 3] {
            // the body, run on its own
            let mut eb = std::collections::HashMap::new();
            eb.insert(Value(0), captured);
            eb.insert(Value(1), arg);
            let (want, _) = run_graph(&table[0].body, Label(0), eb, &[]);
            let (ok, value) = want.unwrap();
            // the caller after the inlining, run from the jump into the copy
            let mut eg = std::collections::HashMap::new();
            eg.insert(Value(0), captured);
            eg.insert(Value(1), arg);
            let (_, arrived) = run_graph(&g, Label(0), eg, &[Label(3), Label(4)]);
            let (at, from, env) = arrived.unwrap();
            assert_eq!(at, if ok { Label(3) } else { Label(4) });
            let phi = &g.get(at).phi_nodes[0];
            assert_eq!(phi.ssa, if ok { Value(3) } else { Value(4) });
            let (_, s) = phi.entries.iter().find(|(p, _)| *p == from).unwrap();
            let got = match s {
                Source::Variable(v) => env[v],
                Source::Constant(AtomicLiteral::Integer(i)) => *i,
                _ => -1,
            };
            assert_eq!(got, value, "captured {} argument {}", captured, arg);
        }
    }
}

#[test]
fn body_that_defines_a_value_beyond_its_counter_does_not_fit() {
    let mut lam = adder(name(1));
    assert!(eir::naive_inline_closures::defines_below_counter(&lam.body));
    lam.body.next_value = 2;
    assert!(!eir::naive_inline_closures::defines_below_counter(&lam.body));
    let mut b = FunctionBuilder::new(caller(name(1)));
    let at = Resolution { block: Label(0), op: 0, lambda: 0 };
    assert_eq!(inline_call(&mut b, &vec![lam], Label(0)), InlineOutcome::Unfit(at));
}

#[test]
fn pipeline_with_lambdas_inlines_the_known_closure() {
    let calls = |f: &Function| f.blocks.iter().flatten().filter(|b| b.ops.iter().any(|o| matches!(o.kind, OpKind::Apply))).count();
    let mut man = PassManager::with_lambdas(vec![adder(name(1))]);
    assert_eq!(man.pass_count(), 2);
    let (f, r) = man.run_function(caller(name(1)));
    assert_eq!(r, Ok(()));
    assert_eq!(calls(&f), 0);
    // with no body known the call stays
    let (g, r) = PassManager::default().run_function(caller(name(1)));
    assert_eq!(r, Ok(()));
    assert_eq!(calls(&g), 1);
    // the fixed pipeline over the same bodies leaves the same graph
    let (h, _) = run_standard_pipeline(caller(name(1)), vec![adder(name(1))], false);
    assert_eq!(format!("{:?}", h), format!("{:?}", f));
}
