use eir::builder::FunctionBuilder;
use eir::compile_pattern::CompilePatternPass;
use eir::function::Function;
use eir::ir::{AtomicLiteral, Clause, Label, Op, OpKind, Pattern, Source, Value};
use eir::pass::FunctionPass;
use std::collections::HashMap;

#[derive(Debug, Clone, PartialEq)]
enum Term {
    Lit(AtomicLiteral),
    Tuple(Vec<Term>),
}

fn num(i: i64) -> Term {
    Term::Lit(AtomicLiteral::Integer(i))
}

fn lit(i: i64) -> Pattern {
    Pattern::Literal(AtomicLiteral::Integer(i))
}

/// Matches a term against a pattern, collecting what the variables are bound to.
fn bind(p: &Pattern, t: &Term, env: &mut Vec<(Value, Term)>) -> bool {
    match p {
        Pattern::Wildcard => true,
        Pattern::Variable(v) => {
            env.push((*v, t.clone()));
            true
        }
        Pattern::Literal(l) => *t == Term::Lit(*l),
        Pattern::Tuple(ps) => match t {
            Term::Tuple(ts) => ts.len() == ps.len() && ps.iter().zip(ts).all(|(p, t)| bind(p, t, env)),
            _ => false,
        },
    }
}

/// The reference: the first clause, in order, whose patterns all match, with its bindings.
fn linear_scan(clauses: &[Vec<Pattern>], vals: &[Term]) -> Option<(usize, Vec<(Value, Term)>)> {
    for (i, pats) in clauses.iter().enumerate() {
        let mut env = Vec::new();
        if pats.len() == vals.len() && pats.iter().zip(vals).all(|(p, t)| bind(p, t, &mut env)) {
            return Some((i, env));
        }
    }
    None
}

fn eval(env: &HashMap<Value, Term>, s: &Source) -> Term {
    match s {
        Source::Variable(v) => env[v].clone(),
        Source::Constant(l) => Term::Lit(*l),
    }
}

/// Runs the graph from the entry until it enters one of the bodies or fails to match.
fn run(f: &Function, bodies: &[Label], mut env: HashMap<Value, Term>) -> Option<(usize, HashMap<Value, Term>)> {
    let mut at = f.entry;
    let mut from = f.entry;
    for _ in 0..1000 {
        if at != f.entry {
            if let Some(i) = bodies.iter().position(|b| *b == at) {
                return Some((i, env));
            }
        }
        let b = f.get(at);
        let mut next = env.clone();
        for phi in &b.phi_nodes {
            let (_, s) = phi.entries.iter().find(|(p, _)| *p == from).expect("a phi entry for the predecessor");
            next.insert(phi.ssa, eval(&env, s));
        }
        env = next;
        let op = b.ops.last().expect("a terminated block");
        let to = match &op.kind {
            OpKind::MatchFail => return None,
            OpKind::Jump => b.jumps[0],
            OpKind::IsLiteral(l) => {
                if eval(&env, &op.reads[0]) == Term::Lit(*l) {
                    b.jumps[0]
                } else {
                    b.jumps[1]
                }
            }
            OpKind::UnpackTuple { arity } => match eval(&env, &op.reads[0]) {
                Term::Tuple(ts) if ts.len() == *arity => {
                    for (w, t) in op.writes.iter().zip(ts) {
                        env.insert(*w, t);
                    }
                    b.jumps[0]
                }
                _ => b.jumps[1],
            },
            other => panic!("unexpected operation {:?}", other),
        };
        from = at;
        at = to;
    }
    panic!("the run did not end");
}

/// A function that splits on `nscrut` scrutinees, `Value(0)` on, with one body for each clause.
fn case_function(clauses: &[Vec<Pattern>], nscrut: u32, nvalues: u32) -> (Function, Vec<Label>) {
    let mut b = FunctionBuilder::new(Function::new());
    b.reserve_values(nvalues);
    let mut bodies = Vec::new();
    for i in 0..clauses.len() {
        let l = b.create_block();
        b.append_op(l, Op { kind: OpKind::ReturnOk, reads: vec![Source::Constant(AtomicLiteral::Integer(i as i64))], writes: vec![] }, vec![]);
        bodies.push(l);
    }
    let mut writes = Vec::new();
    for v in nscrut..nvalues {
        writes.push(Value(v));
    }
    let cs: Vec<Clause> = clauses.iter().map(|ps| Clause { patterns: ps.iter().map(copy).collect() }).collect();
    let reads = (0..nscrut).map(|v| Source::Variable(Value(v))).collect();
    b.append_op(Label(0), Op { kind: OpKind::Case { clauses: cs }, reads, writes }, bodies.clone());
    (b.finish(), bodies)
}

fn copy(p: &Pattern) -> Pattern {
    match p {
        Pattern::Wildcard => Pattern::Wildcard,
        Pattern::Variable(v) => Pattern::Variable(*v),
        Pattern::Literal(l) => Pattern::Literal(*l),
        Pattern::Tuple(ps) => Pattern::Tuple(ps.iter().map(copy).collect()),
    }
}

fn universe() -> Vec<Term> {
    let atoms = vec![num(0), num(1), num(2), Term::Lit(AtomicLiteral::Nil)];
    let mut all = atoms.clone();
    all.push(Term::Tuple(vec![]));
    for a in &atoms {
        all.push(Term::Tuple(vec![a.clone()]));
        for b in &atoms {
            all.push(Term::Tuple(vec![a.clone(), b.clone()]));
        }
    }
    all.push(Term::Tuple(vec![Term::Tuple(vec![num(0), num(1)]), num(2)]));
    all
}

fn check(clauses: Vec<Vec<Pattern>>, nvalues: u32) {
    let (f, bodies) = case_function(&clauses, 2, nvalues);
    assert_eq!(f.graph_validate_global(), Ok(()));
    let mut b = FunctionBuilder::new(f);
    CompilePatternPass::new().run_function_pass(&mut b);
    let g = b.finish();
    assert_eq!(g.graph_validate_global(), Ok(()));
    let u = universe();
    for x in &u {
        for y in &u {
            let vals = vec![x.clone(), y.clone()];
            let mut env = HashMap::new();
            env.insert(Value(0), x.clone());
            env.insert(Value(1), y.clone());
            let got = run(&g, &bodies, env);
            let want = linear_scan(&clauses, &vals);
            assert_eq!(got.as_ref().map(|(i, _)| *i), want.as_ref().map(|(i, _)| *i), "on {:?}", vals);
            if let (Some((_, env)), Some((_, bound))) = (got, want) {
                for (v, t) in bound {
                    assert_eq!(env[&v], t, "binding of {:?} on {:?}", v, vals);
                }
            }
        }
    }
}

#[test]
fn compiled_graph_runs_as_a_linear_scan() {
    check(
        vec![
            vec![lit(0), Pattern::Tuple(vec![Pattern::Variable(Value(2)), lit(1)])],
            vec![Pattern::Variable(Value(3)), Pattern::Tuple(vec![lit(0), Pattern::Variable(Value(4))])],
            vec![Pattern::Tuple(vec![Pattern::Variable(Value(5)), Pattern::Wildcard]), lit(2)],
        ],
        6,
    );
}

#[test]
fn compiled_graph_with_overlapping_clauses_runs_as_a_linear_scan() {
    check(
        vec![
            vec![Pattern::Wildcard, lit(1)],
            vec![lit(0), Pattern::Variable(Value(2))],
            vec![lit(0), lit(1)],
            vec![Pattern::Tuple(vec![lit(0), Pattern::Variable(Value(3))]), Pattern::Wildcard],
            vec![Pattern::Tuple(vec![Pattern::Variable(Value(4)), lit(1)]), lit(2)],
            vec![Pattern::Variable(Value(5)), Pattern::Variable(Value(6))],
        ],
        7,
    );
}

#[test]
fn compiled_graph_without_a_catch_all_fails_where_the_scan_does() {
    check(
        vec![
            vec![Pattern::Tuple(vec![Pattern::Tuple(vec![lit(0), Pattern::Variable(Value(2))]), lit(2)]), Pattern::Wildcard],
            vec![Pattern::Literal(AtomicLiteral::Nil), Pattern::Tuple(vec![])],
        ],
        3,
    );
}
