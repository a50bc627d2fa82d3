//! What the blocks of a lowered decision tree do when they run: they reach
//! the landing block of the clause that a scan of the clauses selects, or
//! the failure of the match.
use vstd::prelude::*;
use crate::builder::as_sources;
use crate::function::Function;
use crate::ir::{Label, OpKind, Source, Value};
use crate::lower::{fresh_values, is_leaf_block, realizes, tree_blocks, tree_values};
use crate::pattern::{decide, decision_wf, shape_arity, subterms, test_passes, Decision, Shape, Term};

verus! {

/// The term that an operand holds where the values hold the terms of
/// `env`.
pub open spec fn eval(env: Map<Value, Term>, s: Source) -> Term {
    match s {
        Source::Variable(v) => env[v],
        Source::Constant(l) => Term::Literal(l),
    }
}

/// The environment after the values `ws` have been given the terms `ts`,
/// one by one.
pub open spec fn bind_all(env: Map<Value, Term>, ws: Seq<Value>, ts: Seq<Term>) -> Map<Value, Term>
    decreases ws.len(),
{
    if ws.len() == 0 || ts.len() == 0 {
        env
    } else {
        bind_all(env, ws.drop_last(), ts.drop_last()).insert(ws.last(), ts.last())
    }
}

/// How a run through test blocks ends.
pub enum Outcome {
    /// The run came to a block that it cannot run.
    Stuck,
    /// The run came to the failure of the match.
    Failed,
    /// The run jumped from block `from` to block `block`.
    Arrived { block: Label, from: Label, env: Map<Value, Term> },
}

/// Runs the graph from the end of block `l`: a test continues at the
/// successor that its operand selects, an unpacking test giving the
/// elements to the values it defines; a jump arrives at its successor; a
/// match failure fails. `fuel` bounds the number of blocks run.
pub open spec fn run_tests(g: Function, l: Label, env: Map<Value, Term>, fuel: nat) -> Outcome
    decreases fuel,
{
    if fuel == 0 || !g.is_live(l) || g.block(l).ops@.len() == 0 {
        Outcome::Stuck
    } else {
        let op = g.block(l).ops@.last();
        let jumps = g.block(l).jumps@;
        match op.kind {
            OpKind::MatchFail => Outcome::Failed,
            OpKind::Jump => if jumps.len() == 1 {
                Outcome::Arrived { block: jumps[0], from: l, env }
            } else {
                Outcome::Stuck
            },
            OpKind::IsLiteral(lit) => if jumps.len() == 2 && op.reads@.len() == 1 {
                if eval(env, op.reads@[0]) == Term::Literal(lit) {
                    run_tests(g, jumps[0], env, (fuel - 1) as nat)
                } else {
                    run_tests(g, jumps[1], env, (fuel - 1) as nat)
                }
            } else {
                Outcome::Stuck
            },
            OpKind::UnpackTuple { arity } => if jumps.len() == 2 && op.reads@.len() == 1 && op.writes@.len() == arity {
                let t = eval(env, op.reads@[0]);
                if t is Tuple && t->Tuple_0.len() == arity {
                    run_tests(g, jumps[0], bind_all(env, op.writes@, t->Tuple_0), (fuel - 1) as nat)
                } else {
                    run_tests(g, jumps[1], env, (fuel - 1) as nat)
                }
            } else {
                Outcome::Stuck
            },
            _ => Outcome::Stuck,
        }
    }
}

/// The number of tests on the longest way through the tree.
pub open spec fn tree_depth(d: Decision) -> nat
    decreases d,
{
    match d {
        Decision::Test { yes, no, .. } => 1 + if tree_depth(*yes) > tree_depth(*no) {
            tree_depth(*yes)
        } else {
            tree_depth(*no)
        },
        _ => 0,
    }
}

/// The block of the leaf or failure that the terms reach in the lowering
/// of the tree.
pub open spec fn end_block(d: Decision, root: Label, base: nat, vals: Seq<Term>) -> Label
    decreases d,
{
    match d {
        Decision::Test { column, shape, yes, no } => if test_passes(column, shape, vals) {
            end_block(*yes, Label(base as u32), base + 2, vals + subterms(vals[column as int]))
        } else {
            end_block(*no, Label((base + 1) as u32), base + 2 + tree_blocks(*yes), vals)
        },
        _ => root,
    }
}

/// The environment in which the terms reach the end of their way through
/// the lowering of the tree: every test that they pass has given the
/// elements it unpacks to its fresh values.
pub open spec fn end_env(d: Decision, vbase: nat, env: Map<Value, Term>, vals: Seq<Term>) -> Map<Value, Term>
    decreases d,
{
    match d {
        Decision::Test { column, shape, yes, no } => if test_passes(column, shape, vals) {
            end_env(
                *yes,
                vbase + shape_arity(shape),
                bind_all(env, fresh_values(vbase, shape_arity(shape)), subterms(vals[column as int])),
                vals + subterms(vals[column as int]),
            )
        } else {
            end_env(*no, vbase + shape_arity(shape) + tree_values(*yes), env, vals)
        },
        _ => env,
    }
}

/// The operands in the columns at the end of the way.
pub open spec fn end_cols(d: Decision, cols: Seq<Source>, vbase: nat, vals: Seq<Term>) -> Seq<Source>
    decreases d,
{
    match d {
        Decision::Test { column, shape, yes, no } => if test_passes(column, shape, vals) {
            end_cols(
                *yes,
                cols + as_sources(fresh_values(vbase, shape_arity(shape))),
                vbase + shape_arity(shape),
                vals + subterms(vals[column as int]),
            )
        } else {
            end_cols(*no, cols, vbase + shape_arity(shape) + tree_values(*yes), vals)
        },
        _ => cols,
    }
}

/// The terms in the columns at the end of the way.
pub open spec fn end_vals(d: Decision, vals: Seq<Term>) -> Seq<Term>
    decreases d,
{
    match d {
        Decision::Test { column, shape, yes, no } => if test_passes(column, shape, vals) {
            end_vals(*yes, vals + subterms(vals[column as int]))
        } else {
            end_vals(*no, vals)
        },
        _ => vals,
    }
}

/// The operands in the columns hold the terms in the columns, and name no
/// value from `vbase` on.
pub open spec fn cols_hold(env: Map<Value, Term>, cols: Seq<Source>, vals: Seq<Term>, vbase: nat) -> bool {
    &&& cols.len() == vals.len()
    &&& forall|j: int| 0 <= j < cols.len() ==> eval(env, #[trigger] cols[j]) == vals[j]
    &&& forall|j: int| 0 <= j < cols.len() && (#[trigger] cols[j]) is Variable ==> cols[j]->Variable_0.0 < vbase
}

proof fn lemma_bind_all(env: Map<Value, Term>, ws: Seq<Value>, ts: Seq<Term>)
    requires
        ws.len() == ts.len(),
        ws.no_duplicates(),
    ensures
        forall|i: int| 0 <= i < ws.len() ==> bind_all(env, ws, ts)[#[trigger] ws[i]] == ts[i],
        forall|v: Value| !ws.contains(v) ==> #[trigger] bind_all(env, ws, ts)[v] == env[v],
    decreases ws.len(),
{
    if ws.len() > 0 {
        let w0 = ws.drop_last();
        let t0 = ts.drop_last();
        assert forall|i: int, j: int| 0 <= i < w0.len() && 0 <= j < w0.len() && i != j implies w0[i] != w0[j] by {
            assert(w0[i] == ws[i] && w0[j] == ws[j]);
        }
        lemma_bind_all(env, w0, t0);
        assert forall|i: int| 0 <= i < ws.len() implies bind_all(env, ws, ts)[#[trigger] ws[i]] == ts[i] by {
            if i < w0.len() {
                assert(w0[i] == ws[i]);
                assert(ws[i] != ws[ws.len() - 1]);
            }
        }
        assert(bind_all(env, ws, ts) == bind_all(env, w0, t0).insert(ws.last(), ts.last()));
        assert forall|v: Value| !ws.contains(v) implies #[trigger] bind_all(env, ws, ts)[v] == env[v] by {
            assert(v != ws[ws.len() - 1]);
            if w0.contains(v) {
                let k = choose|k: int| 0 <= k < w0.len() && w0[k] == v;
                assert(ws[k] == v);
            }
            assert(!w0.contains(v));
            assert(bind_all(env, w0, t0)[v] == env[v]);
            assert(bind_all(env, w0, t0).insert(ws.last(), ts.last())[v] == bind_all(env, w0, t0)[v]);
        }
    }
}

/// Running the lowering of a tree ends as the tree decides: where the
/// tree selects a clause, the run arrives at the landing block of the
/// clause, from the block of the leaf; where the tree fails, the run fails.
/// At the end the operands in the columns hold the terms in the columns.
pub proof fn lemma_run_decides(g: Function, d: Decision, root: Label, cols: Seq<Source>, base: nat, vbase: nat, landing: nat, env: Map<Value, Term>, vals: Seq<Term>, fuel: nat)
    requires
        realizes(g, d, root, cols, base, vbase, landing),
        decision_wf(d, cols.len()),
        cols_hold(env, cols, vals, vbase),
        vbase + tree_values(d) <= u32::MAX,
        fuel > tree_depth(d),
    ensures
        run_tests(g, root, env, fuel) == match decide(d, vals) {
            Some(i) => Outcome::Arrived {
                block: Label((landing + i) as u32),
                from: end_block(d, root, base, vals),
                env: end_env(d, vbase, env, vals),
            },
            None => Outcome::Failed,
        },
        cols_hold(end_env(d, vbase, env, vals), end_cols(d, cols, vbase, vals), end_vals(d, vals), vbase + tree_values(d)),
    decreases d,
{
    match d {
        Decision::Test { column, shape, yes, no } => {
            let ar = shape_arity(shape);
            let w = fresh_values(vbase, ar);
            let y = Label(base as u32);
            let n = Label((base + 1) as u32);
            let op = g.block(root).ops@.last();
            assert(op.reads@[0] == cols[column as int]);
            assert(eval(env, cols[column as int]) == vals[column as int]);
            let t = vals[column as int];
            match shape {
                Shape::Literal(lit) => {
                    assert(test_passes(column, shape, vals) <==> t == Term::Literal(lit));
                },
                Shape::Tuple(a) => {
                    assert(test_passes(column, shape, vals) <==> (t is Tuple && t->Tuple_0.len() == a));
                    assert(op.writes@.len() == a);
                },
            }
            if test_passes(column, shape, vals) {
                let ts = subterms(t);
                let env2 = bind_all(env, w, ts);
                let cols2 = cols + as_sources(w);
                let vals2 = vals + ts;
                assert(ts.len() == ar);
                assert(w.no_duplicates()) by {
                    assert forall|i: int, j: int| 0 <= i < w.len() && 0 <= j < w.len() && i != j implies w[i] != w[j] by {}
                }
                lemma_bind_all(env, w, ts);
                assert(cols_hold(env2, cols2, vals2, vbase + ar)) by {
                    assert forall|j: int| 0 <= j < cols2.len() implies eval(env2, #[trigger] cols2[j]) == vals2[j] by {
                        if j < cols.len() {
                            assert(cols2[j] == cols[j]);
                            match cols[j] {
                                Source::Variable(v) => {
                                    assert(v.0 < vbase);
                                    if w.contains(v) {
                                        let q = choose|q: int| 0 <= q < w.len() && w[q] == v;
                                    }
                                    assert(env2[v] == env[v]);
                                },
                                Source::Constant(_) => {},
                            }
                        } else {
                            let q = j - cols.len();
                            assert(cols2[j] == Source::Variable(w[q]));
                            assert(env2[w[q]] == ts[q]);
                        }
                    }
                    assert forall|j: int| 0 <= j < cols2.len() && (#[trigger] cols2[j]) is Variable implies cols2[j]->Variable_0.0 < vbase + ar by {
                        if j < cols.len() {
                            assert(cols2[j] == cols[j]);
                        } else {
                            assert(cols2[j] == Source::Variable(w[j - cols.len()]));
                        }
                    }
                }
                match shape {
                    Shape::Literal(_) => {
                        assert(w.len() == 0);
                        assert(env2 == env);
                    },
                    Shape::Tuple(_) => {},
                }
                lemma_run_decides(g, *yes, y, cols2, base + 2, vbase + ar, landing, env2, vals2, (fuel - 1) as nat);
            } else {
                assert(cols_hold(env, cols, vals, vbase + ar + tree_values(*yes)));
                lemma_run_decides(
                    g,
                    *no,
                    n,
                    cols,
                    base + 2 + tree_blocks(*yes),
                    vbase + ar + tree_values(*yes),
                    landing,
                    env,
                    vals,
                    (fuel - 1) as nat,
                );
            }
        },
        Decision::Leaf { clause, bindings } => {
            assert(is_leaf_block(g, root, Label((landing + clause) as u32), bindings@, cols));
        },
        Decision::Fail => {},
    }
}

/// A compiled case split runs as a scan of its clauses selects. Where the
/// scrutinees hold the terms `vals`, running the graph from the end of the
/// block that held the case split arrives at the landing block of the
/// first clause whose patterns all match, and fails where no clause
/// matches.
pub proof fn lemma_compiled_case_runs_as_scan(
    f: Function,
    g: Function,
    l: Label,
    d: Decision,
    lb: nat,
    vb: nat,
    env: Map<Value, Term>,
    vals: Seq<Term>,
    fuel: nat,
)
    requires
        crate::compile_pattern::compiled_as(f, g, l, d, lb, vb),
        cols_hold(env, f.block(l).ops@.last().reads@, vals, vb),
        fuel > tree_depth(d),
    ensures
        run_tests(g, l, env, fuel) == match crate::pattern::first_match(crate::compile_pattern::case_clauses(f, l), vals) {
            Some(i) => Outcome::Arrived {
                block: Label((lb + i) as u32),
                from: end_block(d, l, lb + crate::compile_pattern::case_clauses(f, l).len(), vals),
                env: end_env(d, vb, env, vals),
            },
            None => Outcome::Failed,
        },
{
    let cols = f.block(l).ops@.last().reads@;
    let k = crate::compile_pattern::case_clauses(f, l).len();
    assert(decide(d, vals) == crate::pattern::first_match(crate::compile_pattern::case_clauses(f, l), vals));
    lemma_run_decides(g, d, l, cols, lb + k, vb, lb, env, vals, fuel);
}

} // verus!
