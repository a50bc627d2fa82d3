//! What it means to run the blocks of a graph, as far as the operations
//! are control flow or compute terms from terms.
use vstd::prelude::*;
use crate::case_semantics::{bind_all, eval};
use crate::compile_pattern::first_source;
use crate::function::Function;
use crate::ir::{Label, Op, OpKind, Phi, Source, Value};
use crate::pattern::Term;

verus! {

/// How a run ends.
pub enum RunOutcome {
    /// The run came to something that it cannot run: a block that is not
    /// live or not terminated, a phi node without an entry for the block
    /// that the run came from, or the end of the fuel.
    Stuck,
    /// The run came to the failure of a match.
    Failed,
    /// The run returned a result (`ok`) or threw an exception.
    Returned { ok: bool, value: Term },
    /// The run came from block `from` to a block at which runs stop.
    Arrived { block: Label, from: Label, env: Map<Value, Term> },
    /// The run came to the end of a block that ends in a call or a case
    /// split.
    Stopped { block: Label },
}

/// The terms that operands hold.
pub open spec fn evals(env: Map<Value, Term>, reads: Seq<Source>) -> Seq<Term> {
    Seq::new(reads.len(), |i: int| eval(env, reads[i]))
}

/// The environment after the first `n` of the operations have run: each
/// gives the values it defines the terms that `sem` computes from the
/// terms of its operands.
pub open spec fn run_ops(ops: Seq<Op>, n: nat, env: Map<Value, Term>, sem: spec_fn(OpKind, Seq<Term>) -> Seq<Term>) -> Map<Value, Term>
    decreases n,
{
    if n == 0 || n > ops.len() {
        env
    } else {
        let before = run_ops(ops, (n - 1) as nat, env, sem);
        let op = ops[n - 1];
        bind_all(before, op.writes@, sem(op.kind, evals(before, op.reads@)))
    }
}

/// Every one of the first `n` phi nodes has an entry for block `from`.
pub open spec fn can_enter(phis: Seq<Phi>, n: nat, from: Label) -> bool {
    forall|j: int| 0 <= j < n && j < phis.len() ==> first_source(#[trigger] phis[j].entries@, from) is Some
}

/// The environment after the first `n` phi nodes have taken their operands
/// for the block `from` that the run came from. All take their operands in
/// the environment `env0` in which the block is entered.
pub open spec fn enter(phis: Seq<Phi>, n: nat, from: Label, env0: Map<Value, Term>) -> Map<Value, Term>
    decreases n,
{
    if n == 0 || n > phis.len() {
        env0
    } else {
        enter(phis, (n - 1) as nat, from, env0).insert(phis[n - 1].ssa, eval(env0, first_source(phis[n - 1].entries@, from)->Some_0))
    }
}

/// Runs the graph from the entry of block `l`, reached from block `from`.
/// The run stops at the blocks for which `stop` holds. `sem` gives the terms
/// that an operation computes from the terms of its operands; `fuel` bounds
/// the number of blocks that are entered.
pub open spec fn run(
    g: Function,
    l: Label,
    from: Label,
    env: Map<Value, Term>,
    sem: spec_fn(OpKind, Seq<Term>) -> Seq<Term>,
    stop: spec_fn(Label) -> bool,
    fuel: nat,
) -> RunOutcome
    decreases fuel, 0nat,
{
    if fuel == 0 {
        RunOutcome::Stuck
    } else if stop(l) {
        RunOutcome::Arrived { block: l, from, env }
    } else if !g.is_live(l) || g.block(l).ops@.len() == 0 || !can_enter(g.block(l).phi_nodes@, g.block(l).phi_nodes@.len(), from) {
        RunOutcome::Stuck
    } else {
        let b = g.block(l);
        let env1 = enter(b.phi_nodes@, b.phi_nodes@.len(), from, env);
        let env2 = run_ops(b.ops@, (b.ops@.len() - 1) as nat, env1, sem);
        run_end(g, l, env2, sem, stop, (fuel - 1) as nat)
    }
}

/// Runs the last operation of block `l` and goes on from there.
pub open spec fn run_end(
    g: Function,
    l: Label,
    env: Map<Value, Term>,
    sem: spec_fn(OpKind, Seq<Term>) -> Seq<Term>,
    stop: spec_fn(Label) -> bool,
    fuel: nat,
) -> RunOutcome
    decreases fuel, 1nat,
{
    let b = g.block(l);
    let op = b.ops@.last();
    let jumps = b.jumps@;
    match op.kind {
        OpKind::MatchFail => RunOutcome::Failed,
        OpKind::ReturnOk => if op.reads@.len() > 0 {
            RunOutcome::Returned { ok: true, value: eval(env, op.reads@[0]) }
        } else {
            RunOutcome::Stuck
        },
        OpKind::ReturnThrow => if op.reads@.len() > 0 {
            RunOutcome::Returned { ok: false, value: eval(env, op.reads@[0]) }
        } else {
            RunOutcome::Stuck
        },
        OpKind::Jump => if jumps.len() == 1 {
            run(g, jumps[0], l, env, sem, stop, fuel)
        } else {
            RunOutcome::Stuck
        },
        OpKind::IsLiteral(lit) => if jumps.len() == 2 && op.reads@.len() == 1 {
            if eval(env, op.reads@[0]) == Term::Literal(lit) {
                run(g, jumps[0], l, env, sem, stop, fuel)
            } else {
                run(g, jumps[1], l, env, sem, stop, fuel)
            }
        } else {
            RunOutcome::Stuck
        },
        OpKind::UnpackTuple { arity } => if jumps.len() == 2 && op.reads@.len() == 1 && op.writes@.len() == arity {
            let t = eval(env, op.reads@[0]);
            if t is Tuple && t->Tuple_0.len() == arity {
                run(g, jumps[0], l, bind_all(env, op.writes@, t->Tuple_0), sem, stop, fuel)
            } else {
                run(g, jumps[1], l, env, sem, stop, fuel)
            }
        } else {
            RunOutcome::Stuck
        },
        _ => RunOutcome::Stopped { block: l },
    }
}

} // verus!
