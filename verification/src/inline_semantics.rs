//! Why an inlined call runs as the body of the closure runs: the copy of
//! the body computes in the caller's values what the body computes in its
//! own.
use vstd::prelude::*;
use crate::case_semantics::{bind_all, eval};
use crate::function::{block_arity_ok, block_defs, op_defs, phi_complete, phi_defs, Function};
use crate::inline_soundness::{copy_of, lemma_copies_differ, renamed_seq};
use crate::ir::BasicBlock;
use crate::naive_inline_closures::{call_inlined, copy_label, copy_map, is_call_site, kind_renamed, returned_source};
use crate::run::{run, run_end, RunOutcome};
use crate::ssa::{defs_below, lemma_concat_contains};
use crate::compile_pattern::first_source;
use crate::ir::{Label, Op, OpKind, Phi, Source, Value};
use crate::naive_inline_closures::{op_renamed, phi_copied, phis_copied, position_of, renamed_value, Renaming};
use crate::pattern::Term;
use crate::run::{can_enter, enter, evals, run_ops};
use crate::ssa::slot_defs;

verus! {

/// The operand names no value from `vbase` on.
pub open spec fn operand_below(s: Source, vbase: u32) -> bool {
    s is Variable ==> s->Variable_0.0 < vbase
}

/// The body can be run in the values of the caller: it reads no value
/// beyond its counter of fresh values, it does not define the values that
/// stand for what the closure captures and for the arguments, and the
/// operands that take their place name no fresh value.
pub open spec fn in_scope(body: Function, ren: Renaming) -> bool {
    &&& forall|i: int, k: int, r: int|
        0 <= i < body.blocks@.len() && body.blocks@[i] is Some && 0 <= k < body.blocks@[i]->Some_0.ops@.len() && 0 <= r
            < body.blocks@[i]->Some_0.ops@[k].reads@.len() ==> operand_below(
            #[trigger] body.blocks@[i]->Some_0.ops@[k].reads@[r],
            ren.bound,
        )
    &&& forall|i: int, j: int, e: int|
        0 <= i < body.blocks@.len() && body.blocks@[i] is Some && 0 <= j < body.blocks@[i]->Some_0.phi_nodes@.len() && 0 <= e
            < body.blocks@[i]->Some_0.phi_nodes@[j].entries@.len() ==> operand_below(
            (#[trigger] body.blocks@[i]->Some_0.phi_nodes@[j].entries@[e]).1,
            ren.bound,
        )
    &&& forall|i: int, v: Value|
        0 <= i < body.blocks@.len() && #[trigger] slot_defs(body.blocks@[i]).contains(v) ==> !ren.captures@.contains(v)
            && !ren.params@.contains(v)
    &&& forall|i: int| 0 <= i < ren.env@.len() ==> operand_below(#[trigger] ren.env@[i], ren.vbase)
    &&& forall|i: int| 0 <= i < ren.args@.len() ==> operand_below(#[trigger] ren.args@[i], ren.vbase)
}

/// The environment `eg` of the caller holds, under the renaming, what the
/// environment `eb` of the body holds.
pub open spec fn corr(eb: Map<Value, Term>, eg: Map<Value, Term>, ren: Renaming) -> bool {
    forall|v: Value| v.0 < ren.bound ==> eval(eg, #[trigger] ren.source(Source::Variable(v))) == eb[v]
}

/// A value that the body may define: below the counter, and neither
/// captured nor a parameter.
pub open spec fn definable(w: Value, ren: Renaming) -> bool {
    w.0 < ren.bound && !ren.captures@.contains(w) && !ren.params@.contains(w)
}

proof fn lemma_position_of(vs: Seq<Value>, v: Value)
    ensures
        0 <= position_of(vs, v) <= vs.len(),
        position_of(vs, v) < vs.len() <==> vs.contains(v),
        position_of(vs, v) < vs.len() ==> vs[position_of(vs, v)] == v,
    decreases vs.len(),
{
    if vs.len() > 0 {
        lemma_position_of(vs.drop_first(), v);
        if vs[0] != v {
            let rest = vs.drop_first();
            if vs.contains(v) {
                let k = choose|k: int| 0 <= k < vs.len() && vs[k] == v;
                assert(rest[k - 1] == v);
            }
            if rest.contains(v) {
                let k = choose|k: int| 0 <= k < rest.len() && rest[k] == v;
                assert(vs[k + 1] == v);
            }
            if position_of(rest, v) < rest.len() {
                assert(vs[1 + position_of(rest, v)] == rest[position_of(rest, v)]);
            }
        }
    }
}

/// What the environments hold stays in step where the body defines a
/// value and the caller its fresh identity.
proof fn lemma_write_keeps_corr(eb: Map<Value, Term>, eg: Map<Value, Term>, ren: Renaming, w: Value, t: Term)
    requires
        ren.wf(),
        corr(eb, eg, ren),
        definable(w, ren),
        forall|i: int| 0 <= i < ren.env@.len() ==> operand_below(#[trigger] ren.env@[i], ren.vbase),
        forall|i: int| 0 <= i < ren.args@.len() ==> operand_below(#[trigger] ren.args@[i], ren.vbase),
    ensures
        corr(eb.insert(w, t), eg.insert(renamed_value(w, ren.vbase, ren.bound), t), ren),
{
    let rw = renamed_value(w, ren.vbase, ren.bound);
    let eb2 = eb.insert(w, t);
    let eg2 = eg.insert(rw, t);
    lemma_position_of(ren.captures@, w);
    lemma_position_of(ren.params@, w);
    assert forall|v: Value| v.0 < ren.bound implies eval(eg2, #[trigger] ren.source(Source::Variable(v))) == eb2[v] by {
        lemma_position_of(ren.captures@, v);
        lemma_position_of(ren.params@, v);
        let c = position_of(ren.captures@, v);
        let p = position_of(ren.params@, v);
        let s = ren.source(Source::Variable(v));
        assert(eval(eg, s) == eb[v]);
        if c < ren.captures@.len() {
            assert(v != w);
            assert(operand_below(ren.env@[c], ren.vbase));
        } else if p < ren.params@.len() {
            assert(v != w);
            assert(operand_below(ren.args@[p], ren.vbase));
        } else {
            assert(s == Source::Variable(renamed_value(v, ren.vbase, ren.bound)));
        }
    }
}

/// The same for several values defined at once.
proof fn lemma_writes_keep_corr(eb: Map<Value, Term>, eg: Map<Value, Term>, ren: Renaming, ws: Seq<Value>, ts: Seq<Term>)
    requires
        ren.wf(),
        corr(eb, eg, ren),
        forall|i: int| 0 <= i < ws.len() ==> definable(#[trigger] ws[i], ren),
        forall|i: int| 0 <= i < ren.env@.len() ==> operand_below(#[trigger] ren.env@[i], ren.vbase),
        forall|i: int| 0 <= i < ren.args@.len() ==> operand_below(#[trigger] ren.args@[i], ren.vbase),
    ensures
        corr(bind_all(eb, ws, ts), bind_all(eg, renamed_seq(ws, ren.vbase, ren.bound), ts), ren),
    decreases ws.len(),
{
    let rs = renamed_seq(ws, ren.vbase, ren.bound);
    if ws.len() == 0 || ts.len() == 0 {
    } else {
        assert(rs.drop_last() =~= renamed_seq(ws.drop_last(), ren.vbase, ren.bound));
        assert forall|i: int| 0 <= i < ws.drop_last().len() implies definable(#[trigger] ws.drop_last()[i], ren) by {
            assert(ws.drop_last()[i] == ws[i]);
        }
        lemma_writes_keep_corr(eb, eg, ren, ws.drop_last(), ts.drop_last());
        assert(definable(ws[ws.len() - 1], ren));
        lemma_write_keeps_corr(
            bind_all(eb, ws.drop_last(), ts.drop_last()),
            bind_all(eg, rs.drop_last(), ts.drop_last()),
            ren,
            ws.last(),
            ts.last(),
        );
    }
}

/// Rewritten operands hold in the caller what the operands hold in the
/// body.
proof fn lemma_evals_agree(eb: Map<Value, Term>, eg: Map<Value, Term>, ren: Renaming, reads: Seq<Source>, renamed: Seq<Source>)
    requires
        corr(eb, eg, ren),
        renamed.len() == reads.len(),
        forall|i: int| 0 <= i < reads.len() ==> renamed[i] == ren.source(#[trigger] reads[i]),
        forall|i: int| 0 <= i < reads.len() ==> operand_below(#[trigger] reads[i], ren.bound),
    ensures
        evals(eg, renamed) == evals(eb, reads),
{
    assert forall|i: int| 0 <= i < reads.len() implies eval(eg, renamed[i]) == eval(eb, reads[i]) by {
        assert(operand_below(reads[i], ren.bound));
        match reads[i] {
            Source::Variable(v) => {
                assert(eval(eg, ren.source(Source::Variable(v))) == eb[v]);
            },
            Source::Constant(_) => {},
        }
    }
    assert(evals(eg, renamed) =~= evals(eb, reads));
}

/// The copies of operations that define and read what the body may
/// define and read leave the environments in step.
proof fn lemma_ops_keep_corr(
    src: Seq<Op>,
    dst: Seq<Op>,
    n: nat,
    eb: Map<Value, Term>,
    eg: Map<Value, Term>,
    ren: Renaming,
    sem: spec_fn(OpKind, Seq<Term>) -> Seq<Term>,
)
    requires
        ren.wf(),
        corr(eb, eg, ren),
        n <= src.len(),
        dst.len() == src.len(),
        forall|k: int| 0 <= k < n ==> op_renamed(#[trigger] src[k], dst[k], ren) && !(src[k].kind is Case),
        forall|k: int, r: int| 0 <= k < n && 0 <= r < src[k].reads@.len() ==> operand_below(#[trigger] src[k].reads@[r], ren.bound),
        forall|k: int, i: int| 0 <= k < n && 0 <= i < src[k].writes@.len() ==> definable(#[trigger] src[k].writes@[i], ren),
        forall|i: int| 0 <= i < ren.env@.len() ==> operand_below(#[trigger] ren.env@[i], ren.vbase),
        forall|i: int| 0 <= i < ren.args@.len() ==> operand_below(#[trigger] ren.args@[i], ren.vbase),
    ensures
        corr(run_ops(src, n, eb, sem), run_ops(dst, n, eg, sem), ren),
    decreases n,
{
    if n > 0 {
        lemma_ops_keep_corr(src, dst, (n - 1) as nat, eb, eg, ren, sem);
        let b1 = run_ops(src, (n - 1) as nat, eb, sem);
        let g1 = run_ops(dst, (n - 1) as nat, eg, sem);
        let op = src[n - 1];
        let dop = dst[n - 1];
        assert(op_renamed(op, dop, ren));
        assert(dop.kind == op.kind);
        assert forall|r: int| 0 <= r < op.reads@.len() implies operand_below(#[trigger] op.reads@[r], ren.bound) by {
            assert(operand_below(src[n - 1].reads@[r], ren.bound));
        }
        lemma_evals_agree(b1, g1, ren, op.reads@, dop.reads@);
        assert(dop.writes@ =~= renamed_seq(op.writes@, ren.vbase, ren.bound));
        assert forall|i: int| 0 <= i < op.writes@.len() implies definable(#[trigger] op.writes@[i], ren) by {
            assert(definable(src[n - 1].writes@[i], ren));
        }
        lemma_writes_keep_corr(b1, g1, ren, op.writes@, sem(op.kind, evals(b1, op.reads@)));
    }
}

/// The copy of a list of phi entries has for the copy of a predecessor the
/// rewritten operand that the list has for the predecessor.
proof fn lemma_first_source_copied(se: Seq<(Label, Source)>, de: Seq<(Label, Source)>, fq: Label, fg: Label, ren: Renaming, map: Seq<Label>)
    requires
        de.len() == se.len(),
        forall|i: int| 0 <= i < se.len() ==> de[i] == (map[(#[trigger] se[i]).0.0 as int], ren.source(se[i].1)),
        forall|i: int| 0 <= i < se.len() ==> (map[(#[trigger] se[i]).0.0 as int] == fg <==> se[i].0 == fq),
    ensures
        first_source(de, fg) == match first_source(se, fq) {
            Some(s) => Some(ren.source(s)),
            None => None,
        },
        first_source(se, fq) is Some ==> exists|i: int| 0 <= i < se.len() && (#[trigger] se[i]).1 == first_source(se, fq)->Some_0,
    decreases se.len(),
{
    if se.len() > 0 {
        let s1 = se.drop_first();
        let d1 = de.drop_first();
        assert forall|i: int| 0 <= i < s1.len() implies d1[i] == (map[(#[trigger] s1[i]).0.0 as int], ren.source(s1[i].1)) && (map[s1[i].0.0 as int]
            == fg <==> s1[i].0 == fq) by {
            assert(s1[i] == se[i + 1]);
            assert(d1[i] == de[i + 1]);
        }
        lemma_first_source_copied(s1, d1, fq, fg, ren, map);
        assert(de[0] == (map[se[0].0.0 as int], ren.source(se[0].1)));
        if se[0].0 == fq {
            assert(se[0].1 == first_source(se, fq)->Some_0);
        } else {
            if first_source(se, fq) is Some {
                let i = choose|i: int| 0 <= i < s1.len() && (#[trigger] s1[i]).1 == first_source(s1, fq)->Some_0;
                assert(se[i + 1] == s1[i]);
            }
        }
    }
}

/// The copies of phi nodes take for the copy of a predecessor what the phi
/// nodes take for the predecessor, and leave the environments in step.
proof fn lemma_enter_keeps_corr(
    src: Seq<Phi>,
    dst: Seq<Phi>,
    n: nat,
    fq: Label,
    fg: Label,
    eb0: Map<Value, Term>,
    eg0: Map<Value, Term>,
    ren: Renaming,
    map: Seq<Label>,
)
    requires
        ren.wf(),
        corr(eb0, eg0, ren),
        phis_copied(src, dst, ren, map),
        n <= src.len(),
        can_enter(src, n, fq),
        forall|j: int, e: int|
            0 <= j < src.len() && 0 <= e < src[j].entries@.len() ==> (map[(#[trigger] src[j].entries@[e]).0.0 as int] == fg <==> src[j].entries@[e].0
                == fq),
        forall|j: int, e: int| 0 <= j < src.len() && 0 <= e < src[j].entries@.len() ==> operand_below((#[trigger] src[j].entries@[e]).1, ren.bound),
        forall|j: int| 0 <= j < src.len() ==> definable((#[trigger] src[j]).ssa, ren),
        forall|i: int| 0 <= i < ren.env@.len() ==> operand_below(#[trigger] ren.env@[i], ren.vbase),
        forall|i: int| 0 <= i < ren.args@.len() ==> operand_below(#[trigger] ren.args@[i], ren.vbase),
    ensures
        can_enter(dst, n, fg),
        corr(enter(src, n, fq, eb0), enter(dst, n, fg, eg0), ren),
    decreases n,
{
    if n > 0 {
        assert forall|j: int| 0 <= j < n - 1 && j < src.len() implies first_source(#[trigger] src[j].entries@, fq) is Some by {}
        lemma_enter_keeps_corr(src, dst, (n - 1) as nat, fq, fg, eb0, eg0, ren, map);
        let sp = src[n - 1];
        let dp = dst[n - 1];
        assert(phi_copied(sp, dp, ren, map));
        let se = sp.entries@;
        let de = dp.entries@;
        assert forall|i: int| 0 <= i < se.len() implies de[i] == (map[(#[trigger] se[i]).0.0 as int], ren.source(se[i].1)) && (map[se[i].0.0 as int]
            == fg <==> se[i].0 == fq) by {
            assert(src[n - 1].entries@[i] == se[i]);
        }
        lemma_first_source_copied(se, de, fq, fg, ren, map);
        assert(first_source(se, fq) is Some);
        let s = first_source(se, fq)->Some_0;
        let i = choose|i: int| 0 <= i < se.len() && (#[trigger] se[i]).1 == s;
        assert(operand_below(src[n - 1].entries@[i].1, ren.bound));
        assert(eval(eg0, ren.source(s)) == eval(eb0, s)) by {
            match s {
                Source::Variable(v) => {
                    assert(eval(eg0, ren.source(Source::Variable(v))) == eb0[v]);
                },
                Source::Constant(_) => {},
            }
        }
        assert(definable(src[n - 1].ssa, ren));
        lemma_write_keeps_corr(enter(src, (n - 1) as nat, fq, eb0), enter(dst, (n - 1) as nat, fg, eg0), ren, sp.ssa, eval(eb0, s));
        assert forall|j: int| 0 <= j < n && j < dst.len() implies first_source(#[trigger] dst[j].entries@, fg) is Some by {
            if j < n - 1 {
            }
        }
    }
}

/// What a block defines holds the values of its phi nodes and what its
/// operations define.
proof fn lemma_def_sites(b: BasicBlock)
    ensures
        forall|j: int| 0 <= j < b.phi_nodes@.len() ==> block_defs(b).contains((#[trigger] b.phi_nodes@[j]).ssa),
        forall|k: int, i: int| 0 <= k < b.ops@.len() && 0 <= i < b.ops@[k].writes@.len() ==> block_defs(b).contains(#[trigger] b.ops@[k].writes@[i]),
{
    let pd = phi_defs(b.phi_nodes@);
    let od = op_defs(b.ops@);
    assert forall|j: int| 0 <= j < b.phi_nodes@.len() implies block_defs(b).contains((#[trigger] b.phi_nodes@[j]).ssa) by {
        assert(pd[j] == b.phi_nodes@[j].ssa);
        lemma_concat_contains(pd, od, b.phi_nodes@[j].ssa);
    }
    lemma_op_sites(b.ops@);
    assert forall|k: int, i: int| 0 <= k < b.ops@.len() && 0 <= i < b.ops@[k].writes@.len() implies block_defs(b).contains(
        #[trigger] b.ops@[k].writes@[i],
    ) by {
        assert(od.contains(b.ops@[k].writes@[i]));
        lemma_concat_contains(pd, od, b.ops@[k].writes@[i]);
    }
}

proof fn lemma_op_sites(ops: Seq<Op>)
    ensures
        forall|k: int, i: int| 0 <= k < ops.len() && 0 <= i < ops[k].writes@.len() ==> op_defs(ops).contains(#[trigger] ops[k].writes@[i]),
    decreases ops.len(),
{
    if ops.len() > 0 {
        let front = ops.drop_last();
        lemma_op_sites(front);
        assert forall|k: int, i: int| 0 <= k < ops.len() && 0 <= i < ops[k].writes@.len() implies op_defs(ops).contains(#[trigger] ops[k].writes@[i]) by {
            let v = ops[k].writes@[i];
            lemma_concat_contains(op_defs(front), ops.last().writes@, v);
            if k < front.len() {
                assert(front[k] == ops[k]);
                assert(op_defs(front).contains(front[k].writes@[i]));
            } else {
                assert(ops.last().writes@[i] == v);
            }
        }
    }
}

/// All that the inlining of a call rests on: the graph before and after,
/// the body, and the renaming.
pub open spec fn inlined(f: Function, g: Function, c: Label, body: Function, entry: Label, ren: Renaming) -> bool {
    &&& f.inv()
    &&& is_call_site(f, c)
    &&& body.valid()
    &&& defs_below(body)
    &&& body.block(body.entry).phi_nodes@.len() == 0
    &&& in_scope(body, ren)
    &&& ren.wf()
    &&& ren.bound == body.next_value
    &&& g.inv()
    &&& call_inlined(f, g, c, body, entry, ren)
    &&& f.blocks@.len() + 2 + body.blocks@.len() <= u32::MAX
}

/// The phi node of block `e` for value `w` takes the term `value` where
/// block `e` is entered from block `from` in the environment `env`: it has
/// an entry for `from` whose operand holds `value`.
pub open spec fn takes(g: Function, e: Label, w: Value, from: Label, env: Map<Value, Term>, value: Term) -> bool {
    forall|j: int| 0 <= j < g.block(e).phi_nodes@.len() && (#[trigger] g.block(e).phi_nodes@[j]).ssa == w ==> exists|s: Source| #[trigger]
        g.block(e).phi_nodes@[j].entries@.contains((from, s)) && eval(env, s) == value
}

/// The run `og` of the graph after the inlining ends as the run `ob` of
/// the body ends: it fails where the body fails; where the body returns,
/// it arrives at the landing block of the result, or of the exception,
/// whose phi node for the value of the call takes the returned term; where
/// the body comes to a call or a case split, it comes to the copy.
pub open spec fn ends_alike(ob: RunOutcome, og: RunOutcome, f: Function, g: Function, c: Label, body: Function) -> bool {
    let lb = f.blocks@.len() as nat;
    let call = f.block(c).ops@.last();
    match ob {
        RunOutcome::Failed => og == RunOutcome::Failed,
        RunOutcome::Returned { ok, value } => {
            let e = if ok {
                Label(lb as u32)
            } else {
                Label((lb + 1) as u32)
            };
            let w = if ok {
                call.writes@[0]
            } else {
                call.writes@[1]
            };
            &&& og is Arrived
            &&& og->Arrived_block == e
            &&& takes(g, e, w, og->Arrived_from, og->Arrived_env, value)
        },
        RunOutcome::Stopped { block } => og == (RunOutcome::Stopped { block: copy_label(body, lb, block.0 as int) }),
        _ => true,
    }
}

/// Runs of a body stop at no block.
pub open spec fn never() -> spec_fn(Label) -> bool {
    |l: Label| false
}

/// Runs of the graph after an inlining stop at the two landing blocks,
/// which are the blocks from `lb` on.
pub open spec fn at_landing(lb: nat) -> spec_fn(Label) -> bool {
    |l: Label| lb <= l.0 < lb + 2
}

/// The copy of a body block runs as the body block runs.
pub proof fn lemma_copy_runs_alike(
    f: Function,
    g: Function,
    c: Label,
    body: Function,
    entry: Label,
    ren: Renaming,
    sem: spec_fn(OpKind, Seq<Term>) -> Seq<Term>,
    q: int,
    fq: Label,
    fg: Label,
    eb: Map<Value, Term>,
    eg: Map<Value, Term>,
    fuel: nat,
)
    requires
        inlined(f, g, c, body, entry, ren),
        0 <= q < body.blocks@.len(),
        body.blocks@[q] is Some,
        corr(eb, eg, ren),
        body.blocks@[q]->Some_0.phi_nodes@.len() == 0 || (body.is_live(fq) && fg == copy_label(body, f.blocks@.len() as nat, fq.0 as int)),
    ensures
        ends_alike(
            run(body, Label(q as u32), fq, eb, sem, never(), fuel),
            run(g, copy_label(body, f.blocks@.len() as nat, q), fg, eg, sem, at_landing(f.blocks@.len() as nat), fuel + 1),
            f,
            g,
            c,
            body,
        ),
    decreases fuel,
{
    let lb = f.blocks@.len() as nat;
    let never = never();
    let stop = at_landing(lb);
    let bq = Label(q as u32);
    let cq = copy_label(body, lb, q);
    let src = body.blocks@[q]->Some_0;
    let dst = g.block(cq);
    let map = copy_map(body, lb);
    let call = f.block(c).ops@.last();
    let ob = run(body, bq, fq, eb, sem, never, fuel);
    let og = run(g, cq, fg, eg, sem, stop, fuel + 1);
    assert(body.is_live(bq) && body.block(bq) == src);
    if fuel == 0 || src.ops@.len() == 0 || !can_enter(src.phi_nodes@, src.phi_nodes@.len(), fq) {
        assert(!never(bq));
        assert(ob is Stuck);
    } else {
        crate::naive_inline_closures::lemma_live_before_bound(body, body.blocks@.len() as int);
        crate::naive_inline_closures::lemma_live_before_bound(body, q);
        assert(copy_of(f, g, c, body, ren, q));
        assert(g.is_live(cq));
        assert(!stop(cq));
        assert(block_arity_ok(src));
        assert(body.jumps_live_at(bq));
        assert(body.phis_complete_at(bq));
        assert(body.back_refs_exact_at(bq));
        lemma_def_sites(src);
        assert(slot_defs(body.blocks@[q]) == block_defs(src));
        assert forall|v: Value| #[trigger] block_defs(src).contains(v) implies definable(v, ren) by {
            assert(slot_defs(body.blocks@[q]).contains(v));
        }
        // entering the block
        assert(phis_copied(src.phi_nodes@, dst.phi_nodes@, ren, map));
        assert forall|j: int, e: int| 0 <= j < src.phi_nodes@.len() && 0 <= e < src.phi_nodes@[j].entries@.len() implies (map[(#[trigger] src.phi_nodes@[j].entries@[e]).0.0 as int]
            == fg <==> src.phi_nodes@[j].entries@[e].0 == fq) && operand_below(src.phi_nodes@[j].entries@[e].1, ren.bound) by {
            let phi = src.phi_nodes@[j];
            let a = phi.entries@[e].0;
            assert(phi_complete(src, src.phi_nodes@[j]));
            assert(phi.preds()[e] == a);
            assert(phi.preds().contains(a));
            assert(src.back_refs@.contains(a) <==> body.edge(a, bq));
            assert(body.is_live(a));
            if a != fq {
                lemma_copies_differ(body, lb, a.0 as int, fq.0 as int);
            }
            assert(operand_below(body.blocks@[q]->Some_0.phi_nodes@[j].entries@[e].1, ren.bound));
        }
        assert forall|j: int| 0 <= j < src.phi_nodes@.len() implies definable((#[trigger] src.phi_nodes@[j]).ssa, ren) by {
            assert(block_defs(src).contains(src.phi_nodes@[j].ssa));
        }
        lemma_enter_keeps_corr(src.phi_nodes@, dst.phi_nodes@, src.phi_nodes@.len(), fq, fg, eb, eg, ren, map);
        let eb1 = enter(src.phi_nodes@, src.phi_nodes@.len(), fq, eb);
        let eg1 = enter(dst.phi_nodes@, dst.phi_nodes@.len(), fg, eg);
        // running the operations before the last
        let n = (src.ops@.len() - 1) as nat;
        assert forall|k: int| 0 <= k < n implies op_renamed(#[trigger] src.ops@[k], dst.ops@[k], ren) && !(src.ops@[k].kind is Case) by {}
        assert forall|k: int, r: int| 0 <= k < src.ops@.len() && 0 <= r < src.ops@[k].reads@.len() implies operand_below(
            #[trigger] src.ops@[k].reads@[r],
            ren.bound,
        ) by {
            assert(operand_below(body.blocks@[q]->Some_0.ops@[k].reads@[r], ren.bound));
        }
        assert forall|k: int, i: int| 0 <= k < src.ops@.len() && 0 <= i < src.ops@[k].writes@.len() implies definable(
            #[trigger] src.ops@[k].writes@[i],
            ren,
        ) by {
            assert(block_defs(src).contains(src.ops@[k].writes@[i]));
        }
        lemma_ops_keep_corr(src.ops@, dst.ops@, n, eb1, eg1, ren, sem);
        let eb2 = run_ops(src.ops@, n, eb1, sem);
        let eg2 = run_ops(dst.ops@, n, eg1, sem);
        assert(ob == run_end(body, bq, eb2, sem, never, (fuel - 1) as nat));
        assert(og == run_end(g, cq, eg2, sem, stop, fuel));
        // running the last operation
        let op = src.ops@.last();
        let dop = dst.ops@.last();
        assert forall|r: int| 0 <= r < op.reads@.len() implies operand_below(#[trigger] op.reads@[r], ren.bound) by {
            assert(operand_below(src.ops@[src.ops@.len() - 1].reads@[r], ren.bound));
        }
        if op.reads@.len() > 0 {
            assert(operand_below(op.reads@[0], ren.bound));
            assert(eval(eg2, ren.source(op.reads@[0])) == eval(eb2, op.reads@[0])) by {
                match op.reads@[0] {
                    Source::Variable(v) => {
                        assert(eval(eg2, ren.source(Source::Variable(v))) == eb2[v]);
                    },
                    Source::Constant(_) => {},
                }
            }
        }
        if op.kind is ReturnOk || op.kind is ReturnThrow {
            let e = if op.kind is ReturnOk { Label(lb as u32) } else { Label((lb + 1) as u32) };
            assert(dop.kind == OpKind::Jump);
            assert(dst.jumps@ == seq![e]);
            assert(stop(e));
            if op.reads@.len() == 0 {
                assert(ob is Stuck);
            }
            if op.reads@.len() > 0 {
                assert(ob == (RunOutcome::Returned { ok: op.kind is ReturnOk, value: eval(eb2, op.reads@[0]) }));
                assert(og == (RunOutcome::Arrived { block: e, from: cq, env: eg2 }));
                let w = if op.kind is ReturnOk { call.writes@[0] } else { call.writes@[1] };
                assert forall|j: int| 0 <= j < g.block(e).phi_nodes@.len() && (#[trigger] g.block(e).phi_nodes@[j]).ssa == w implies exists|s: Source| #[trigger]
                    g.block(e).phi_nodes@[j].entries@.contains((cq, s)) && eval(eg2, s) == eval(eb2, op.reads@[0]) by {
                    let s = returned_source(op, ren);
                    assert(g.block(e).phi_nodes@[j].entries@.contains((cq, s)));
                }
                assert(takes(g, e, w, cq, eg2, eval(eb2, op.reads@[0])));
                assert(ends_alike(ob, og, f, g, c, body));
            }
        } else {
            assert(op_renamed(op, dop, ren));
            assert(kind_renamed(op.kind, dop.kind, ren.vbase, ren.bound));
            assert(dst.jumps@.len() == src.jumps@.len());
            assert forall|k: int| 0 <= k < src.jumps@.len() implies body.blocks@[(#[trigger] src.jumps@[k]).0 as int] is Some && dst.jumps@[k] == copy_label(
                body,
                lb,
                src.jumps@[k].0 as int,
            ) by {
                assert(body.is_live(body.block(bq).jumps@[k]));
            }
            match op.kind {
                OpKind::Jump => {
                    if src.jumps@.len() == 1 {
                        let t = src.jumps@[0];
                        lemma_copy_runs_alike(f, g, c, body, entry, ren, sem, t.0 as int, bq, cq, eb2, eg2, (fuel - 1) as nat);
                        assert(ob == run(body, t, bq, eb2, sem, never, (fuel - 1) as nat));
                        assert(og == run(g, copy_label(body, lb, t.0 as int), cq, eg2, sem, stop, fuel));
                    }
                    assert(ends_alike(ob, og, f, g, c, body));
                },
                OpKind::MatchFail => {
                    assert(ends_alike(ob, og, f, g, c, body));
                },
                OpKind::IsLiteral(lit) => {
                    if src.jumps@.len() == 2 && op.reads@.len() == 1 {
                        assert(dop.reads@[0] == ren.source(op.reads@[0]));
                        let t = if eval(eb2, op.reads@[0]) == Term::Literal(lit) { src.jumps@[0] } else { src.jumps@[1] };
                        lemma_copy_runs_alike(f, g, c, body, entry, ren, sem, t.0 as int, bq, cq, eb2, eg2, (fuel - 1) as nat);
                    }
                    assert(ends_alike(ob, og, f, g, c, body));
                },
                OpKind::UnpackTuple { arity } => {
                    if src.jumps@.len() == 2 && op.reads@.len() == 1 && op.writes@.len() == arity {
                        assert(dop.reads@[0] == ren.source(op.reads@[0]));
                        let tm = eval(eb2, op.reads@[0]);
                        if tm is Tuple && tm->Tuple_0.len() == arity {
                            assert(dop.writes@ =~= renamed_seq(op.writes@, ren.vbase, ren.bound));
                            assert forall|i: int| 0 <= i < op.writes@.len() implies definable(#[trigger] op.writes@[i], ren) by {
                                assert(definable(src.ops@[src.ops@.len() - 1].writes@[i], ren));
                            }
                            lemma_writes_keep_corr(eb2, eg2, ren, op.writes@, tm->Tuple_0);
                            lemma_copy_runs_alike(
                                f,
                                g,
                                c,
                                body,
                                entry,
                                ren,
                                sem,
                                src.jumps@[0].0 as int,
                                bq,
                                cq,
                                bind_all(eb2, op.writes@, tm->Tuple_0),
                                bind_all(eg2, dop.writes@, tm->Tuple_0),
                                (fuel - 1) as nat,
                            );
                        } else {
                            lemma_copy_runs_alike(f, g, c, body, entry, ren, sem, src.jumps@[1].0 as int, bq, cq, eb2, eg2, (fuel - 1) as nat);
                        }
                    }
                    assert(ends_alike(ob, og, f, g, c, body));
                },
                _ => {
                    assert(ob == (RunOutcome::Stopped { block: bq }));
                    assert(og == (RunOutcome::Stopped { block: cq }));
                },
            }
        }
    }
}

/// The environment in which the body of a closure runs where the call is
/// made in the environment `eg`: a captured value holds what the operand
/// holds that the closure was bound over, a parameter what the argument
/// holds.
pub open spec fn body_env(eg: Map<Value, Term>, ren: Renaming) -> Map<Value, Term> {
    Map::new(|v: Value| true, |v: Value| eval(eg, ren.source(Source::Variable(v))))
}

/// An inlined call runs as the body of the closure runs. Where the body,
/// run from its entry with what the closure captured and the arguments of
/// the call, returns a result or throws, the graph after the inlining, run
/// from the end of the block that held the call, arrives at the landing
/// block of the continuation for the result or for the exception, and the
/// phi node there for the value of the call takes the returned term. Where
/// the body fails to match, so does the graph.
pub proof fn lemma_inlined_call_runs_as_body(
    f: Function,
    g: Function,
    c: Label,
    body: Function,
    entry: Label,
    ren: Renaming,
    sem: spec_fn(OpKind, Seq<Term>) -> Seq<Term>,
    eg: Map<Value, Term>,
    from: Label,
    fuel: nat,
)
    requires
        inlined(f, g, c, body, entry, ren),
    ensures
        ends_alike(
            run(body, body.entry, from, body_env(eg, ren), sem, never(), fuel),
            run_end(g, c, eg, sem, at_landing(f.blocks@.len() as nat), fuel + 1),
            f,
            g,
            c,
            body,
        ),
{
    let lb = f.blocks@.len() as nat;
    let eb = body_env(eg, ren);
    assert(corr(eb, eg, ren));
    assert(body.is_live(body.entry));
    let q = body.entry.0 as int;
    assert(body.block(body.entry) == body.blocks@[q]->Some_0);
    lemma_copy_runs_alike(f, g, c, body, entry, ren, sem, q, from, c, eb, eg, fuel);
    assert(Label(q as u32) == body.entry);
    assert(g.block(c).jumps@[0] == entry);
    assert(run_end(g, c, eg, sem, at_landing(lb), fuel + 1) == run(g, entry, c, eg, sem, at_landing(lb), fuel + 1));
}

} // verus!
