//! The pass that cleans a graph up: it deletes blocks that nothing jumps
//! to, collapses phi nodes with a single entry, and threads jumps through
//! blocks that do nothing but jump on.
use vstd::prelude::*;
use crate::builder::{
    block_removed, block_rekeyed, block_substituted, only_block_changed, retargeted, same_code, same_edges,
    FunctionBuilder,
};
use crate::function::Function;
use crate::ir::{BasicBlock, Label, OpKind, Source, Value};
use crate::util::contains_label;

verus! {

/// What a slot of the arena counts for: a live block counts one, and one
/// more for each of its phi nodes.
pub open spec fn slot_weight(slot: Option<BasicBlock>) -> nat {
    match slot {
        Some(b) => 1 + b.phi_nodes@.len(),
        None => 0,
    }
}

pub open spec fn arena_weight(blocks: Seq<Option<BasicBlock>>) -> nat
    decreases blocks.len(),
{
    if blocks.len() == 0 {
        0
    } else {
        arena_weight(blocks.drop_last()) + slot_weight(blocks.last())
    }
}

/// The size of a graph for simplification: its live blocks and their phi
/// nodes. Every simplification step makes it smaller.
pub open spec fn graph_weight(f: Function) -> nat {
    arena_weight(f.blocks@)
}

/// An arena in which no slot counts for more than before, and one for
/// less, weighs less.
pub proof fn lemma_weight_drops(s: Seq<Option<BasicBlock>>, t: Seq<Option<BasicBlock>>, j: int)
    requires
        s.len() == t.len(),
        forall|i: int| 0 <= i < s.len() ==> slot_weight(#[trigger] t[i]) <= slot_weight(s[i]),
        0 <= j < s.len(),
        slot_weight(t[j]) < slot_weight(s[j]),
    ensures
        arena_weight(t) < arena_weight(s),
    decreases s.len(),
{
    let s0 = s.drop_last();
    let t0 = t.drop_last();
    if j < s.len() - 1 {
        assert forall|i: int| 0 <= i < s0.len() implies slot_weight(#[trigger] t0[i]) <= slot_weight(s0[i]) by {
            assert(t0[i] == t[i]);
        }
        lemma_weight_drops(s0, t0, j);
    } else {
        lemma_weight_no_gain(s0, t0);
    }
}

proof fn lemma_weight_no_gain(s: Seq<Option<BasicBlock>>, t: Seq<Option<BasicBlock>>)
    requires
        s.len() == t.len(),
        forall|i: int| 0 <= i < s.len() ==> slot_weight(#[trigger] t[i]) <= slot_weight(s[i]),
    ensures
        arena_weight(t) <= arena_weight(s),
    decreases s.len(),
{
    if s.len() > 0 {
        let s0 = s.drop_last();
        let t0 = t.drop_last();
        assert forall|i: int| 0 <= i < s0.len() implies slot_weight(#[trigger] t0[i]) <= slot_weight(s0[i]) by {
            assert(t0[i] == t[i]);
        }
        lemma_weight_no_gain(s0, t0);
    }
}

/// One step of simplification.
#[derive(Debug, Clone, Copy, PartialEq, Eq, Structural, Hash)]
pub enum SimplifyStep {
    /// Delete the block: nothing jumps to it and it is not the entry.
    RemoveBlock(Label),
    /// Take the phi node at this position out of the block and put its one
    /// operand in place of every use of its value.
    CollapsePhi(Label, usize),
    /// Let the one predecessor of the block, which only jumps on, jump to
    /// where the block jumps, and delete the block.
    Thread(Label),
}

pub open spec fn can_remove(f: Function, l: Label) -> bool {
    f.is_live(l) && l != f.entry && f.block(l).back_refs@.len() == 0
}

pub open spec fn can_collapse(f: Function, l: Label, k: int) -> bool {
    f.is_live(l) && 0 <= k < f.block(l).phi_nodes@.len() && f.block(l).phi_nodes@[k].entries@.len() == 1
}

/// Block `j` does nothing but jump on to another block, and has one
/// predecessor. Where the block it jumps to has phi nodes, the predecessor
/// must not be a predecessor of that block already: a phi node has one
/// entry for each predecessor.
pub open spec fn can_thread(f: Function, j: Label) -> bool {
    let b = f.block(j);
    &&& f.is_live(j)
    &&& j != f.entry
    &&& b.phi_nodes@.len() == 0
    &&& b.ops@.len() == 1
    &&& b.ops@[0].kind is Jump
    &&& b.jumps@.len() == 1
    &&& b.jumps@[0] != j
    &&& b.back_refs@.len() == 1
    &&& (!f.block(b.jumps@[0]).back_refs@.contains(b.back_refs@[0]) || f.block(b.jumps@[0]).phi_nodes@.len() == 0)
}

pub open spec fn applicable(f: Function, s: SimplifyStep) -> bool {
    match s {
        SimplifyStep::RemoveBlock(l) => can_remove(f, l),
        SimplifyStep::CollapsePhi(l, k) => can_collapse(f, l, k as int),
        SimplifyStep::Thread(j) => can_thread(f, j),
    }
}

/// No step of simplification applies to the graph.
pub open spec fn is_simplified(f: Function) -> bool {
    forall|s: SimplifyStep| !applicable(f, s)
}

/// From `f` to `g` every use of `from` has been replaced by `to`.
pub open spec fn uses_replaced(f: Function, g: Function, from: Value, to: Source) -> bool {
    &&& g.inv()
    &&& same_edges(f, g)
    &&& g.entry == f.entry
    &&& g.next_value == f.next_value
    &&& forall|l: Label| #[trigger] f.is_live(l) ==> block_substituted(f.block(l), g.block(l), from, to)
}

/// From `f` to `g` the phi node at position `k` of block `l` has been
/// taken out.
pub open spec fn phi_taken(f: Function, g: Function, l: Label, k: int) -> bool {
    &&& g.inv()
    &&& only_block_changed(f, g, l)
    &&& same_edges(f, g)
    &&& g.block(l).ops == f.block(l).ops
    &&& g.block(l).phi_nodes@ == f.block(l).phi_nodes@.remove(k)
}

/// From `f` to `g` the phi entries of block `t` for `from` have become
/// entries for `to`.
pub open spec fn phis_rekeyed(f: Function, g: Function, t: Label, from: Label, to: Label) -> bool {
    &&& g.inv()
    &&& only_block_changed(f, g, t)
    &&& same_edges(f, g)
    &&& block_rekeyed(f.block(t), g.block(t), from, to)
}

/// From `f` to `g` block `p` jumps to `to` wherever it jumped to `from`.
pub open spec fn jumps_retargeted(f: Function, g: Function, p: Label, from: Label, to: Label) -> bool {
    &&& g.inv()
    &&& same_code(f, g)
    &&& g.block(p).jumps@ == retargeted(f.block(p).jumps@, from, to)
    &&& forall|l: Label| #[trigger] f.is_live(l) && l != p ==> g.block(l).jumps == f.block(l).jumps
}

/// What a step makes of a graph to which it applies.
pub open spec fn step_result(f: Function, g: Function, s: SimplifyStep) -> bool {
    match s {
        SimplifyStep::RemoveBlock(l) => block_removed(f, g, l),
        SimplifyStep::CollapsePhi(l, k) => {
            let phi = f.block(l).phi_nodes@[k as int];
            exists|m: Function| #[trigger] phi_taken(f, m, l, k as int) && uses_replaced(m, g, phi.ssa, phi.entries@[0].1)
        },
        SimplifyStep::Thread(j) => {
            let t = f.block(j).jumps@[0];
            let p = f.block(j).back_refs@[0];
            exists|m1: Function, m2: Function| #[trigger] phis_rekeyed(f, m1, t, j, p) && #[trigger] jumps_retargeted(m1, m2, p, j, t) && block_removed(m2, g, j)
        },
    }
}

/// The graph before the step at position `i` of a run that starts at `f`.
pub open spec fn state_before(f: Function, run: Seq<(SimplifyStep, Function)>, i: int) -> Function {
    if i == 0 {
        f
    } else {
        run[i - 1].1
    }
}

/// `run` is a run of simplification from `f` to `g`: each step is the
/// next step for the graph that the step before it made, and `g` is what
/// the last step made.
pub open spec fn derives(f: Function, run: Seq<(SimplifyStep, Function)>, g: Function) -> bool {
    &&& g == state_before(f, run, run.len() as int)
    &&& forall|i: int| 0 <= i < run.len() ==> {
        &&& applicable(state_before(f, run, i), (#[trigger] run[i]).0)
        &&& is_next_step(state_before(f, run, i), run[i].0)
        &&& step_result(state_before(f, run, i), run[i].1, run[i].0)
    }
}

/// `g` is what simplification makes of `f`: a run of steps leads from `f`
/// to `g`, and no step applies to `g`.
pub open spec fn simplified_from(f: Function, g: Function) -> bool {
    is_simplified(g) && exists|run: Seq<(SimplifyStep, Function)>| derives(f, run, g)
}

/// Simplifying a simplified graph changes nothing: what a second
/// simplification makes of the result of a first is that result.
pub proof fn lemma_simplify_idempotent(f: Function, g: Function, h: Function)
    requires
        simplified_from(f, g),
        simplified_from(g, h),
    ensures
        h == g,
{
    let run = choose|run: Seq<(SimplifyStep, Function)>| derives(g, run, h);
    if run.len() > 0 {
        assert(applicable(state_before(g, run, 0), run[0].0));
    }
}

/// No step applies at block `l`.
pub open spec fn settled_at(f: Function, l: Label) -> bool {
    &&& !can_remove(f, l)
    &&& !can_thread(f, l)
    &&& forall|k: int| !can_collapse(f, l, k)
}

/// The block that a step is taken at.
pub open spec fn step_block(s: SimplifyStep) -> Label {
    match s {
        SimplifyStep::RemoveBlock(l) => l,
        SimplifyStep::CollapsePhi(l, _) => l,
        SimplifyStep::Thread(l) => l,
    }
}

/// Step `s` is the step to take at its block: deleting the block comes
/// before collapsing its first phi node with a single entry, and that
/// before threading.
pub open spec fn is_preferred(f: Function, s: SimplifyStep) -> bool {
    match s {
        SimplifyStep::RemoveBlock(l) => can_remove(f, l),
        SimplifyStep::CollapsePhi(l, k) => {
            &&& !can_remove(f, l)
            &&& can_collapse(f, l, k as int)
            &&& forall|q: int| 0 <= q < k ==> !can_collapse(f, l, q)
        },
        SimplifyStep::Thread(l) => {
            &&& !can_remove(f, l)
            &&& forall|q: int| !can_collapse(f, l, q)
            &&& can_thread(f, l)
        },
    }
}

/// Step `s` is the step that simplification takes next: the preferred
/// step at the first block, in label order, at which a step applies.
pub open spec fn is_next_step(f: Function, s: SimplifyStep) -> bool {
    &&& is_preferred(f, s)
    &&& forall|l: Label| #[trigger] f.is_live(l) && l.0 < step_block(s).0 ==> settled_at(f, l)
}

/// The step to take at block `l`, if one applies there.
fn step_at(f: &Function, l: Label) -> (r: Option<SimplifyStep>)
    requires
        f.inv(),
        f.is_live(l),
    ensures
        match r {
            Some(s) => applicable(*f, s) && is_preferred(*f, s) && step_block(s) == l,
            None => settled_at(*f, l),
        },
{
    let b = f.get(l);
    if l != f.entry && b.back_refs.len() == 0 {
        return Some(SimplifyStep::RemoveBlock(l));
    }
    let mut k: usize = 0;
    while k < b.phi_nodes.len()
        invariant
            k <= b.phi_nodes@.len(),
            f.is_live(l),
            *b == f.block(l),
            !can_remove(*f, l),
            forall|q: int| 0 <= q < k ==> !can_collapse(*f, l, q),
        decreases b.phi_nodes@.len() - k,
    {
        if b.phi_nodes[k].entries.len() == 1 {
            return Some(SimplifyStep::CollapsePhi(l, k));
        }
        k += 1;
    }
    if l != f.entry && b.phi_nodes.len() == 0 && b.ops.len() == 1 && b.jumps.len() == 1 && b.back_refs.len() == 1 {
        let is_jump = match b.ops[0].kind {
            OpKind::Jump => true,
            _ => false,
        };
        let t = b.jumps[0];
        let p = b.back_refs[0];
        if is_jump && t != l {
            assert(f.jumps_live_at(l));
            assert(f.is_live(b.jumps@[0]));
            let tb = f.get(t);
            if tb.phi_nodes.len() == 0 || !contains_label(&tb.back_refs, p) {
                return Some(SimplifyStep::Thread(l));
            }
        }
    }
    None
}

/// A step that applies to the graph, or `None` where the graph is
/// simplified: the first block in label order at which a step applies
/// settles which.
pub fn find_step(f: &Function) -> (r: Option<SimplifyStep>)
    requires
        f.inv(),
    ensures
        match r {
            Some(s) => applicable(*f, s) && is_next_step(*f, s),
            None => is_simplified(*f),
        },
{
    let mut i: usize = 0;
    while i < f.blocks.len()
        invariant
            i <= f.blocks@.len() <= u32::MAX,
            f.inv(),
            forall|l: Label| #[trigger] f.is_live(l) && l.0 < i ==> settled_at(*f, l),
        decreases f.blocks@.len() - i,
    {
        if f.blocks[i].is_some() {
            let l = Label(i as u32);
            assert(f.is_live(l));
            match step_at(f, l) {
                Some(s) => {
                    return Some(s);
                },
                None => {},
            }
        }
        i += 1;
    }
    proof {
        assert forall|s: SimplifyStep| !applicable(*f, s) by {
            match s {
                SimplifyStep::RemoveBlock(l) => {
                    if f.is_live(l) {
                        assert(settled_at(*f, l));
                    }
                },
                SimplifyStep::CollapsePhi(l, k) => {
                    if f.is_live(l) {
                        assert(settled_at(*f, l));
                    }
                },
                SimplifyStep::Thread(l) => {
                    if f.is_live(l) {
                        assert(settled_at(*f, l));
                    }
                },
            }
        }
    }
    None
}

proof fn lemma_slot_of_label(f: Function, i: int)
    requires
        0 <= i < f.blocks@.len() <= u32::MAX,
    ensures
        f.is_live(Label(i as u32)) <==> f.blocks@[i] is Some,
        f.blocks@[i] is Some ==> f.blocks@[i] == Some(f.block(Label(i as u32))),
{
}

/// Deleting a block makes the graph lighter.
proof fn lemma_removed_is_lighter(f: Function, g: Function, dead: Label)
    requires
        f.blocks@.len() <= u32::MAX,
        f.is_live(dead),
        block_removed(f, g, dead),
    ensures
        graph_weight(g) < graph_weight(f),
{
    assert forall|i: int| 0 <= i < f.blocks@.len() implies slot_weight(#[trigger] g.blocks@[i]) <= slot_weight(f.blocks@[i]) by {
        let l = Label(i as u32);
        lemma_slot_of_label(f, i);
        lemma_slot_of_label(g, i);
        if l != dead {
            assert(g.is_live(l) == f.is_live(l));
        }
    }
    lemma_slot_of_label(f, dead.0 as int);
    lemma_slot_of_label(g, dead.0 as int);
    lemma_weight_drops(f.blocks@, g.blocks@, dead.0 as int);
}

/// A graph with the same live blocks, each with as many phi nodes as
/// before, weighs the same.
proof fn lemma_same_weight(f: Function, g: Function)
    requires
        f.blocks@.len() == g.blocks@.len(),
        f.blocks@.len() <= u32::MAX,
        forall|l: Label| #[trigger] f.is_live(l) == g.is_live(l),
        forall|l: Label| #[trigger] f.is_live(l) ==> g.block(l).phi_nodes@.len() == f.block(l).phi_nodes@.len(),
    ensures
        graph_weight(g) == graph_weight(f),
{
    assert forall|i: int| 0 <= i < f.blocks@.len() implies slot_weight(#[trigger] g.blocks@[i]) == slot_weight(f.blocks@[i]) by {
        let l = Label(i as u32);
        lemma_slot_of_label(f, i);
        lemma_slot_of_label(g, i);
        assert(g.is_live(l) == f.is_live(l));
    }
    lemma_weight_no_gain(f.blocks@, g.blocks@);
    lemma_weight_no_gain(g.blocks@, f.blocks@);
}

/// Takes one step of simplification.
pub fn apply_step(b: &mut FunctionBuilder, s: SimplifyStep)
    requires
        old(b)@.inv(),
        applicable(old(b)@, s),
    ensures
        final(b)@.inv(),
        step_result(old(b)@, final(b)@, s),
        graph_weight(final(b)@) < graph_weight(old(b)@),
        old(b)@.valid() ==> final(b)@.valid(),
{
    let ghost o = b@;
    match s {
        SimplifyStep::RemoveBlock(l) => {
            b.remove_block(l);
            proof {
                lemma_removed_is_lighter(o, b@, l);
                if o.valid() {
                    crate::simplify_soundness::lemma_removed_arity(o, b@, l);
                    crate::simplify_soundness::lemma_removed_ssa(o, b@, l);
                    crate::simplify_soundness::lemma_removed_phis(o, b@, l);
                }
            }
        },
        SimplifyStep::CollapsePhi(l, k) => {
            let phi = b.remove_phi(l, k);
            let ghost m = b@;
            let src = phi.entries[0].1;
            b.replace_uses(phi.ssa, src);
            proof {
                let g = b@;
                assert(phi_taken(o, m, l, k as int));
                assert(uses_replaced(m, g, phi.ssa, src));
                assert forall|x: Label| #[trigger] m.is_live(x) implies g.block(x).phi_nodes@.len() == m.block(x).phi_nodes@.len() by {
                    assert(block_substituted(m.block(x), g.block(x), phi.ssa, src));
                }
                lemma_same_weight(m, g);
                assert forall|i: int| 0 <= i < o.blocks@.len() implies slot_weight(#[trigger] m.blocks@[i]) <= slot_weight(o.blocks@[i]) by {
                    if i != l.0 {
                        assert(m.blocks@[i] == o.blocks@[i]);
                    }
                }
                lemma_weight_drops(o.blocks@, m.blocks@, l.0 as int);
                if o.valid() {
                    crate::simplify_soundness::lemma_collapse_keeps_valid(o, m, g, l, k as int, phi.ssa, src);
                }
            }
        },
        SimplifyStep::Thread(j) => {
            let t = b.fun().get(j).jumps[0];
            let p = b.fun().get(j).back_refs[0];
            proof {
                assert(o.jumps_live_at(j));
                assert(o.is_live(o.block(j).jumps@[0]));
                assert(o.back_refs_exact_at(j));
                assert(o.block(j).back_refs@.contains(o.block(j).back_refs@[0]));
                assert(o.edge(p, j));
            }
            b.rekey_phi_entries(t, j, p);
            let ghost m1 = b@;
            proof {
                assert(m1.is_live(p) && m1.is_live(t) && m1.is_live(j));
            }
            b.retarget(p, j, t);
            let ghost m2 = b@;
            proof {
                assert(m2.is_live(j) && m2.is_live(p));
                assert(m2.back_refs_exact_at(j));
                assert forall|a: Label| !m2.edge(a, j) by {
                    if m2.is_live(a) {
                        assert(m1.is_live(a) && o.is_live(a));
                        if a == p {
                            let js = m1.block(p).jumps@;
                            if m2.block(p).jumps@.contains(j) {
                                let q = choose|q: int| 0 <= q < m2.block(p).jumps@.len() && m2.block(p).jumps@[q] == j;
                                assert(retargeted(js, j, t)[q] == if js[q] == j { t } else { js[q] });
                            }
                        } else {
                            assert(m2.block(a).jumps == m1.block(a).jumps);
                            assert(m1.block(a).jumps == o.block(a).jumps);
                            assert(o.block(j).back_refs@.contains(a) <==> o.edge(a, j));
                            if o.block(j).back_refs@.contains(a) {
                                let q = choose|q: int| 0 <= q < o.block(j).back_refs@.len() && o.block(j).back_refs@[q] == a;
                            }
                        }
                    }
                }
                if m2.block(j).back_refs@.len() > 0 {
                    let x = m2.block(j).back_refs@[0];
                    assert(m2.block(j).back_refs@.contains(x));
                    assert(m2.block(j).back_refs@.contains(x) <==> m2.edge(x, j));
                    assert(false);
                }
                assert(m2.block(j).back_refs@.len() == 0);
                assert(m2.entry == o.entry);
                assert(j != m2.entry);
            }
            b.remove_block(j);
            proof {
                let g = b@;
                assert(phis_rekeyed(o, m1, t, j, p));
                assert(jumps_retargeted(m1, m2, p, j, t));
                lemma_removed_is_lighter(m2, g, j);
                lemma_same_weight(m1, m2);
                assert forall|x: Label| #[trigger] o.is_live(x) == m1.is_live(x) by {}
                assert forall|x: Label| #[trigger] o.is_live(x) implies m1.block(x).phi_nodes@.len() == o.block(x).phi_nodes@.len() by {
                    if x != t {
                        assert(m1.blocks@[x.0 as int] == o.blocks@[x.0 as int]);
                    }
                }
                lemma_same_weight(o, m1);
                if o.valid() {
                    crate::simplify_soundness::lemma_thread_keeps_valid(o, m1, m2, g, j);
                }
            }
        },
    }
}

/// The steps of a run, in order.
pub open spec fn steps_of(run: Seq<(SimplifyStep, Function)>) -> Seq<SimplifyStep> {
    Seq::new(run.len(), |i: int| run[i].0)
}

/// A run goes on by a step that applies to the graph it has reached.
#[verifier::rlimit(60)]
#[verifier::spinoff_prover]
proof fn lemma_run_extends(o: Function, before: Seq<(SimplifyStep, Function)>, pre: Function, s: SimplifyStep, g: Function)
    requires
        derives(o, before, pre),
        applicable(pre, s),
        is_next_step(pre, s),
        step_result(pre, g, s),
    ensures
        derives(o, before.push((s, g)), g),
        steps_of(before.push((s, g))) == steps_of(before).push(s),
{
    let run = before.push((s, g));
    assert forall|i: int| 0 <= i < run.len() implies {
        &&& applicable(state_before(o, run, i), (#[trigger] run[i]).0)
        &&& is_next_step(state_before(o, run, i), run[i].0)
        &&& step_result(state_before(o, run, i), run[i].1, run[i].0)
    } by {
        if i < before.len() {
            assert(run[i] == before[i]);
            assert(state_before(o, run, i) == state_before(o, before, i));
            assert(applicable(state_before(o, before, i), before[i].0));
            assert(is_next_step(state_before(o, before, i), before[i].0));
            assert(step_result(state_before(o, before, i), before[i].1, before[i].0));
        } else {
            assert(run[i] == (s, g));
            assert(state_before(o, run, i) == pre);
        }
    }
    assert(steps_of(run) =~= steps_of(before).push(s));
}

/// Simplifies a graph: takes steps until none applies, and returns the
/// steps taken, in order.
pub fn simplify(b: &mut FunctionBuilder) -> (log: Vec<SimplifyStep>)
    requires
        old(b)@.inv(),
    ensures
        final(b)@.inv(),
        is_simplified(final(b)@),
        exists|run: Seq<(SimplifyStep, Function)>| derives(old(b)@, run, final(b)@) && steps_of(run) == log@,
        simplified_from(old(b)@, final(b)@),
        is_simplified(old(b)@) ==> final(b)@ == old(b)@ && log@.len() == 0,
        old(b)@.valid() ==> final(b)@.valid(),
{
    let ghost o = b@;
    let ghost mut run = Seq::<(SimplifyStep, Function)>::empty();
    let mut log: Vec<SimplifyStep> = Vec::new();
    let mut next = find_step(b.fun());
    proof {
        assert(steps_of(run) =~= log@);
    }
    while next.is_some()
        invariant
            b@.inv(),
            o.valid() ==> b@.valid(),
            derives(o, run, b@),
            steps_of(run) == log@,
            is_simplified(o) ==> run.len() == 0,
            match next {
                Some(s) => applicable(b@, s) && is_next_step(b@, s),
                None => is_simplified(b@),
            },
        decreases graph_weight(b@),
    {
        let s = next.unwrap();
        let ghost pre = b@;
        let ghost before = run;
        apply_step(b, s);
        log.push(s);
        proof {
            run = before.push((s, b@));
            lemma_run_extends(o, before, pre, s, b@);
            assert(steps_of(run) =~= log@);
        }
        next = find_step(b.fun());
    }
    log
}

/// The pass that simplifies a function's graph.
#[derive(Debug)]
pub struct SimplifyCfgPass {
    /// The steps that the last run took, in order: what it deleted as
    /// dead, collapsed and threaded.
    pub applied: Vec<SimplifyStep>,
}

impl SimplifyCfgPass {
    pub fn new() -> (p: SimplifyCfgPass)
        ensures
            p.applied@.len() == 0,
    {
        SimplifyCfgPass { applied: Vec::new() }
    }
}

/// What simplification makes of a graph: `g` is reached from `f` by
/// simplification steps and admits no further step, and is sound where `f`
/// was.
pub open spec fn simplify_effect(f: Function, g: Function) -> bool {
    &&& g.inv()
    &&& simplified_from(f, g)
    &&& f.valid() ==> g.valid()
}

impl crate::pass::FunctionPass for SimplifyCfgPass {
    open spec fn effect(&self, f: Function, g: Function) -> bool {
        simplify_effect(f, g)
    }

    /// Simplifies the graph and keeps the log of the steps taken.
    fn run_function_pass(&mut self, b: &mut FunctionBuilder)
        ensures
            simplified_from(old(b)@, final(b)@),
            exists|run: Seq<(SimplifyStep, Function)>| derives(old(b)@, run, final(b)@) && steps_of(run) == final(self).applied@,
            old(b)@.valid() ==> final(b)@.valid(),
    {
        self.applied = simplify(b);
    }
}

} // verus!
