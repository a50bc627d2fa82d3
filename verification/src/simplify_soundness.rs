//! Why a step of simplification keeps a sound graph sound.
use vstd::prelude::*;
use crate::builder::{
    block_removed, block_rekeyed, block_substituted, phi_rekeyed, phi_stripped, phi_substituted, phis_stripped,
    rekeyed_entries, retargeted,
};
use crate::case_soundness::lemma_without_preds;
use crate::function::{block_arity_ok, block_defs, op_defs, phi_complete, phi_defs, Function};
use crate::ir::{entry_preds, BasicBlock, Label, Op, Source, Value};
use crate::simplify_cfg::{
    can_collapse, can_remove, can_thread, jumps_retargeted, phi_taken, phis_rekeyed, uses_replaced,
};
use crate::ssa::{lemma_arena_unique, slot_defs, slots_unique};

verus! {

/// The values of `a` are values of `b`, each once.
pub open spec fn sub_defs(a: Seq<Value>, b: Seq<Value>) -> bool {
    a.no_duplicates() && forall|v: Value| a.contains(v) ==> b.contains(v)
}

/// An arena whose blocks define, each once, only what the blocks of an
/// arena that defines no value twice define, defines no value twice.
pub proof fn lemma_defs_shrink(f: Seq<Option<BasicBlock>>, g: Seq<Option<BasicBlock>>)
    requires
        f.len() == g.len(),
        slots_unique(f),
        forall|i: int| 0 <= i < f.len() ==> sub_defs(slot_defs(#[trigger] g[i]), slot_defs(f[i])),
    ensures
        slots_unique(g),
{
    assert forall|i: int, j: int| 0 <= i < j < g.len() implies crate::ssa::disjoint(slot_defs(#[trigger] g[i]), slot_defs(#[trigger] g[j])) by {
        assert(crate::ssa::disjoint(slot_defs(f[i]), slot_defs(f[j])));
        assert(sub_defs(slot_defs(g[i]), slot_defs(f[i])));
        assert(sub_defs(slot_defs(g[j]), slot_defs(f[j])));
    }
    assert forall|i: int| 0 <= i < g.len() implies slot_defs(#[trigger] g[i]).no_duplicates() by {
        assert(sub_defs(slot_defs(g[i]), slot_defs(f[i])));
    }
}

/// Deleting a block keeps every other block terminated as it was.
pub proof fn lemma_removed_arity(f: Function, g: Function, dead: Label)
    requires
        f.arity_ok(),
        block_removed(f, g, dead),
    ensures
        g.arity_ok(),
{
    assert forall|l: Label| #[trigger] g.is_live(l) implies block_arity_ok(g.block(l)) by {
        assert(l != dead);
        assert(f.is_live(l));
        assert(block_arity_ok(f.block(l)));
    }
}

/// Deleting a block brings in no definition.
pub proof fn lemma_removed_ssa(f: Function, g: Function, dead: Label)
    requires
        f.ssa_unique(),
        block_removed(f, g, dead),
    ensures
        g.ssa_unique(),
{
    lemma_arena_unique(f.blocks@);
    assert forall|i: int| 0 <= i < f.blocks@.len() implies sub_defs(slot_defs(#[trigger] g.blocks@[i]), slot_defs(f.blocks@[i])) by {
        let l = Label(i as u32);
        if g.is_live(l) {
            assert(l != dead);
            assert(f.is_live(l));
            if f.block(dead).jumps@.contains(l) {
                assert(phis_stripped(f.block(l).phi_nodes@, g.block(l).phi_nodes@, dead));
                assert(phi_defs(g.block(l).phi_nodes@) =~= phi_defs(f.block(l).phi_nodes@));
            }
            assert(block_defs(g.block(l)) == block_defs(f.block(l)));
        }
    }
    lemma_defs_shrink(f.blocks@, g.blocks@);
    lemma_arena_unique(g.blocks@);
}

/// Deleting a block that nothing jumps to keeps phi nodes complete: its
/// successors lose it as a predecessor and lose their phi entries for it.
pub proof fn lemma_removed_phis(f: Function, g: Function, dead: Label)
    requires
        f.inv(),
        f.phis_complete(),
        can_remove(f, dead),
        block_removed(f, g, dead),
    ensures
        g.phis_complete(),
{
    assert forall|l: Label| #[trigger] g.is_live(l) implies g.phis_complete_at(l) by {
        assert(l != dead);
        assert(f.is_live(l));
        assert(f.phis_complete_at(l));
        assert(f.back_refs_exact_at(l));
        assert(g.back_refs_exact_at(l));
        assert forall|a: Label| #[trigger] g.block(l).back_refs@.contains(a) <==> (a != dead && f.block(l).back_refs@.contains(a)) by {
            assert(g.block(l).back_refs@.contains(a) <==> g.edge(a, l));
            assert(f.block(l).back_refs@.contains(a) <==> f.edge(a, l));
            if a != dead {
                assert(g.is_live(a) == f.is_live(a));
            }
        }
        assert forall|k: int| 0 <= k < g.block(l).phi_nodes@.len() implies phi_complete(g.block(l), #[trigger] g.block(l).phi_nodes@[k]) by {
            let fp = f.block(l).phi_nodes@[k];
            let gp = g.block(l).phi_nodes@[k];
            assert(phi_complete(f.block(l), fp));
            if f.block(dead).jumps@.contains(l) {
                assert(phi_stripped(fp, gp, dead));
                lemma_without_preds(fp.entries@, dead);
            } else {
                assert(gp == fp);
                assert(f.block(l).back_refs@.contains(dead) <==> f.edge(dead, l));
            }
        }
    }
}

/// Operations that define the same values, one by one, define the same
/// values between them.
pub proof fn lemma_op_defs_same(a: Seq<Op>, b: Seq<Op>)
    requires
        a.len() == b.len(),
        forall|k: int| 0 <= k < a.len() ==> (#[trigger] b[k]).writes == a[k].writes,
    ensures
        op_defs(a) == op_defs(b),
    decreases a.len(),
{
    if a.len() > 0 {
        assert forall|k: int| 0 <= k < a.drop_last().len() implies (#[trigger] b.drop_last()[k]).writes == a.drop_last()[k].writes by {
            assert(b.drop_last()[k] == b[k]);
        }
        lemma_op_defs_same(a.drop_last(), b.drop_last());
        assert(b[b.len() - 1].writes == a[a.len() - 1].writes);
    }
}

/// Taking a phi node with one entry out and putting its operand in place
/// of its value keeps a sound graph sound.
pub proof fn lemma_collapse_keeps_valid(f: Function, m: Function, g: Function, l: Label, k: int, x: Value, src: Source)
    requires
        f.valid(),
        can_collapse(f, l, k),
        phi_taken(f, m, l, k),
        uses_replaced(m, g, x, src),
    ensures
        g.valid(),
{
    // taking the phi node out
    assert forall|y: Label| #[trigger] m.is_live(y) implies block_arity_ok(m.block(y)) && m.phis_complete_at(y) by {
        assert(f.is_live(y));
        assert(block_arity_ok(f.block(y)));
        assert(f.phis_complete_at(y));
        if y != l {
            assert(m.blocks@[y.0 as int] == f.blocks@[y.0 as int]);
        } else {
            assert forall|q: int| 0 <= q < m.block(y).phi_nodes@.len() implies phi_complete(m.block(y), #[trigger] m.block(y).phi_nodes@[q]) by {
                let fq = if q < k { q } else { q + 1 };
                assert(m.block(y).phi_nodes@[q] == f.block(y).phi_nodes@[fq]);
                assert(phi_complete(f.block(y), f.block(y).phi_nodes@[fq]));
            }
        }
    }
    lemma_arena_unique(f.blocks@);
    assert forall|i: int| 0 <= i < f.blocks@.len() implies sub_defs(slot_defs(#[trigger] m.blocks@[i]), slot_defs(f.blocks@[i])) by {
        if i == l.0 {
            let fp = phi_defs(f.block(l).phi_nodes@);
            let mp = phi_defs(m.block(l).phi_nodes@);
            let od = op_defs(f.block(l).ops@);
            assert(slot_defs(f.blocks@[i]) == fp + od);
            assert(slot_defs(m.blocks@[i]) == mp + od);
            assert(mp =~= fp.remove(k));
            crate::ssa::lemma_concat_unique(fp, od);
            assert forall|v: Value| mp.contains(v) implies fp.contains(v) by {
                let q = choose|q: int| 0 <= q < mp.len() && mp[q] == v;
                let fq = if q < k { q } else { q + 1 };
                assert(fp[fq] == v);
            }
            assert forall|a: int, b: int| 0 <= a < mp.len() && 0 <= b < mp.len() && a != b implies mp[a] != mp[b] by {
                let fa = if a < k { a } else { a + 1 };
                let fb = if b < k { b } else { b + 1 };
                assert(mp[a] == fp[fa] && mp[b] == fp[fb]);
            }
            crate::ssa::lemma_concat_unique(mp, od);
            assert forall|v: Value| (mp + od).contains(v) implies (fp + od).contains(v) by {
                crate::ssa::lemma_concat_contains(mp, od, v);
                crate::ssa::lemma_concat_contains(fp, od, v);
            }
        } else {
            assert(m.blocks@[i] == f.blocks@[i]);
        }
    }
    lemma_defs_shrink(f.blocks@, m.blocks@);
    // putting the operand in place of the value
    assert forall|y: Label| #[trigger] g.is_live(y) implies block_arity_ok(g.block(y)) && g.phis_complete_at(y) by {
        assert(m.is_live(y));
        let mb = m.block(y);
        let gb = g.block(y);
        assert(block_substituted(mb, gb, x, src));
        assert(block_arity_ok(mb));
        assert(gb.ops@.last().kind == mb.ops@.last().kind);
        assert forall|q: int| 0 <= q < gb.ops@.len() - 1 implies (#[trigger] gb.ops@[q]).kind.jump_count() is None by {
            assert(gb.ops@[q].kind == mb.ops@[q].kind);
        }
        assert(m.phis_complete_at(y));
        assert forall|q: int| 0 <= q < gb.phi_nodes@.len() implies phi_complete(gb, #[trigger] gb.phi_nodes@[q]) by {
            assert(phi_complete(mb, mb.phi_nodes@[q]));
            assert(phi_substituted(mb.phi_nodes@[q], gb.phi_nodes@[q], x, src));
            assert(gb.phi_nodes@[q].preds() =~= mb.phi_nodes@[q].preds());
        }
    }
    assert forall|i: int| 0 <= i < m.blocks@.len() implies sub_defs(slot_defs(#[trigger] g.blocks@[i]), slot_defs(m.blocks@[i])) by {
        let y = Label(i as u32);
        assert(g.is_live(y) == m.is_live(y));
        if m.is_live(y) {
            let mb = m.block(y);
            let gb = g.block(y);
            assert(block_substituted(mb, gb, x, src));
            assert(phi_defs(gb.phi_nodes@) =~= phi_defs(mb.phi_nodes@)) by {
                assert forall|q: int| 0 <= q < mb.phi_nodes@.len() implies gb.phi_nodes@[q].ssa == mb.phi_nodes@[q].ssa by {
                    assert(phi_substituted(mb.phi_nodes@[q], gb.phi_nodes@[q], x, src));
                }
            }
            lemma_op_defs_same(mb.ops@, gb.ops@);
            assert(block_defs(gb) == block_defs(mb));
        }
    }
    lemma_defs_shrink(m.blocks@, g.blocks@);
    lemma_arena_unique(g.blocks@);
}

proof fn lemma_retargeted_contains(s: Seq<Label>, from: Label, to: Label, y: Label)
    requires
        from != to,
    ensures
        retargeted(s, from, to).contains(y) <==> ((y != from && s.contains(y)) || (y == to && s.contains(from))),
{
    let r = retargeted(s, from, to);
    if r.contains(y) {
        let k = choose|k: int| 0 <= k < r.len() && r[k] == y;
        assert(s.contains(s[k]));
    }
    if y != from && s.contains(y) {
        let k = choose|k: int| 0 <= k < s.len() && s[k] == y;
        assert(r[k] == y);
    }
    if y == to && s.contains(from) {
        let k = choose|k: int| 0 <= k < s.len() && s[k] == from;
        assert(r[k] == y);
    }
}

/// Rekeying entries from one predecessor to a new one replaces the one by
/// the other among the predecessors.
proof fn lemma_rekey_preds(e: Seq<(Label, Source)>, from: Label, to: Label)
    requires
        from != to,
        entry_preds(e).no_duplicates(),
        !entry_preds(e).contains(to),
    ensures
        entry_preds(rekeyed_entries(e, from, to)).no_duplicates(),
        forall|a: Label|
            #![trigger entry_preds(rekeyed_entries(e, from, to)).contains(a)]
            entry_preds(rekeyed_entries(e, from, to)).contains(a) <==> ((a != from && entry_preds(e).contains(a)) || (a == to
                && entry_preds(e).contains(from))),
        forall|k: int| 0 <= k < rekeyed_entries(e, from, to).len() ==> (#[trigger] rekeyed_entries(e, from, to)[k]).0 != from,
{
    let r = rekeyed_entries(e, from, to);
    let pr = entry_preds(r);
    let pe = entry_preds(e);
    assert forall|k: int| 0 <= k < pr.len() implies pr[k] == if pe[k] == from { to } else { pe[k] } by {}
    assert forall|a: Label| #![trigger pr.contains(a)] pr.contains(a) <==> ((a != from && pe.contains(a)) || (a == to && pe.contains(from))) by {
        if pr.contains(a) {
            let k = choose|k: int| 0 <= k < pr.len() && pr[k] == a;
            assert(pe.contains(pe[k]));
        }
        if a != from && pe.contains(a) {
            let k = choose|k: int| 0 <= k < pe.len() && pe[k] == a;
            assert(pr[k] == a);
        }
        if a == to && pe.contains(from) {
            let k = choose|k: int| 0 <= k < pe.len() && pe[k] == from;
            assert(pr[k] == a);
        }
    }
    assert forall|i: int, k: int| 0 <= i < pr.len() && 0 <= k < pr.len() && i != k implies pr[i] != pr[k] by {
        assert(pe[i] != pe[k]);
        assert(pe.contains(pe[i]) && pe.contains(pe[k]));
    }
}

/// Threading a jump through a block that only jumps on keeps a sound
/// graph sound.
pub proof fn lemma_thread_keeps_valid(f: Function, m1: Function, m2: Function, g: Function, j: Label)
    requires
        f.valid(),
        can_thread(f, j),
        phis_rekeyed(f, m1, f.block(j).jumps@[0], j, f.block(j).back_refs@[0]),
        jumps_retargeted(m1, m2, f.block(j).back_refs@[0], j, f.block(j).jumps@[0]),
        block_removed(m2, g, j),
    ensures
        g.valid(),
{
    let t = f.block(j).jumps@[0];
    let p = f.block(j).back_refs@[0];
    assert(f.jumps_live_at(j));
    assert(f.is_live(t));
    assert(f.back_refs_exact_at(j));
    assert(f.block(j).back_refs@.contains(p));
    assert(f.block(j).back_refs@.contains(p) <==> f.edge(p, j));
    assert(f.edge(p, j));
    assert(f.block(j).jumps@.contains(t));
    assert(f.edge(j, t));
    assert(p != j) by {
        if p == j {
            let q = choose|q: int| 0 <= q < f.block(j).jumps@.len() && f.block(j).jumps@[q] == j;
        }
    }
    assert forall|y: Label| #[trigger] f.is_live(y) implies m2.is_live(y) && m2.block(y).ops == f.block(y).ops && m2.block(y).label
        == f.block(y).label && (y != t ==> m2.block(y).phi_nodes == f.block(y).phi_nodes) && (y != p ==> m2.block(y).jumps
        == f.block(y).jumps) && m2.block(p).jumps@ == retargeted(f.block(p).jumps@, j, t) by {
        assert(m1.is_live(y));
        assert(m1.is_live(p));
        if y != t {
            assert(m1.blocks@[y.0 as int] == f.blocks@[y.0 as int]);
        }
    }
    assert forall|y: Label| #[trigger] m2.is_live(y) implies f.is_live(y) by {
        assert(m1.is_live(y));
    }
    // every block is terminated as before
    assert forall|y: Label| #[trigger] m2.is_live(y) implies block_arity_ok(m2.block(y)) by {
        assert(f.is_live(y));
        assert(block_arity_ok(f.block(y)));
    }
    lemma_removed_arity(m2, g, j);
    // no definition has moved
    lemma_arena_unique(f.blocks@);
    assert forall|i: int| 0 <= i < f.blocks@.len() implies sub_defs(slot_defs(#[trigger] m2.blocks@[i]), slot_defs(f.blocks@[i])) by {
        let y = Label(i as u32);
        if m2.is_live(y) {
            assert(f.is_live(y));
            if y == t {
                assert(m2.block(t).phi_nodes == m1.block(t).phi_nodes);
                assert(block_rekeyed(f.block(t), m1.block(t), j, p));
                assert(phi_defs(m1.block(t).phi_nodes@) =~= phi_defs(f.block(t).phi_nodes@)) by {
                    assert forall|q: int| 0 <= q < f.block(t).phi_nodes@.len() implies m1.block(t).phi_nodes@[q].ssa == f.block(t).phi_nodes@[q].ssa by {
                        assert(phi_rekeyed(f.block(t).phi_nodes@[q], m1.block(t).phi_nodes@[q], j, p));
                    }
                }
            }
            assert(block_defs(m2.block(y)) == block_defs(f.block(y)));
        } else {
            if f.is_live(y) {
                assert(m2.is_live(y));
            }
        }
    }
    lemma_defs_shrink(f.blocks@, m2.blocks@);
    lemma_arena_unique(m2.blocks@);
    lemma_removed_ssa(m2, g, j);
    // every phi node covers the predecessors that its block has now
    assert(m2.block(j).jumps == f.block(j).jumps);
    assert forall|y: Label| #[trigger] g.is_live(y) implies g.phis_complete_at(y) by {
        assert(y != j);
        assert(m2.is_live(y) && f.is_live(y));
        assert(f.phis_complete_at(y));
        assert(f.back_refs_exact_at(y));
        assert(g.back_refs_exact_at(y));
        assert forall|a: Label| #[trigger] g.block(y).back_refs@.contains(a) <==> (a != j && (f.block(y).back_refs@.contains(a) || (a == p
            && y == t))) by {
            assert(g.block(y).back_refs@.contains(a) <==> g.edge(a, y));
            assert(f.block(y).back_refs@.contains(a) <==> f.edge(a, y));
            if a != j {
                assert(g.is_live(a) == m2.is_live(a));
                if m2.is_live(a) {
                    assert(f.is_live(a));
                    assert(g.block(a).jumps == m2.block(a).jumps);
                    if a == p {
                        lemma_retargeted_contains(f.block(p).jumps@, j, t, y);
                    }
                } else {
                    if f.is_live(a) {
                        assert(m2.is_live(a));
                    }
                }
            }
        }
        assert forall|k: int| 0 <= k < g.block(y).phi_nodes@.len() implies phi_complete(g.block(y), #[trigger] g.block(y).phi_nodes@[k]) by {
            let fp = f.block(y).phi_nodes@[k];
            let gp = g.block(y).phi_nodes@[k];
            assert(phi_complete(f.block(y), fp));
            if y == t {
                assert(m2.block(j).jumps@.contains(t));
                assert(phi_stripped(m2.block(t).phi_nodes@[k], gp, j));
                assert(m2.block(t).phi_nodes@[k] == m1.block(t).phi_nodes@[k]);
                assert(phi_rekeyed(fp, m1.block(t).phi_nodes@[k], j, p));
                assert(!f.block(t).back_refs@.contains(p));
                lemma_rekey_preds(fp.entries@, j, p);
                crate::builder::lemma_entries_without_absent(rekeyed_entries(fp.entries@, j, p), j);
                assert(gp.entries@ == rekeyed_entries(fp.entries@, j, p));
                assert(f.block(t).back_refs@.contains(j) <==> f.edge(j, t));
            } else {
                assert(!m2.block(j).jumps@.contains(y)) by {
                    if m2.block(j).jumps@.contains(y) {
                        let q = choose|q: int| 0 <= q < m2.block(j).jumps@.len() && m2.block(j).jumps@[q] == y;
                    }
                }
                assert(gp == fp);
                assert(f.block(y).back_refs@.contains(j) <==> f.edge(j, y));
                assert(!f.edge(j, y)) by {
                    if f.block(j).jumps@.contains(y) {
                        let q = choose|q: int| 0 <= q < f.block(j).jumps@.len() && f.block(j).jumps@[q] == y;
                    }
                }
            }
        }
    }
}

} // verus!
