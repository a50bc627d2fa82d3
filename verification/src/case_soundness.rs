//! Why the compilation of a case split keeps phi nodes complete: every phi
//! node of a block still has exactly one entry for each predecessor.
use vstd::prelude::*;
use crate::builder::entries_without;
use crate::compile_pattern::{
    case_clauses, case_lowered, entries_for, first_source, is_case_site, is_landing_block, landings_of,
    phis_follow_case, rekeyed_to_landings,
};
use crate::function::{phi_complete, Function};
use crate::ir::{entry_preds, Label, Source};
use crate::lower::{is_landing, is_node_block, jumps_beyond, lemma_root_jumps};
use crate::pattern::{leaves_below, Decision};

verus! {

/// Taking the entries for `c` out takes `c` out of the predecessors and
/// leaves the others, in order.
pub proof fn lemma_without_preds(e: Seq<(Label, Source)>, c: Label)
    ensures
        forall|a: Label|
            #![trigger entry_preds(entries_without(e, c)).contains(a)]
            #![trigger entry_preds(e).contains(a)]
            entry_preds(entries_without(e, c)).contains(a) <==> (a != c && entry_preds(e).contains(a)),
        entry_preds(e).no_duplicates() ==> entry_preds(entries_without(e, c)).no_duplicates(),
    decreases e.len(),
{
    let w = entries_without(e, c);
    let pw = entry_preds(w);
    let pe = entry_preds(e);
    if e.len() > 0 {
        let e0 = e.drop_last();
        let w0 = entries_without(e0, c);
        let pw0 = entry_preds(w0);
        let pe0 = entry_preds(e0);
        lemma_without_preds(e0, c);
        let last = e.last();
        assert forall|a: Label| pw.contains(a) <==> (a != c && pe.contains(a)) by {
            if pw.contains(a) {
                let k = choose|k: int| 0 <= k < pw.len() && pw[k] == a;
                if k < w0.len() {
                    assert(pw0[k] == a);
                    assert(pw0.contains(a));
                    let j = choose|j: int| 0 <= j < pe0.len() && pe0[j] == a;
                    assert(pe[j] == a);
                } else {
                    assert(pe[e.len() - 1] == a);
                }
            }
            if a != c && pe.contains(a) {
                let j = choose|j: int| 0 <= j < pe.len() && pe[j] == a;
                if j < e0.len() {
                    assert(pe0[j] == a);
                    assert(pw0.contains(a));
                    let k = choose|k: int| 0 <= k < pw0.len() && pw0[k] == a;
                    assert(pw[k] == a);
                } else {
                    assert(pw[pw.len() - 1] == a);
                }
            }
        }
        if pe.no_duplicates() {
            assert forall|i: int, j: int| 0 <= i < pe0.len() && 0 <= j < pe0.len() && i != j implies pe0[i] != pe0[j] by {
                assert(pe[i] == pe0[i] && pe[j] == pe0[j]);
            }
            assert forall|i: int, j: int| 0 <= i < pw.len() && 0 <= j < pw.len() && i != j implies pw[i] != pw[j] by {
                if i < w0.len() && j < w0.len() {
                    assert(pw[i] == pw0[i] && pw[j] == pw0[j]);
                } else {
                    let m = if i < j { i } else { j };
                    assert(pw[m] == pw0[m]);
                    assert(pw0.contains(pw0[m]));
                    let q = choose|q: int| 0 <= q < pe0.len() && pe0[q] == pw0[m];
                    assert(pe[q] == pe0[q]);
                    assert(pe[e.len() - 1] == last.0);
                }
            }
        }
    }
}

/// The landing blocks of a body are the landing blocks of the clauses
/// that jump to it, each once.
pub proof fn lemma_landings_members(targets: Seq<Label>, l: Label, landing: nat, upto: nat)
    requires
        upto <= targets.len(),
        landing + targets.len() <= u32::MAX,
    ensures
        forall|a: Label| #[trigger]
            landings_of(targets, l, landing, upto).contains(a) <==> (landing <= a.0 < landing + upto && targets[a.0 - landing] == l),
        landings_of(targets, l, landing, upto).no_duplicates(),
    decreases upto,
{
    let cur = landings_of(targets, l, landing, upto);
    if upto > 0 {
        let prev = landings_of(targets, l, landing, (upto - 1) as nat);
        lemma_landings_members(targets, l, landing, (upto - 1) as nat);
        let e = Label((landing + upto - 1) as u32);
        assert forall|a: Label| cur.contains(a) <==> (landing <= a.0 < landing + upto && targets[a.0 - landing] == l) by {
            if cur.contains(a) {
                let k = choose|k: int| 0 <= k < cur.len() && cur[k] == a;
                if k < prev.len() {
                    assert(prev[k] == a);
                    assert(prev.contains(a));
                }
            }
            if landing <= a.0 < landing + upto && targets[a.0 - landing] == l {
                if a.0 < landing + upto - 1 {
                    assert(prev.contains(a));
                    let k = choose|k: int| 0 <= k < prev.len() && prev[k] == a;
                    assert(cur[k] == a);
                } else {
                    assert(a == e);
                    assert(cur[cur.len() - 1] == a);
                }
            }
        }
        if targets[upto - 1] == l {
            assert forall|i: int, j: int| 0 <= i < cur.len() && 0 <= j < cur.len() && i != j implies cur[i] != cur[j] by {
                if i < prev.len() && j < prev.len() {
                    assert(cur[i] == prev[i] && cur[j] == prev[j]);
                } else {
                    let m = if i < j { i } else { j };
                    assert(cur[m] == prev[m]);
                    assert(prev.contains(prev[m]));
                }
            }
        }
    }
}

/// A phi node that was complete is complete once it is rekeyed to the
/// landing blocks, against back-references that have changed the same way.
pub proof fn lemma_rekeyed_complete(fe: Seq<(Label, Source)>, c: Label, lands: Seq<Label>, old_refs: Seq<Label>, new_refs: Seq<Label>, lb: nat)
    requires
        entry_preds(fe).no_duplicates(),
        forall|a: Label| #![trigger entry_preds(fe).contains(a)] #![trigger old_refs.contains(a)] entry_preds(fe).contains(a) <==> old_refs.contains(a),
        old_refs.contains(c),
        forall|a: Label| #[trigger] old_refs.contains(a) ==> a.0 < lb,
        lands.no_duplicates(),
        forall|a: Label| #[trigger] lands.contains(a) ==> a.0 >= lb,
        forall|a: Label| #[trigger] new_refs.contains(a) <==> ((a != c && old_refs.contains(a)) || lands.contains(a)),
    ensures
        entry_preds(rekeyed_to_landings(fe, c, lands)).no_duplicates(),
        forall|a: Label|
            #![trigger entry_preds(rekeyed_to_landings(fe, c, lands)).contains(a)]
            #![trigger new_refs.contains(a)]
            entry_preds(rekeyed_to_landings(fe, c, lands)).contains(a) <==> new_refs.contains(a),
{
    lemma_without_preds(fe, c);
    lemma_first_source_present(fe, c);
    let w = entries_without(fe, c);
    let s = first_source(fe, c);
    let added = entries_for(lands, s);
    let r = rekeyed_to_landings(fe, c, lands);
    let pr = entry_preds(r);
    let pw = entry_preds(w);
    assert(added.len() == lands.len());
    assert forall|i: int| 0 <= i < pr.len() implies pr[i] == if i < pw.len() { pw[i] } else { lands[i - pw.len()] } by {
        if i >= pw.len() {
            assert(r[i] == added[i - w.len()]);
        }
    }
    assert forall|a: Label| pr.contains(a) <==> new_refs.contains(a) by {
        if pr.contains(a) {
            let i = choose|i: int| 0 <= i < pr.len() && pr[i] == a;
            if i < pw.len() {
                assert(pw.contains(a));
            } else {
                assert(lands.contains(lands[i - pw.len()]));
            }
        }
        if new_refs.contains(a) {
            if lands.contains(a) {
                let q = choose|q: int| 0 <= q < lands.len() && lands[q] == a;
                assert(pr[pw.len() + q] == a);
            } else {
                assert(pw.contains(a));
                let q = choose|q: int| 0 <= q < pw.len() && pw[q] == a;
                assert(pr[q] == a);
            }
        }
    }
    assert(pw.no_duplicates());
    assert forall|i: int, j: int| 0 <= i < pr.len() && 0 <= j < pr.len() && i != j implies pr[i] != pr[j] by {
        if i < pw.len() && j < pw.len() {
            assert(pr[i] == pw[i] && pr[j] == pw[j]);
        } else if i >= pw.len() && j >= pw.len() {
            assert(pr[i] == lands[i - pw.len()] && pr[j] == lands[j - pw.len()]);
        } else {
            let m = if i < j { i } else { j };
            let n = if i < j { j } else { i };
            assert(pr[m] == pw[m] && pr[n] == lands[n - pw.len()]);
            assert(pw.contains(pw[m]));
            assert(lands.contains(lands[n - pw.len()]));
            assert(entry_preds(fe).contains(pw[m]));
            assert(old_refs.contains(pw[m]));
        }
    }
}

/// Entries that hold one for `c` have a first operand for `c`.
proof fn lemma_first_source_present(e: Seq<(Label, Source)>, c: Label)
    ensures
        entry_preds(e).contains(c) <==> first_source(e, c) is Some,
    decreases e.len(),
{
    let pe = entry_preds(e);
    if e.len() > 0 {
        let e1 = e.drop_first();
        let pe1 = entry_preds(e1);
        lemma_first_source_present(e1, c);
        if e[0].0 == c {
            assert(pe[0] == c);
        } else {
            if pe.contains(c) {
                let k = choose|k: int| 0 <= k < pe.len() && pe[k] == c;
                assert(pe1[k - 1] == c);
            }
            if pe1.contains(c) {
                let k = choose|k: int| 0 <= k < pe1.len() && pe1[k] == c;
                assert(pe[k + 1] == c);
            }
        }
    }
}

/// After the compilation of the case split in block `c`, the predecessors
/// of a block `l` that was there before are its old predecessors but for
/// `c`, and the landing blocks of the clauses whose body it is.
proof fn lemma_edges_after(f: Function, g: Function, c: Label, d: Decision, l: Label)
    requires
        f.inv(),
        g.inv(),
        is_case_site(f, c),
        case_lowered(f, g, c, d),
        leaves_below(d, case_clauses(f, c).len()),
        f.blocks@.len() + case_clauses(f, c).len() + crate::lower::tree_blocks(d) <= u32::MAX,
        f.is_live(l),
    ensures
        forall|a: Label| #[trigger]
            g.block(l).back_refs@.contains(a) <==> ((a != c && f.block(l).back_refs@.contains(a)) || landings_of(
                f.block(c).jumps@,
                l,
                f.blocks@.len() as nat,
                f.block(c).jumps@.len(),
            ).contains(a)),
{
    let targets = f.block(c).jumps@;
    let k = targets.len();
    let lb = f.blocks@.len() as nat;
    let lands = landings_of(targets, l, lb, k);
    let cols = f.block(c).ops@.last().reads@;
    lemma_landings_members(targets, l, lb, k);
    lemma_root_jumps(g, d, c, cols, lb + k, f.next_value as nat, lb, k);
    assert(g.is_live(l));
    assert(g.back_refs_exact_at(l));
    assert(f.back_refs_exact_at(l));
    assert forall|a: Label| #[trigger] g.block(l).back_refs@.contains(a) <==> ((a != c && f.block(l).back_refs@.contains(a)) || lands.contains(a)) by {
        assert(g.block(l).back_refs@.contains(a) <==> g.edge(a, l));
        assert(f.block(l).back_refs@.contains(a) <==> f.edge(a, l));
        if g.is_live(a) {
            if a.0 < lb {
                assert(f.is_live(a));
                if a == c {
                    if g.block(c).jumps@.contains(l) {
                        let j = choose|j: int| 0 <= j < g.block(c).jumps@.len() && g.block(c).jumps@[j] == l;
                        assert(g.block(c).jumps@[j].0 >= lb);
                    }
                }
            } else if a.0 < lb + k {
                let q = a.0 - lb;
                assert(a == Label((lb + q) as u32));
                assert(is_landing_block(g, Label((lb + q) as u32), f.block(c).jumps@[q], crate::compile_pattern::clause_vars(case_clauses(f, c)[q])));
                assert(g.block(a).jumps@[0] == targets[q]);
                if g.block(a).jumps@.contains(l) {
                    let j = choose|j: int| 0 <= j < g.block(a).jumps@.len() && g.block(a).jumps@[j] == l;
                }
            } else {
                assert(jumps_beyond(g, a, lb));
                if g.block(a).jumps@.contains(l) {
                    let j = choose|j: int| 0 <= j < g.block(a).jumps@.len() && g.block(a).jumps@[j] == l;
                    assert(g.block(a).jumps@[j].0 >= lb);
                }
            }
        } else {
            if f.is_live(a) {
                assert(g.is_live(a));
            }
            if lands.contains(a) {
                let q = a.0 - lb;
                assert(a == Label((lb + q) as u32));
                assert(is_landing_block(g, Label((lb + q) as u32), f.block(c).jumps@[q], crate::compile_pattern::clause_vars(case_clauses(f, c)[q])));
            }
        }
    }
}

/// A block whose phi nodes were complete has complete phi nodes once they
/// are rekeyed from block `c` to the landing blocks, if its predecessors
/// have changed the same way.
pub proof fn lemma_rekeyed_block_complete(f: Function, g: Function, c: Label, y: Label)
    requires
        f.inv(),
        f.phis_complete(),
        f.is_live(y),
        f.is_live(c),
        g.inv(),
        g.is_live(y),
        f.blocks@.len() + f.block(c).jumps@.len() <= u32::MAX,
        phis_follow_case(f, g, c, y),
        forall|a: Label| #[trigger]
            g.block(y).back_refs@.contains(a) <==> ((a != c && f.block(y).back_refs@.contains(a)) || landings_of(
                f.block(c).jumps@,
                y,
                f.blocks@.len() as nat,
                f.block(c).jumps@.len(),
            ).contains(a)),
    ensures
        g.phis_complete_at(y),
{
    let targets = f.block(c).jumps@;
    let k = targets.len();
    let lb = f.blocks@.len() as nat;
    let lands = landings_of(targets, y, lb, k);
    assert(f.phis_complete_at(y));
    assert(f.back_refs_exact_at(y));
    lemma_landings_members(targets, y, lb, k);
    crate::compile_pattern::lemma_landings_of_range(targets, y, lb, k);
    assert(targets.take(k as int) == targets);
    assert forall|j: int| 0 <= j < g.block(y).phi_nodes@.len() implies phi_complete(g.block(y), #[trigger] g.block(y).phi_nodes@[j]) by {
        let fp = f.block(y).phi_nodes@[j];
        let gp = g.block(y).phi_nodes@[j];
        assert(phi_complete(f.block(y), fp));
        if targets.contains(y) {
            assert(f.edge(c, y));
            assert(f.block(y).back_refs@.contains(c) <==> f.edge(c, y));
            assert forall|a: Label| #[trigger] f.block(y).back_refs@.contains(a) implies a.0 < lb by {
                assert(f.block(y).back_refs@.contains(a) <==> f.edge(a, y));
            }
            lemma_rekeyed_complete(fp.entries@, c, lands, f.block(y).back_refs@, g.block(y).back_refs@, lb);
            assert(gp.entries@ == rekeyed_to_landings(fp.entries@, c, lands));
        } else {
            assert(gp == fp);
            assert(lands.len() == 0);
            assert forall|a: Label| gp.preds().contains(a) <==> g.block(y).back_refs@.contains(a) by {
                assert(fp.preds().contains(a) <==> f.block(y).back_refs@.contains(a));
                assert(f.block(y).back_refs@.contains(c) <==> f.edge(c, y));
                if lands.contains(a) {
                    let q = choose|q: int| 0 <= q < lands.len() && lands[q] == a;
                }
            }
        }
    }
}

/// The compilation of a case split keeps phi nodes complete: where every
/// phi node had exactly one entry for each predecessor of its block
/// before, every phi node has afterwards.
pub proof fn lemma_case_keeps_phis(f: Function, g: Function, c: Label, d: Decision)
    requires
        f.inv(),
        f.phis_complete(),
        g.inv(),
        is_case_site(f, c),
        case_lowered(f, g, c, d),
        leaves_below(d, case_clauses(f, c).len()),
        f.blocks@.len() + case_clauses(f, c).len() + crate::lower::tree_blocks(d) <= u32::MAX,
    ensures
        g.phis_complete(),
{
    let targets = f.block(c).jumps@;
    let k = targets.len();
    let lb = f.blocks@.len() as nat;
    assert forall|l: Label| #[trigger] g.is_live(l) implies g.phis_complete_at(l) by {
        assert(g.back_refs_exact_at(l));
        if l.0 < lb {
            assert(f.is_live(l));
            lemma_edges_after(f, g, c, d, l);
            assert(phis_follow_case(f, g, c, l));
            lemma_rekeyed_block_complete(f, g, c, l);
        } else if l.0 < lb + k {
            assert(is_landing(l, lb, k));
            assert forall|j: int| 0 <= j < g.block(l).phi_nodes@.len() implies phi_complete(g.block(l), #[trigger] g.block(l).phi_nodes@[j]) by {
                assert(g.block(l).phi_nodes@[j].preds() == g.block(l).back_refs@);
            }
        } else {
            assert(is_node_block(g, l));
        }
    }
}

} // verus!
