//! Why the inlining of a call keeps a sound graph sound.
use vstd::prelude::*;
use crate::case_soundness::{lemma_landings_members, lemma_rekeyed_block_complete};
use crate::compile_pattern::{is_landing_block, landings_of, phis_follow_case};
use crate::function::{block_arity_ok, block_defs, op_defs, phi_complete, phi_defs, Function};
use crate::ir::{BasicBlock, Label, Op, Value};
use crate::naive_inline_closures::renamed_value;
use crate::ssa::{
    defs_below, disjoint, lemma_arena_unique, lemma_concat_contains, lemma_concat_unique, slot_defs, slots_unique,
};
use crate::lower::is_landing;
use crate::naive_inline_closures::{
    block_copied, call_inlined, copy_label, copy_map, is_call_site, lemma_live_before_bound, live_before, op_renamed,
    phi_copied, phis_copied, Renaming,
};

verus! {

/// Every count of live blocks below the count for the first `n` slots is
/// the count before some live block among them.
pub proof fn lemma_rank_cover(body: Function, n: int, r: nat)
    requires
        0 <= n <= body.blocks@.len(),
        r < live_before(body, n),
    ensures
        exists|q: int| 0 <= q < n && (#[trigger] body.blocks@[q]) is Some && live_before(body, q) == r,
    decreases n,
{
    if n > 0 {
        if r < live_before(body, n - 1) {
            lemma_rank_cover(body, n - 1, r);
        } else {
            assert(body.blocks@[n - 1] is Some && live_before(body, n - 1) == r);
        }
    }
}

/// Every block after the landing blocks is the copy of a live block of the
/// body.
pub proof fn lemma_copies_cover(body: Function, landing: nat, l: Label)
    requires
        landing + 2 <= l.0 < landing + 2 + live_before(body, body.blocks@.len() as int),
        landing + 2 + body.blocks@.len() <= u32::MAX,
    ensures
        exists|q: int| 0 <= q < body.blocks@.len() && (#[trigger] body.blocks@[q]) is Some && copy_label(body, landing, q) == l,
{
    let r = (l.0 - landing - 2) as nat;
    lemma_rank_cover(body, body.blocks@.len() as int, r);
    let q = choose|q: int| 0 <= q < body.blocks@.len() && (#[trigger] body.blocks@[q]) is Some && live_before(body, q) == r;
    assert(copy_label(body, landing, q) == l);
}

/// The inlining of a call keeps every block terminated, with as many
/// successors as its last operation asks for.
pub proof fn lemma_inline_keeps_arity(f: Function, g: Function, c: Label, body: Function, entry: Label, ren: Renaming)
    requires
        f.arity_ok(),
        is_call_site(f, c),
        body.valid(),
        g.inv(),
        call_inlined(f, g, c, body, entry, ren),
        f.blocks@.len() + 2 + body.blocks@.len() <= u32::MAX,
    ensures
        g.arity_ok(),
{
    let lb = f.blocks@.len() as nat;
    let call = f.block(c).ops@.last();
    assert forall|l: Label| #[trigger] g.is_live(l) implies block_arity_ok(g.block(l)) by {
        if l.0 < lb {
            assert(f.is_live(l));
            assert(block_arity_ok(f.block(l)));
            if l == c {
                let go = g.block(c).ops@;
                let fo = f.block(c).ops@;
                assert forall|q: int| 0 <= q < go.len() - 1 implies (#[trigger] go[q]).kind.jump_count() is None by {
                    assert(go[q] == go.drop_last()[q]);
                    assert(fo[q] == fo.drop_last()[q]);
                }
            }
        } else if l.0 < lb + 2 {
            if l.0 == lb {
                assert(is_landing_block(g, Label(lb as u32), f.block(c).jumps@[0], seq![call.writes@[0]]));
            } else {
                assert(is_landing_block(g, Label((lb + 1) as u32), f.block(c).jumps@[1], seq![call.writes@[1]]));
            }
        } else {
            lemma_copies_cover(body, lb, l);
            let q = choose|q: int| 0 <= q < body.blocks@.len() && (#[trigger] body.blocks@[q]) is Some && copy_label(body, lb, q) == l;
            let src = body.blocks@[q]->Some_0;
            let bl = Label(q as u32);
            assert(body.is_live(bl));
            assert(body.block(bl) == src);
            assert(block_arity_ok(src));
            assert(block_copied(src, g, l, ren, crate::naive_inline_closures::copy_map(body, lb), lb, call.writes@[0], call.writes@[1]));
            let dst = g.block(l);
            assert forall|k: int| 0 <= k < dst.ops@.len() - 1 implies (#[trigger] dst.ops@[k]).kind.jump_count() is None by {
                assert(op_renamed(src.ops@[k], dst.ops@[k], ren));
            }
        }
    }
}

/// Two live blocks of the body have different copies.
pub proof fn lemma_copies_differ(body: Function, landing: nat, p: int, q: int)
    requires
        0 <= p < body.blocks@.len(),
        0 <= q < body.blocks@.len(),
        body.blocks@[p] is Some,
        body.blocks@[q] is Some,
        p != q,
        landing + 2 + body.blocks@.len() <= u32::MAX,
    ensures
        copy_label(body, landing, p) != copy_label(body, landing, q),
        landing + 2 <= copy_label(body, landing, p).0 < landing + 2 + live_before(body, body.blocks@.len() as int),
{
    lemma_live_before_bound(body, body.blocks@.len() as int);
    if p < q {
        lemma_live_before_bound(body, q);
    } else {
        lemma_live_before_bound(body, p);
    }
}

/// The inlining of the call at the end of block `c` has put the copy of
/// the body block in slot `q` into the graph.
pub open spec fn copy_of(f: Function, g: Function, c: Label, body: Function, ren: Renaming, q: int) -> bool {
    let lb = f.blocks@.len() as nat;
    let call = f.block(c).ops@.last();
    block_copied(body.blocks@[q]->Some_0, g, copy_label(body, lb, q), ren, copy_map(body, lb), lb, call.writes@[0], call.writes@[1])
}

/// The copy of a body block jumps to the copy of another exactly if the
/// one jumps to the other in the body, and to nothing that was there
/// before the inlining.
proof fn lemma_copy_edges(f: Function, g: Function, c: Label, body: Function, ren: Renaming, p: int, y: Label)
    requires
        body.valid(),
        0 <= p < body.blocks@.len(),
        body.blocks@[p] is Some,
        copy_of(f, g, c, body, ren, p),
        f.blocks@.len() + 2 + body.blocks@.len() <= u32::MAX,
    ensures
        y.0 < f.blocks@.len() ==> !g.block(copy_label(body, f.blocks@.len() as nat, p)).jumps@.contains(y),
        forall|q: int|
            0 <= q < body.blocks@.len() && (#[trigger] body.blocks@[q]) is Some && y == copy_label(body, f.blocks@.len() as nat, q) ==> (g.block(
                copy_label(body, f.blocks@.len() as nat, p),
            ).jumps@.contains(y) <==> body.edge(Label(p as u32), Label(q as u32))),
{
    let lb = f.blocks@.len() as nat;
    let src = body.blocks@[p]->Some_0;
    let bp = Label(p as u32);
    let cp = copy_label(body, lb, p);
    let dst = g.block(cp);
    let map = copy_map(body, lb);
    assert(body.is_live(bp));
    assert(body.block(bp) == src);
    assert(block_arity_ok(src));
    assert(body.jumps_live_at(bp));
    lemma_live_before_bound(body, body.blocks@.len() as int);
    let is_return = src.ops@.last().kind is ReturnOk || src.ops@.last().kind is ReturnThrow;
    if is_return {
        assert(src.jumps@.len() == 0);
        if dst.jumps@.contains(y) {
            let k = choose|k: int| 0 <= k < dst.jumps@.len() && dst.jumps@[k] == y;
            assert(y.0 == lb || y.0 == lb + 1);
        }
        assert forall|q: int| 0 <= q < body.blocks@.len() && (#[trigger] body.blocks@[q]) is Some && y == copy_label(body, lb, q) implies (dst.jumps@.contains(
            y,
        ) <==> body.edge(bp, Label(q as u32))) by {
            if src.jumps@.contains(Label(q as u32)) {
                let k = choose|k: int| 0 <= k < src.jumps@.len() && src.jumps@[k] == Label(q as u32);
            }
        }
    } else {
        assert forall|k: int| 0 <= k < src.jumps@.len() implies dst.jumps@[k].0 >= lb + 2 && body.blocks@[(#[trigger] src.jumps@[k]).0 as int] is Some by {
            let t = src.jumps@[k];
            assert(body.is_live(body.block(bp).jumps@[k]));
            assert(dst.jumps@[k] == map[t.0 as int]);
        }
        if y.0 < lb && dst.jumps@.contains(y) {
            let k = choose|k: int| 0 <= k < dst.jumps@.len() && dst.jumps@[k] == y;
            assert(dst.jumps@.len() == src.jumps@.len());
            let t = src.jumps@[k];
            assert(body.blocks@[t.0 as int] is Some);
            assert(dst.jumps@[k].0 >= lb + 2);
        }
        assert forall|q: int| 0 <= q < body.blocks@.len() && (#[trigger] body.blocks@[q]) is Some && y == copy_label(body, lb, q) implies (dst.jumps@.contains(
            y,
        ) <==> body.edge(bp, Label(q as u32))) by {
            let bq = Label(q as u32);
            if dst.jumps@.contains(y) {
                let k = choose|k: int| 0 <= k < dst.jumps@.len() && dst.jumps@[k] == y;
                let t = src.jumps@[k];
                assert(dst.jumps@[k] == map[t.0 as int]);
                assert(body.blocks@[t.0 as int] is Some);
                if t.0 != q {
                    lemma_copies_differ(body, lb, t.0 as int, q);
                }
                assert(t == bq);
                assert(src.jumps@.contains(bq));
            }
            if body.edge(bp, bq) {
                let k = choose|k: int| 0 <= k < src.jumps@.len() && src.jumps@[k] == bq;
                assert(dst.jumps@[k] == map[src.jumps@[k].0 as int]);
                assert(dst.jumps@[k] == y);
            }
        }
    }
}

/// After the inlining of the call at the end of block `c`, the
/// predecessors of a block `y` that was there before are its old
/// predecessors but for `c`, and the landing blocks of the continuations
/// that it is.
proof fn lemma_inline_edges_old(f: Function, g: Function, c: Label, body: Function, entry: Label, ren: Renaming, y: Label)
    requires
        f.inv(),
        is_call_site(f, c),
        body.valid(),
        g.inv(),
        call_inlined(f, g, c, body, entry, ren),
        f.blocks@.len() + 2 + body.blocks@.len() <= u32::MAX,
        f.is_live(y),
    ensures
        forall|a: Label| #[trigger]
            g.block(y).back_refs@.contains(a) <==> ((a != c && f.block(y).back_refs@.contains(a)) || landings_of(
                f.block(c).jumps@,
                y,
                f.blocks@.len() as nat,
                f.block(c).jumps@.len(),
            ).contains(a)),
{
    let lb = f.blocks@.len() as nat;
    let targets = f.block(c).jumps@;
    let lands = landings_of(targets, y, lb, 2);
    let call = f.block(c).ops@.last();
    lemma_landings_members(targets, y, lb, 2);
    assert(g.is_live(y));
    assert(g.back_refs_exact_at(y));
    assert(f.back_refs_exact_at(y));
    assert forall|a: Label| #[trigger] g.block(y).back_refs@.contains(a) <==> ((a != c && f.block(y).back_refs@.contains(a)) || lands.contains(a)) by {
        assert(g.block(y).back_refs@.contains(a) <==> g.edge(a, y));
        assert(f.block(y).back_refs@.contains(a) <==> f.edge(a, y));
        if g.is_live(a) {
            if a.0 < lb {
                assert(f.is_live(a));
                if a == c {
                    if g.block(c).jumps@.contains(y) {
                        let j = choose|j: int| 0 <= j < g.block(c).jumps@.len() && g.block(c).jumps@[j] == y;
                        lemma_live_before_bound(body, body.entry.0 as int);
                    }
                }
            } else if a.0 < lb + 2 {
                let q = a.0 - lb;
                if q == 0 {
                    assert(is_landing_block(g, Label(lb as u32), targets[0], seq![call.writes@[0]]));
                } else {
                    assert(is_landing_block(g, Label((lb + 1) as u32), targets[1], seq![call.writes@[1]]));
                }
                assert(g.block(a).jumps@[0] == targets[q]);
                if g.block(a).jumps@.contains(y) {
                    let j = choose|j: int| 0 <= j < g.block(a).jumps@.len() && g.block(a).jumps@[j] == y;
                }
            } else {
                lemma_copies_cover(body, lb, a);
                let p = choose|p: int| 0 <= p < body.blocks@.len() && (#[trigger] body.blocks@[p]) is Some && copy_label(body, lb, p) == a;
                assert(copy_of(f, g, c, body, ren, p));
                lemma_copy_edges(f, g, c, body, ren, p, y);
            }
        } else {
            if f.is_live(a) {
                assert(g.is_live(a));
            }
            if lands.contains(a) {
                assert(a.0 == lb || a.0 == lb + 1);
                if a.0 == lb {
                    assert(is_landing_block(g, Label(lb as u32), targets[0], seq![call.writes@[0]]));
                } else {
                    assert(is_landing_block(g, Label((lb + 1) as u32), targets[1], seq![call.writes@[1]]));
                }
            }
        }
    }
}

/// The inlining of a call keeps phi nodes complete.
pub proof fn lemma_inline_keeps_phis(f: Function, g: Function, c: Label, body: Function, entry: Label, ren: Renaming)
    requires
        f.inv(),
        f.phis_complete(),
        is_call_site(f, c),
        body.valid(),
        body.block(body.entry).phi_nodes@.len() == 0,
        g.inv(),
        call_inlined(f, g, c, body, entry, ren),
        f.blocks@.len() + 2 + body.blocks@.len() <= u32::MAX,
    ensures
        g.phis_complete(),
{
    let lb = f.blocks@.len() as nat;
    let map = copy_map(body, lb);
    let call = f.block(c).ops@.last();
    let targets = f.block(c).jumps@;
    assert(f.jumps_live_at(c));
    assert forall|y: Label| #[trigger] g.is_live(y) implies g.phis_complete_at(y) by {
        assert(g.back_refs_exact_at(y));
        if y.0 < lb {
            assert(f.is_live(y));
            lemma_inline_edges_old(f, g, c, body, entry, ren, y);
            assert(phis_follow_case(f, g, c, y));
            lemma_rekeyed_block_complete(f, g, c, y);
        } else if y.0 < lb + 2 {
            assert(is_landing(y, lb, 2));
            assert forall|j: int| 0 <= j < g.block(y).phi_nodes@.len() implies phi_complete(g.block(y), #[trigger] g.block(y).phi_nodes@[j]) by {
                assert(g.block(y).phi_nodes@[j].preds() == g.block(y).back_refs@);
            }
        } else {
            lemma_copies_cover(body, lb, y);
            let q = choose|q: int| 0 <= q < body.blocks@.len() && (#[trigger] body.blocks@[q]) is Some && copy_label(body, lb, q) == y;
            let src = body.blocks@[q]->Some_0;
            let bq = Label(q as u32);
            assert(body.is_live(bq) && body.block(bq) == src);
            assert(copy_of(f, g, c, body, ren, q));
            assert(phis_copied(src.phi_nodes@, g.block(y).phi_nodes@, ren, map));
            assert(body.phis_complete_at(bq));
            assert(body.back_refs_exact_at(bq));
            assert forall|j: int| 0 <= j < g.block(y).phi_nodes@.len() implies phi_complete(g.block(y), #[trigger] g.block(y).phi_nodes@[j]) by {
                let bp = src.phi_nodes@[j];
                let gp = g.block(y).phi_nodes@[j];
                assert(phi_copied(bp, gp, ren, map));
                assert(phi_complete(src, bp));
                assert(body.is_live(body.entry));
                assert(bq != body.entry);
                let bpreds = bp.preds();
                let gpreds = gp.preds();
                assert forall|i: int| 0 <= i < bpreds.len() implies body.edge(#[trigger] bpreds[i], bq) && gpreds[i] == copy_label(
                    body,
                    lb,
                    bpreds[i].0 as int,
                ) by {
                    assert(bpreds.contains(bpreds[i]));
                    assert(src.back_refs@.contains(bpreds[i]) <==> body.edge(bpreds[i], bq));
                    assert(bp.entries@[i].0 == bpreds[i]);
                }
                assert forall|i: int, k: int| 0 <= i < gpreds.len() && 0 <= k < gpreds.len() && i != k implies gpreds[i] != gpreds[k] by {
                    assert(body.edge(bpreds[i], bq) && body.edge(bpreds[k], bq));
                    lemma_copies_differ(body, lb, bpreds[i].0 as int, bpreds[k].0 as int);
                }
                assert forall|a: Label| gpreds.contains(a) <==> g.block(y).back_refs@.contains(a) by {
                    assert(g.block(y).back_refs@.contains(a) <==> g.edge(a, y));
                    if gpreds.contains(a) {
                        let i = choose|i: int| 0 <= i < gpreds.len() && gpreds[i] == a;
                        let p = bpreds[i].0 as int;
                        assert(body.edge(bpreds[i], bq));
                        assert(body.blocks@[p] is Some);
                        assert(copy_of(f, g, c, body, ren, p));
                        lemma_copy_edges(f, g, c, body, ren, p, y);
                        assert(block_copied(body.blocks@[p]->Some_0, g, a, ren, map, lb, call.writes@[0], call.writes@[1]));
                        assert(g.is_live(a));
                    }
                    if g.edge(a, y) {
                        if a.0 < lb {
                            assert(f.is_live(a));
                            if a == c {
                                let k = choose|k: int| 0 <= k < g.block(c).jumps@.len() && g.block(c).jumps@[k] == y;
                                assert(y == entry);
                                if body.entry.0 != q {
                                    lemma_copies_differ(body, lb, body.entry.0 as int, q);
                                }
                            } else {
                                assert(f.jumps_live_at(a));
                                let k = choose|k: int| 0 <= k < f.block(a).jumps@.len() && f.block(a).jumps@[k] == y;
                                assert(f.is_live(f.block(a).jumps@[k]));
                            }
                        } else if a.0 < lb + 2 {
                            if a.0 == lb {
                                assert(is_landing_block(g, Label(lb as u32), targets[0], seq![call.writes@[0]]));
                            } else {
                                assert(is_landing_block(g, Label((lb + 1) as u32), targets[1], seq![call.writes@[1]]));
                            }
                            let k = choose|k: int| 0 <= k < g.block(a).jumps@.len() && g.block(a).jumps@[k] == y;
                            assert(f.is_live(targets[0]) && f.is_live(targets[1]));
                        } else {
                            lemma_copies_cover(body, lb, a);
                            let p = choose|p: int| 0 <= p < body.blocks@.len() && (#[trigger] body.blocks@[p]) is Some && copy_label(body, lb, p) == a;
                            assert(copy_of(f, g, c, body, ren, p));
                            lemma_copy_edges(f, g, c, body, ren, p, y);
                            assert(body.edge(Label(p as u32), bq));
                            assert(src.back_refs@.contains(Label(p as u32)) <==> body.edge(Label(p as u32), bq));
                            assert(bpreds.contains(Label(p as u32)));
                            let i = choose|i: int| 0 <= i < bpreds.len() && bpreds[i] == Label(p as u32);
                            assert(gpreds[i] == a);
                        }
                    }
                }
            }
        }
    }
}

/// The fresh identities of the values of a sequence, in order.
pub open spec fn renamed_seq(s: Seq<Value>, vbase: u32, bound: u32) -> Seq<Value> {
    Seq::new(s.len(), |i: int| renamed_value(s[i], vbase, bound))
}

/// Values below the bound get fresh identities that differ where the
/// values differ, and that lie from `vbase` on.
proof fn lemma_renamed_seq(s: Seq<Value>, vbase: u32, bound: u32)
    requires
        vbase + bound <= u32::MAX,
        forall|v: Value| #[trigger] s.contains(v) ==> v.0 < bound,
    ensures
        s.no_duplicates() ==> renamed_seq(s, vbase, bound).no_duplicates(),
        forall|v: Value| #[trigger]
            renamed_seq(s, vbase, bound).contains(v) ==> vbase <= v.0 < vbase + bound && s.contains(Value((v.0 - vbase) as u32)),
{
    let r = renamed_seq(s, vbase, bound);
    assert forall|i: int| 0 <= i < s.len() implies s[i].0 < bound && (#[trigger] r[i]).0 == vbase + s[i].0 by {
        assert(s.contains(s[i]));
    }
    assert forall|v: Value| #[trigger] r.contains(v) implies vbase <= v.0 < vbase + bound && s.contains(Value((v.0 - vbase) as u32)) by {
        let i = choose|i: int| 0 <= i < r.len() && r[i] == v;
        assert(r[i].0 == vbase + s[i].0);
        assert(s[i] == Value((v.0 - vbase) as u32));
        assert(s.contains(s[i]));
    }
    if s.no_duplicates() {
        assert forall|i: int, j: int| 0 <= i < r.len() && 0 <= j < r.len() && i != j implies r[i] != r[j] by {
            assert(r[i].0 == vbase + s[i].0 && r[j].0 == vbase + s[j].0);
            assert(s[i] != s[j]);
        }
    }
}

/// Operations whose values defined are the fresh identities of the values
/// that others define, one by one, define the fresh identities of what the
/// others define between them.
proof fn lemma_op_defs_renamed(a: Seq<Op>, b: Seq<Op>, vbase: u32, bound: u32)
    requires
        a.len() == b.len(),
        forall|k: int| 0 <= k < a.len() ==> (#[trigger] b[k]).writes@ == renamed_seq(a[k].writes@, vbase, bound),
    ensures
        op_defs(b) == renamed_seq(op_defs(a), vbase, bound),
    decreases a.len(),
{
    if a.len() == 0 {
        assert(op_defs(b) =~= renamed_seq(op_defs(a), vbase, bound));
    } else {
        assert forall|k: int| 0 <= k < a.drop_last().len() implies (#[trigger] b.drop_last()[k]).writes@ == renamed_seq(
            a.drop_last()[k].writes@,
            vbase,
            bound,
        ) by {
            assert(b.drop_last()[k] == b[k]);
        }
        lemma_op_defs_renamed(a.drop_last(), b.drop_last(), vbase, bound);
        assert(b[b.len() - 1].writes@ == renamed_seq(a[a.len() - 1].writes@, vbase, bound));
        assert(op_defs(b) =~= renamed_seq(op_defs(a), vbase, bound));
    }
}

/// What the copy of a body block defines counts from the body block: all
/// that it defines, but for what a return at its end defines.
pub open spec fn copied_defs(src: BasicBlock) -> Seq<Value> {
    if src.ops@.last().kind is ReturnOk || src.ops@.last().kind is ReturnThrow {
        phi_defs(src.phi_nodes@) + op_defs(src.ops@.drop_last())
    } else {
        block_defs(src)
    }
}

/// The copy of a body block defines the fresh identities of what the body
/// block defines.
proof fn lemma_copy_defs(f: Function, g: Function, c: Label, body: Function, ren: Renaming, q: int)
    requires
        body.valid(),
        0 <= q < body.blocks@.len(),
        body.blocks@[q] is Some,
        copy_of(f, g, c, body, ren, q),
    ensures
        block_defs(g.block(copy_label(body, f.blocks@.len() as nat, q))) == renamed_seq(
            copied_defs(body.blocks@[q]->Some_0),
            ren.vbase,
            ren.bound,
        ),
        forall|v: Value| #[trigger] copied_defs(body.blocks@[q]->Some_0).contains(v) ==> slot_defs(body.blocks@[q]).contains(v),
        slot_defs(body.blocks@[q]).no_duplicates() ==> copied_defs(body.blocks@[q]->Some_0).no_duplicates(),
{
    let lb = f.blocks@.len() as nat;
    let src = body.blocks@[q]->Some_0;
    let bq = Label(q as u32);
    let dst = g.block(copy_label(body, lb, q));
    let map = copy_map(body, lb);
    assert(body.is_live(bq) && body.block(bq) == src);
    assert(block_arity_ok(src));
    assert(phis_copied(src.phi_nodes@, dst.phi_nodes@, ren, map));
    assert(phi_defs(dst.phi_nodes@) =~= renamed_seq(phi_defs(src.phi_nodes@), ren.vbase, ren.bound)) by {
        assert forall|j: int| 0 <= j < src.phi_nodes@.len() implies dst.phi_nodes@[j].ssa == renamed_value(src.phi_nodes@[j].ssa, ren.vbase, ren.bound) by {
            assert(phi_copied(src.phi_nodes@[j], dst.phi_nodes@[j], ren, map));
        }
    }
    let pd = phi_defs(src.phi_nodes@);
    let front = op_defs(src.ops@.drop_last());
    let last = src.ops@.last().writes@;
    assert(op_defs(src.ops@) == front + last);
    assert(block_defs(src) =~= (pd + front) + last);
    assert forall|k: int| 0 <= k < src.ops@.len() - 1 implies (#[trigger] dst.ops@.drop_last()[k]).writes@ == renamed_seq(
        src.ops@.drop_last()[k].writes@,
        ren.vbase,
        ren.bound,
    ) by {
        assert(op_renamed(src.ops@[k], dst.ops@[k], ren));
        assert(dst.ops@[k].writes@ =~= renamed_seq(src.ops@[k].writes@, ren.vbase, ren.bound));
    }
    lemma_op_defs_renamed(src.ops@.drop_last(), dst.ops@.drop_last(), ren.vbase, ren.bound);
    assert(op_defs(dst.ops@) == op_defs(dst.ops@.drop_last()) + dst.ops@.last().writes@);
    if src.ops@.last().kind is ReturnOk || src.ops@.last().kind is ReturnThrow {
        assert(dst.ops@.last().writes@.len() == 0);
        assert(block_defs(dst) =~= renamed_seq(pd + front, ren.vbase, ren.bound));
        lemma_concat_unique(pd + front, last);
        assert forall|v: Value| #[trigger] (pd + front).contains(v) implies block_defs(src).contains(v) by {
            lemma_concat_contains(pd + front, last, v);
        }
    } else {
        assert(op_renamed(src.ops@.last(), dst.ops@.last(), ren));
        assert(dst.ops@.last().writes@ =~= renamed_seq(last, ren.vbase, ren.bound));
        assert(block_defs(dst) =~= renamed_seq(block_defs(src), ren.vbase, ren.bound));
    }
}

/// The slot of the graph before the inlining in which the values that the
/// block in slot `i` defines afterwards were defined, for a block that is
/// no copy: its own slot, or for a landing block the slot of the call.
spec fn home(f: Function, c: Label, i: int) -> int {
    if i < f.blocks@.len() {
        i
    } else {
        c.0 as int
    }
}

/// What the blocks that are no copies define after the inlining was
/// defined before: by the block itself, or, for a landing block, by the
/// call.
proof fn lemma_inline_old_slots(f: Function, g: Function, c: Label, body: Function, entry: Label, ren: Renaming, i: int)
    requires
        f.inv(),
        f.ssa_unique(),
        is_call_site(f, c),
        call_inlined(f, g, c, body, entry, ren),
        f.blocks@.len() + 2 + body.blocks@.len() <= u32::MAX,
        0 <= i < f.blocks@.len() + 2,
    ensures
        slot_defs(g.blocks@[i]).no_duplicates(),
        forall|v: Value| #[trigger] slot_defs(g.blocks@[i]).contains(v) ==> slot_defs(f.blocks@[home(f, c, i)]).contains(v),
        i == c.0 ==> forall|v: Value| #[trigger] slot_defs(g.blocks@[i]).contains(v) ==> !f.block(c).ops@.last().writes@.contains(v),
        i >= f.blocks@.len() ==> slot_defs(g.blocks@[i]) == seq![f.block(c).ops@.last().writes@[i - f.blocks@.len()]],
{
    let lb = f.blocks@.len() as int;
    let l = Label(i as u32);
    let fc = f.block(c);
    let w = fc.ops@.last().writes@;
    let p = phi_defs(fc.phi_nodes@) + op_defs(fc.ops@.drop_last());
    lemma_arena_unique(f.blocks@);
    assert(slot_defs(f.blocks@[c.0 as int]) == block_defs(fc));
    assert(op_defs(fc.ops@) == op_defs(fc.ops@.drop_last()) + w);
    assert(block_defs(fc) =~= p + w);
    lemma_concat_unique(p, w);
    assert forall|v: Value| p.contains(v) || w.contains(v) implies block_defs(fc).contains(v) by {
        lemma_concat_contains(p, w, v);
    }
    if i < lb {
        if g.is_live(l) {
            assert(f.is_live(l));
            assert(phis_follow_case(f, g, c, l));
            assert(phi_defs(g.block(l).phi_nodes@) =~= phi_defs(f.block(l).phi_nodes@)) by {
                if f.block(c).jumps@.contains(l) {
                } else {
                }
            }
            if l == c {
                let go = g.block(c).ops@;
                assert(op_defs(go) == op_defs(go.drop_last()) + go.last().writes@);
                assert(block_defs(g.block(c)) =~= p);
                assert forall|v: Value| #[trigger] p.contains(v) implies !w.contains(v) by {}
            } else {
                assert(block_defs(g.block(l)) == block_defs(f.block(l)));
            }
        } else {
            if f.is_live(l) {
                assert(g.is_live(l));
            }
        }
    } else {
        let q = i - lb;
        if q == 0 {
            assert(is_landing_block(g, Label(lb as u32), f.block(c).jumps@[0], seq![w[0]]));
        } else {
            assert(is_landing_block(g, Label((lb + 1) as u32), f.block(c).jumps@[1], seq![w[1]]));
        }
        crate::case_ssa::lemma_single_op_defs(g.block(l).ops@);
        assert(block_defs(g.block(l)) =~= seq![w[q]]);
        assert(seq![w[q]][0] == w[q]);
        let sq = seq![w[q]];
        assert forall|v: Value| #[trigger] sq.contains(v) implies w.contains(v) by {
            let k = choose|k: int| 0 <= k < sq.len() && sq[k] == v;
            assert(sq[k] == w[q]);
        }
    }
}

/// The inlining of a call keeps single definition. Where no value had two
/// definitions and every defined value was below the counter of fresh
/// values, in the graph and in the body, the same holds of the graph
/// afterwards.
pub proof fn lemma_inline_keeps_ssa(f: Function, g: Function, c: Label, body: Function, entry: Label, ren: Renaming)
    requires
        f.inv(),
        f.ssa_unique(),
        defs_below(f),
        is_call_site(f, c),
        body.valid(),
        defs_below(body),
        call_inlined(f, g, c, body, entry, ren),
        ren.vbase == f.next_value,
        ren.bound == body.next_value,
        f.blocks@.len() + 2 + body.blocks@.len() <= u32::MAX,
        f.next_value + body.next_value <= u32::MAX,
    ensures
        g.ssa_unique(),
        defs_below(g),
{
    let lb = f.blocks@.len() as int;
    let gb = g.blocks@;
    let w = f.block(c).ops@.last().writes@;
    lemma_arena_unique(f.blocks@);
    lemma_arena_unique(body.blocks@);
    crate::naive_inline_closures::lemma_live_before_bound(body, body.blocks@.len() as int);
    // the copies
    assert forall|i: int| lb + 2 <= i < gb.len() implies {
        &&& slot_defs(#[trigger] gb[i]).no_duplicates()
        &&& forall|v: Value| slot_defs(gb[i]).contains(v) ==> f.next_value <= v.0 < g.next_value
    } by {
        let l = Label(i as u32);
        lemma_copies_cover(body, lb as nat, l);
        let q = choose|q: int| 0 <= q < body.blocks@.len() && (#[trigger] body.blocks@[q]) is Some && copy_label(body, lb as nat, q) == l;
        assert(copy_of(f, g, c, body, ren, q));
        assert(g.is_live(l));
        lemma_copy_defs(f, g, c, body, ren, q);
        let d = copied_defs(body.blocks@[q]->Some_0);
        assert forall|v: Value| #[trigger] d.contains(v) implies v.0 < ren.bound by {
            assert(slot_defs(body.blocks@[q]).contains(v));
        }
        lemma_renamed_seq(d, ren.vbase, ren.bound);
    }
    assert forall|i: int| 0 <= i < gb.len() implies slot_defs(#[trigger] gb[i]).no_duplicates() by {
        if i < lb + 2 {
            lemma_inline_old_slots(f, g, c, body, entry, ren, i);
        }
    }
    assert forall|i: int, j: int| 0 <= i < j < gb.len() implies disjoint(slot_defs(#[trigger] gb[i]), slot_defs(#[trigger] gb[j])) by {
        assert forall|v: Value| !(slot_defs(gb[i]).contains(v) && slot_defs(gb[j]).contains(v)) by {
            if slot_defs(gb[i]).contains(v) && slot_defs(gb[j]).contains(v) {
                if j < lb + 2 {
                    lemma_inline_old_slots(f, g, c, body, entry, ren, i);
                    lemma_inline_old_slots(f, g, c, body, entry, ren, j);
                    let hi = home(f, c, i);
                    let hj = home(f, c, j);
                    assert(slot_defs(f.blocks@[hi]).contains(v) && slot_defs(f.blocks@[hj]).contains(v));
                    if hi != hj {
                        if hi < hj {
                            assert(disjoint(slot_defs(f.blocks@[hi]), slot_defs(f.blocks@[hj])));
                        } else {
                            assert(disjoint(slot_defs(f.blocks@[hj]), slot_defs(f.blocks@[hi])));
                        }
                    } else {
                        if i == c.0 {
                            let sj = seq![w[j - lb]];
                            assert(slot_defs(gb[j]) == sj);
                            let k = choose|k: int| 0 <= k < sj.len() && sj[k] == v;
                            assert(sj[k] == w[j - lb]);
                            assert(w.contains(w[j - lb]));
                        } else {
                            assert(i == lb && j == lb + 1);
                            let s0 = seq![w[0]];
                            let s1 = seq![w[1]];
                            let k1 = choose|k: int| 0 <= k < s0.len() && s0[k] == v;
                            let k2 = choose|k: int| 0 <= k < s1.len() && s1[k] == v;
                            assert(s0[k1] == w[0] && s1[k2] == w[1]);
                            let fc = f.block(c);
                            let p = phi_defs(fc.phi_nodes@) + op_defs(fc.ops@.drop_last());
                            assert(op_defs(fc.ops@) == op_defs(fc.ops@.drop_last()) + w);
                            assert(block_defs(fc) =~= p + w);
                            lemma_concat_unique(p, w);
                            assert(w[0] != w[1]);
                        }
                    }
                } else if i < lb + 2 {
                    lemma_inline_old_slots(f, g, c, body, entry, ren, i);
                    assert(slot_defs(f.blocks@[home(f, c, i)]).contains(v));
                    assert(v.0 < f.next_value);
                } else {
                    let li = Label(i as u32);
                    let lj = Label(j as u32);
                    lemma_copies_cover(body, lb as nat, li);
                    lemma_copies_cover(body, lb as nat, lj);
                    let qi = choose|q: int| 0 <= q < body.blocks@.len() && (#[trigger] body.blocks@[q]) is Some && copy_label(body, lb as nat, q) == li;
                    let qj = choose|q: int| 0 <= q < body.blocks@.len() && (#[trigger] body.blocks@[q]) is Some && copy_label(body, lb as nat, q) == lj;
                    assert(qi != qj);
                    assert(copy_of(f, g, c, body, ren, qi));
                    assert(copy_of(f, g, c, body, ren, qj));
                    assert(g.is_live(li) && g.is_live(lj));
                    lemma_copy_defs(f, g, c, body, ren, qi);
                    lemma_copy_defs(f, g, c, body, ren, qj);
                    let di = copied_defs(body.blocks@[qi]->Some_0);
                    let dj = copied_defs(body.blocks@[qj]->Some_0);
                    assert forall|u: Value| #[trigger] di.contains(u) implies u.0 < ren.bound by {
                        assert(slot_defs(body.blocks@[qi]).contains(u));
                    }
                    assert forall|u: Value| #[trigger] dj.contains(u) implies u.0 < ren.bound by {
                        assert(slot_defs(body.blocks@[qj]).contains(u));
                    }
                    lemma_renamed_seq(di, ren.vbase, ren.bound);
                    lemma_renamed_seq(dj, ren.vbase, ren.bound);
                    let u = Value((v.0 - ren.vbase) as u32);
                    assert(di.contains(u) && dj.contains(u));
                    assert(slot_defs(body.blocks@[qi]).contains(u) && slot_defs(body.blocks@[qj]).contains(u));
                    if qi < qj {
                        assert(disjoint(slot_defs(body.blocks@[qi]), slot_defs(body.blocks@[qj])));
                    } else {
                        assert(disjoint(slot_defs(body.blocks@[qj]), slot_defs(body.blocks@[qi])));
                    }
                }
            }
        }
    }
    assert(slots_unique(gb));
    lemma_arena_unique(gb);
    assert forall|i: int, v: Value| 0 <= i < gb.len() && #[trigger] slot_defs(gb[i]).contains(v) implies v.0 < g.next_value by {
        if i < lb + 2 {
            lemma_inline_old_slots(f, g, c, body, entry, ren, i);
            assert(slot_defs(f.blocks@[home(f, c, i)]).contains(v));
        }
    }
}

} // verus!
