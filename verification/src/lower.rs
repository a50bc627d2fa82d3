//! The lowering of a decision tree into blocks of a function's graph.
use vstd::prelude::*;
use crate::builder::{as_sources, FunctionBuilder};
use crate::function::Function;
use crate::ir::{Label, Op, OpKind, Source, Value};
use crate::pattern::{decision_wf, leaves_below, shape_arity, Decision, Shape};

verus! {

/// The kind of operation that tests for a shape.
pub open spec fn test_kind(s: Shape) -> OpKind {
    match s {
        Shape::Literal(l) => OpKind::IsLiteral(l),
        Shape::Tuple(n) => OpKind::UnpackTuple { arity: n },
    }
}

/// The number of blocks that the lowering of a tree adds: two for each
/// test.
pub open spec fn tree_blocks(d: Decision) -> nat
    decreases d,
{
    match d {
        Decision::Test { yes, no, .. } => 2 + tree_blocks(*yes) + tree_blocks(*no),
        _ => 0,
    }
}

/// The number of fresh values that the lowering of a tree takes: one for
/// each element that a test unpacks.
pub open spec fn tree_values(d: Decision) -> nat
    decreases d,
{
    match d {
        Decision::Test { shape, yes, no, .. } => shape_arity(shape) + tree_values(*yes) + tree_values(*no),
        _ => 0,
    }
}

/// The `n` values from `vbase` on.
pub open spec fn fresh_values(vbase: nat, n: nat) -> Seq<Value> {
    Seq::new(n, |i: int| Value((vbase + i) as u32))
}

/// A block that the lowering made: no phi nodes, one operation.
pub open spec fn is_node_block(f: Function, l: Label) -> bool {
    &&& f.is_live(l)
    &&& f.block(l).phi_nodes@.len() == 0
    &&& f.block(l).ops@.len() == 1
    &&& !(f.block(l).ops@[0].kind is Case)
    &&& f.block(l).ops@[0].kind.jump_count() == Some(f.block(l).jumps@.len())
}

/// The operation that ends the root block of a tree fits the block's
/// successors.
pub proof fn lemma_root_arity(f: Function, d: Decision, root: Label, cols: Seq<Source>, base: nat, vbase: nat, landing: nat)
    requires
        realizes(f, d, root, cols, base, vbase, landing),
    ensures
        f.block(root).ops@.last().kind.jump_count() == Some(f.block(root).jumps@.len()),
        !(f.block(root).ops@.last().kind is Case),
{
}

/// Every successor of block `l` has a label from `lo` on.
pub open spec fn jumps_beyond(f: Function, l: Label, lo: nat) -> bool {
    forall|j: int| 0 <= j < f.block(l).jumps@.len() ==> (#[trigger] f.block(l).jumps@[j]).0 >= lo
}

/// The root block of a tree jumps to landing blocks and to blocks of the
/// tree only.
pub proof fn lemma_root_jumps(f: Function, d: Decision, root: Label, cols: Seq<Source>, base: nat, vbase: nat, landing: nat, k: nat)
    requires
        realizes(f, d, root, cols, base, vbase, landing),
        leaves_below(d, k),
        landing + k <= base,
        base + tree_blocks(d) <= u32::MAX,
    ensures
        jumps_beyond(f, root, landing),
{
    match d {
        Decision::Test { .. } => {
            assert(tree_blocks(d) >= 2);
        },
        _ => {},
    }
}

/// The graph holds the tree, rooted in block `root`: the block ends in the
/// operation of the tree's root, and the subtrees of a test are held by the
/// two successors. `cols` are the operands in the columns at the root. The
/// blocks below the root are those from label `base` on, the values that
/// the tests unpack those from `vbase` on, in the order of the tree. A leaf
/// for clause `i` jumps to block `landing + i`.
pub open spec fn realizes(f: Function, d: Decision, root: Label, cols: Seq<Source>, base: nat, vbase: nat, landing: nat) -> bool
    decreases d,
{
    let blk = f.block(root);
    let last = blk.ops@.last();
    &&& f.is_live(root)
    &&& blk.ops@.len() > 0
    &&& match d {
        Decision::Fail => {
            &&& last.kind == OpKind::MatchFail
            &&& last.reads@.len() == 0
            &&& last.writes@.len() == 0
            &&& blk.jumps@.len() == 0
        },
        Decision::Leaf { clause, bindings } => is_leaf_block(f, root, Label((landing + clause) as u32), bindings@, cols),
        Decision::Test { column, shape, yes, no } => {
            let y = Label(base as u32);
            let n = Label((base + 1) as u32);
            let w = fresh_values(vbase, shape_arity(shape));
            &&& last.kind == test_kind(shape)
            &&& last.reads@ == seq![cols[column as int]]
            &&& last.writes@ == w
            &&& blk.jumps@ == seq![y, n]
            &&& is_node_block(f, y)
            &&& is_node_block(f, n)
            &&& realizes(f, *yes, y, cols + as_sources(w), base + 2, vbase + shape_arity(shape), landing)
            &&& realizes(
                f,
                *no,
                n,
                cols,
                base + 2 + tree_blocks(*yes),
                vbase + shape_arity(shape) + tree_values(*yes),
                landing,
            )
        },
    }
}

/// Block `l` has the same code and successors in `g` as in `f`.
pub open spec fn agree_at(f: Function, g: Function, l: Label) -> bool {
    f.is_live(l) ==> {
        &&& g.is_live(l)
        &&& g.block(l).phi_nodes == f.block(l).phi_nodes
        &&& g.block(l).ops == f.block(l).ops
        &&& g.block(l).jumps == f.block(l).jumps
    }
}

/// Block `l` has the same operations and successors in `g` as in `f`.
pub open spec fn code_agrees(f: Function, g: Function, l: Label) -> bool {
    f.is_live(l) ==> {
        &&& g.is_live(l)
        &&& g.block(l).ops == f.block(l).ops
        &&& g.block(l).jumps == f.block(l).jumps
    }
}

/// A graph that holds a tree still holds it after changes that leave the
/// code of the root block and the blocks below it alone.
pub proof fn lemma_realizes_frame(f: Function, g: Function, d: Decision, root: Label, cols: Seq<Source>, base: nat, vbase: nat, landing: nat, k: nat)
    requires
        realizes(f, d, root, cols, base, vbase, landing),
        code_agrees(f, g, root),
        base + tree_blocks(d) <= u32::MAX,
        forall|l: Label| base <= l.0 < base + tree_blocks(d) ==> #[trigger] agree_at(f, g, l),
        forall|l: Label| #[trigger] is_landing(l, landing, k) ==> phis_grown_at(f, g, l),
        leaves_below(d, k),
        landing + k <= u32::MAX,
    ensures
        realizes(g, d, root, cols, base, vbase, landing),
    decreases d,
{
    match d {
        Decision::Test { column, shape, yes, no } => {
            let y = Label(base as u32);
            let n = Label((base + 1) as u32);
            let w = fresh_values(vbase, shape_arity(shape));
            assert(agree_at(f, g, y));
            assert(agree_at(f, g, n));
            assert forall|l: Label| base + 2 <= l.0 < base + 2 + tree_blocks(*yes) implies #[trigger] agree_at(f, g, l) by {}
            lemma_realizes_frame(f, g, *yes, y, cols + as_sources(w), base + 2, vbase + shape_arity(shape), landing, k);
            assert forall|l: Label| base + 2 + tree_blocks(*yes) <= l.0 < base + 2 + tree_blocks(*yes) + tree_blocks(*no) implies #[trigger] agree_at(
                f,
                g,
                l,
            ) by {}
            lemma_realizes_frame(
                f,
                g,
                *no,
                n,
                cols,
                base + 2 + tree_blocks(*yes),
                vbase + shape_arity(shape) + tree_values(*yes),
                landing,
                k,
            );
        },
        Decision::Leaf { clause, bindings } => {
            let e = Label((landing + clause) as u32);
            assert(is_landing(e, landing, k));
            assert(phis_grown_at(f, g, e));
            assert forall|j: int| 0 <= j < g.block(e).phi_nodes@.len() implies (#[trigger] g.block(e).phi_nodes@[j]).entries@.contains(
                (root, leaf_source(bindings@, cols, g.block(e).phi_nodes@[j].ssa)),
            ) by {
                assert(f.block(e).phi_nodes@[j].entries@.contains((root, leaf_source(bindings@, cols, f.block(e).phi_nodes@[j].ssa))));
            }
        },
        _ => {},
    }
}

/// The numbers of blocks and of fresh values that the lowering of a tree
/// needs, or `None` where one of them does not fit.
pub fn tree_size(d: &Decision) -> (r: Option<(usize, usize)>)
    ensures
        match r {
            Some((nb, nv)) => nb == tree_blocks(*d) && nv == tree_values(*d),
            None => tree_blocks(*d) > usize::MAX || tree_values(*d) > usize::MAX,
        },
    decreases *d,
{
    match d {
        Decision::Test { shape, yes, no, .. } => {
            let ar = match shape {
                Shape::Tuple(n) => *n,
                Shape::Literal(_) => 0,
            };
            match (tree_size(yes), tree_size(no)) {
                (Some((yb, yv)), Some((nb, nv))) => {
                    if yb > usize::MAX - 2 || nb > usize::MAX - 2 - yb {
                        return None;
                    }
                    if yv > usize::MAX - ar || nv > usize::MAX - ar - yv {
                        return None;
                    }
                    Some((2 + yb + nb, ar + yv + nv))
                },
                _ => None,
            }
        },
        _ => Some((0, 0)),
    }
}

/// No slot of `f` that holds a deleted block holds a block in `g`.
pub open spec fn none_revived(f: Function, g: Function) -> bool {
    forall|l: Label| l.0 < f.blocks@.len() && #[trigger] g.is_live(l) ==> f.is_live(l)
}

/// Block `l` is one of the `k` landing blocks from label `landing` on.
pub open spec fn is_landing(l: Label, landing: nat, k: nat) -> bool {
    landing <= l.0 < landing + k
}

/// In each landing block every phi node has its entries in the order of
/// the block's back-references, one for each.
pub open spec fn landings_synced(f: Function, landing: nat, k: nat) -> bool {
    forall|l: Label| #[trigger]
        is_landing(l, landing, k) ==> {
            &&& f.is_live(l)
            &&& forall|j: int| 0 <= j < f.block(l).phi_nodes@.len() ==> (#[trigger] f.block(l).phi_nodes@[j]).preds() == f.block(l).back_refs@
        }
}

/// From `f` to `g` the phi nodes of block `l` have kept their values and
/// their entries, and may have got more entries.
pub open spec fn phis_grown_at(f: Function, g: Function, l: Label) -> bool {
    &&& g.block(l).phi_nodes@.len() == f.block(l).phi_nodes@.len()
    &&& forall|j: int| 0 <= j < f.block(l).phi_nodes@.len() ==> {
        &&& (#[trigger] g.block(l).phi_nodes@[j]).ssa == f.block(l).phi_nodes@[j].ssa
        &&& forall|e: (Label, Source)| f.block(l).phi_nodes@[j].entries@.contains(e) ==> g.block(l).phi_nodes@[j].entries@.contains(e)
    }
}

/// What the lowering of a tree into block `root` leaves alone: the blocks
/// that were there stay, with their code and successors but for `root`, and
/// with their phi nodes but for the landing blocks, whose phi nodes only get
/// entries.
pub open spec fn lowered_frame(f: Function, g: Function, root: Label, landing: nat, k: nat) -> bool {
    &&& g.entry == f.entry
    &&& none_revived(f, g)
    &&& forall|l: Label| #[trigger] f.is_live(l) ==> g.is_live(l) && g.block(l).label == f.block(l).label
    &&& forall|l: Label| #[trigger] f.is_live(l) && l != root ==> g.block(l).ops == f.block(l).ops && g.block(l).jumps == f.block(l).jumps
    &&& forall|l: Label| #[trigger] f.is_live(l) && !is_landing(l, landing, k) ==> g.block(l).phi_nodes == f.block(l).phi_nodes
    &&& forall|l: Label| #[trigger] f.is_live(l) && is_landing(l, landing, k) ==> phis_grown_at(f, g, l)
}

/// The operand bound to variable `x` at a leaf: the one in the column that
/// the leaf's first binding of `x` names.
pub open spec fn leaf_source(bindings: Seq<(Value, usize)>, cols: Seq<Source>, x: Value) -> Source
    decreases bindings.len(),
{
    if bindings.len() == 0 {
        Source::Constant(crate::ir::AtomicLiteral::Nil)
    } else if bindings[0].0 == x {
        cols[bindings[0].1 as int]
    } else {
        leaf_source(bindings.drop_first(), cols, x)
    }
}

/// The operand bound to variable `x` at a leaf.
fn find_source(bindings: &Vec<(Value, usize)>, cols: &Vec<Source>, x: Value) -> (s: Source)
    requires
        forall|k: int| 0 <= k < bindings@.len() ==> (#[trigger] bindings@[k]).1 < cols@.len(),
    ensures
        s == leaf_source(bindings@, cols@, x),
{
    let mut i: usize = 0;
    assert(bindings@.skip(0) == bindings@);
    while i < bindings.len()
        invariant
            i <= bindings@.len(),
            forall|k: int| 0 <= k < bindings@.len() ==> (#[trigger] bindings@[k]).1 < cols@.len(),
            leaf_source(bindings@, cols@, x) == leaf_source(bindings@.skip(i as int), cols@, x),
        decreases bindings@.len() - i,
    {
        proof {
            assert(bindings@.skip(i as int)[0] == bindings@[i as int]);
            assert(bindings@.skip(i as int).drop_first() == bindings@.skip(i + 1));
        }
        if bindings[i].0 == x {
            return cols[bindings[i].1];
        }
        i += 1;
    }
    assert(bindings@.skip(i as int).len() == 0);
    Source::Constant(crate::ir::AtomicLiteral::Nil)
}

/// Block `root` of `g` is a leaf for the clause that lands in `e`: it ends
/// in a jump to `e`, and every phi node of `e` has for `root` the operand
/// that the leaf binds to the phi node's value.
pub open spec fn is_leaf_block(g: Function, root: Label, e: Label, bindings: Seq<(Value, usize)>, cols: Seq<Source>) -> bool {
    let blk = g.block(root);
    &&& g.is_live(root)
    &&& blk.ops@.len() > 0
    &&& blk.ops@.last().kind == OpKind::Jump
    &&& blk.ops@.last().reads@.len() == 0
    &&& blk.ops@.last().writes@.len() == 0
    &&& blk.jumps@ == seq![e]
    &&& forall|j: int| 0 <= j < g.block(e).phi_nodes@.len() ==> (#[trigger] g.block(e).phi_nodes@[j]).entries@.contains(
        (root, leaf_source(bindings, cols, g.block(e).phi_nodes@[j].ssa)),
    )
}

/// Ends block `root` as a leaf: a jump to the landing block `e`, and in
/// each phi node of `e` an entry for `root`.
pub(crate) fn emit_leaf(b: &mut FunctionBuilder, root: Label, e: Label, bindings: &Vec<(Value, usize)>, cols: &Vec<Source>, Ghost(landing): Ghost<nat>, Ghost(k): Ghost<nat>)
    requires
        old(b)@.inv(),
        old(b)@.is_live(root),
        old(b)@.block(root).jumps@.len() == 0,
        is_landing(e, landing, k),
        !is_landing(root, landing, k),
        landings_synced(old(b)@, landing, k),
        forall|i: int| 0 <= i < bindings@.len() ==> (#[trigger] bindings@[i]).1 < cols@.len(),
    ensures
        final(b)@.inv(),
        final(b)@.blocks@.len() == old(b)@.blocks@.len(),
        final(b)@.next_value == old(b)@.next_value,
        is_leaf_block(final(b)@, root, e, bindings@, cols@),
        final(b)@.block(root).ops@.drop_last() == old(b)@.block(root).ops@,
        lowered_frame(old(b)@, final(b)@, root, landing, k),
        landings_synced(final(b)@, landing, k),
{
    let ghost o = b@;
    let mut targets: Vec<Label> = Vec::new();
    targets.push(e);
    proof {
        assert(o.is_live(e));
        assert(targets@[0] == e);
        assert(targets@.contains(e));
        assert forall|l: Label| !o.block(l).back_refs@.contains(root) || !o.is_live(l) by {
            if o.is_live(l) {
                assert(o.back_refs_exact_at(l));
                assert(o.block(l).back_refs@.contains(root) <==> o.edge(root, l));
            }
        }
    }
    b.append_op(root, Op { kind: OpKind::Jump, reads: Vec::new(), writes: Vec::new() }, targets);
    let ghost m = b@;
    proof {
        assert(m.block(root).ops@.drop_last() == o.block(root).ops@);
        assert(m.block(e).back_refs@ == o.block(e).back_refs@.push(root));
        assert forall|l: Label| #[trigger] o.is_live(l) && l != e implies m.block(l).back_refs == o.block(l).back_refs by {
            if targets@.contains(l) {
                let i = choose|i: int| 0 <= i < targets@.len() && targets@[i] == l;
            }
        }
    }
    let n = b.fun().get(e).phi_nodes.len();
    let mut j: usize = 0;
    while j < n
        invariant
            j <= n,
            o.inv(),
            m.inv(),
            b@.inv(),
            o.is_live(e),
            o.is_live(root),
            m.is_live(e),
            m.is_live(root),
            e != root,
            n == m.block(e).phi_nodes@.len(),
            m.block(e).phi_nodes == o.block(e).phi_nodes,
            m.block(e).back_refs@ == o.block(e).back_refs@.push(root),
            forall|i: int| 0 <= i < n ==> (#[trigger] o.block(e).phi_nodes@[i]).preds() == o.block(e).back_refs@,
            crate::builder::same_edges(m, b@),
            b@.blocks@.len() == m.blocks@.len(),
            b@.entry == m.entry,
            b@.next_value == m.next_value,
            forall|i: int| 0 <= i < m.blocks@.len() && i != e.0 ==> #[trigger] b@.blocks@[i] == m.blocks@[i],
            b@.block(e).label == m.block(e).label,
            b@.block(e).ops == m.block(e).ops,
            b@.block(e).phi_nodes@.len() == n,
            forall|i: int| j <= i < n ==> #[trigger] b@.block(e).phi_nodes@[i] == m.block(e).phi_nodes@[i],
            forall|i: int| 0 <= i < j ==> {
                &&& (#[trigger] b@.block(e).phi_nodes@[i]).ssa == m.block(e).phi_nodes@[i].ssa
                &&& b@.block(e).phi_nodes@[i].entries@ == m.block(e).phi_nodes@[i].entries@.push(
                    (root, leaf_source(bindings@, cols@, m.block(e).phi_nodes@[i].ssa)),
                )
            },
            forall|i: int| 0 <= i < bindings@.len() ==> (#[trigger] bindings@[i]).1 < cols@.len(),
        decreases n - j,
    {
        let ghost pre = b@;
        assert(pre.is_live(e)) by {
            assert(m.is_live(e));
        }
        let x = b.fun().get(e).phi_nodes[j].ssa;
        let src = find_source(bindings, cols, x);
        b.add_phi_entry(e, j, root, src);
        proof {
            let g = b@;
            assert forall|l: Label| #[trigger] m.is_live(l) == g.is_live(l) by {
                assert(m.is_live(l) == pre.is_live(l));
            }
            assert forall|l: Label| #[trigger] m.is_live(l) implies g.block(l).jumps == m.block(l).jumps && g.block(
                l,
            ).back_refs == m.block(l).back_refs by {
                assert(pre.is_live(l));
            }
        }
        j += 1;
    }
    proof {
        let g = b@;
        assert forall|l: Label| #[trigger] o.is_live(l) implies g.is_live(l) && g.block(l).label == o.block(l).label by {
            assert(m.is_live(l));
            if l != e {
                assert(g.blocks@[l.0 as int] == m.blocks@[l.0 as int]);
            }
        }
        assert forall|l: Label| #[trigger] o.is_live(l) && l != root implies g.block(l).ops == o.block(l).ops && g.block(
            l,
        ).jumps == o.block(l).jumps by {
            assert(m.is_live(l));
            if l != e {
                assert(g.blocks@[l.0 as int] == m.blocks@[l.0 as int]);
            }
        }
        assert forall|l: Label| #[trigger] o.is_live(l) && !is_landing(l, landing, k) implies g.block(l).phi_nodes == o.block(
            l,
        ).phi_nodes by {
            assert(m.is_live(l));
            assert(g.blocks@[l.0 as int] == m.blocks@[l.0 as int]);
        }
        assert(g.blocks@[root.0 as int] == m.blocks@[root.0 as int]);
        assert forall|l: Label| #[trigger] o.is_live(l) && is_landing(l, landing, k) implies phis_grown_at(o, g, l) by {
            assert(m.is_live(l));
            if l != e {
                assert(g.blocks@[l.0 as int] == m.blocks@[l.0 as int]);
            } else {
                assert forall|i: int| 0 <= i < o.block(l).phi_nodes@.len() implies {
                    &&& (#[trigger] g.block(l).phi_nodes@[i]).ssa == o.block(l).phi_nodes@[i].ssa
                    &&& forall|x: (Label, Source)| o.block(l).phi_nodes@[i].entries@.contains(x) ==> g.block(l).phi_nodes@[i].entries@.contains(x)
                } by {
                    let oe = o.block(l).phi_nodes@[i].entries@;
                    let ge = g.block(l).phi_nodes@[i].entries@;
                    assert forall|x: (Label, Source)| oe.contains(x) implies ge.contains(x) by {
                        let q = choose|q: int| 0 <= q < oe.len() && oe[q] == x;
                        assert(ge[q] == x);
                    }
                }
            }
        }
        assert forall|l: Label| #[trigger] is_landing(l, landing, k) implies {
            &&& g.is_live(l)
            &&& forall|i: int| 0 <= i < g.block(l).phi_nodes@.len() ==> (#[trigger] g.block(l).phi_nodes@[i]).preds() == g.block(l).back_refs@
        } by {
            assert(o.is_live(l) && m.is_live(l));
            if l != e {
                assert(g.blocks@[l.0 as int] == m.blocks@[l.0 as int]);
                assert(m.block(l).back_refs == o.block(l).back_refs);
                assert forall|i: int| 0 <= i < g.block(l).phi_nodes@.len() implies (#[trigger] g.block(l).phi_nodes@[i]).preds() == g.block(
                    l,
                ).back_refs@ by {
                    assert(o.block(l).phi_nodes@[i].preds() == o.block(l).back_refs@);
                }
            } else {
                assert forall|i: int| 0 <= i < g.block(l).phi_nodes@.len() implies (#[trigger] g.block(l).phi_nodes@[i]).preds() == g.block(
                    l,
                ).back_refs@ by {
                    assert(o.block(l).phi_nodes@[i].preds() == o.block(l).back_refs@);
                    assert(g.block(l).phi_nodes@[i].preds() =~= o.block(l).phi_nodes@[i].preds().push(root));
                }
            }
        }
        assert forall|i: int| 0 <= i < g.block(e).phi_nodes@.len() implies (#[trigger] g.block(e).phi_nodes@[i]).entries@.contains(
            (root, leaf_source(bindings@, cols@, g.block(e).phi_nodes@[i].ssa)),
        ) by {
            let ge = g.block(e).phi_nodes@[i].entries@;
            assert(ge[ge.len() - 1] == (root, leaf_source(bindings@, cols@, g.block(e).phi_nodes@[i].ssa)));
        }
    }
}

/// From `f` to `g` the blocks that were there have stayed as they were,
/// back-references included, but for the code and successors of `root`.
pub open spec fn others_untouched(f: Function, g: Function, root: Label) -> bool {
    &&& g.entry == f.entry
    &&& none_revived(f, g)
    &&& forall|l: Label| #[trigger]
        f.is_live(l) ==> {
            &&& g.is_live(l)
            &&& g.block(l).label == f.block(l).label
            &&& g.block(l).phi_nodes == f.block(l).phi_nodes
            &&& g.block(l).back_refs == f.block(l).back_refs
            &&& l != root ==> g.block(l).ops == f.block(l).ops && g.block(l).jumps == f.block(l).jumps
        }
}

/// Ends block `root` in failure.
fn emit_fail(b: &mut FunctionBuilder, root: Label)
    requires
        old(b)@.inv(),
        old(b)@.is_live(root),
        old(b)@.block(root).jumps@.len() == 0,
    ensures
        final(b)@.inv(),
        final(b)@.blocks@.len() == old(b)@.blocks@.len(),
        final(b)@.next_value == old(b)@.next_value,
        others_untouched(old(b)@, final(b)@, root),
        final(b)@.block(root).ops@ == old(b)@.block(root).ops@.push(final(b)@.block(root).ops@.last()),
        final(b)@.block(root).ops@.last().kind == OpKind::MatchFail,
        final(b)@.block(root).ops@.last().reads@.len() == 0,
        final(b)@.block(root).ops@.last().writes@.len() == 0,
        final(b)@.block(root).jumps@.len() == 0,
{
    let ghost o = b@;
    proof {
        assert forall|l: Label| !o.block(l).back_refs@.contains(root) || !o.is_live(l) by {
            if o.is_live(l) {
                assert(o.back_refs_exact_at(l));
                assert(o.block(l).back_refs@.contains(root) <==> o.edge(root, l));
            }
        }
    }
    b.append_op(root, Op { kind: OpKind::MatchFail, reads: Vec::new(), writes: Vec::new() }, Vec::new());
}

/// Ends block `root` in a test of column `column` for `shape`, with two
/// new empty blocks as successors. Returns the successor for a passed
/// test, the one for a failed test, and the columns after a passed test.
fn emit_test(b: &mut FunctionBuilder, root: Label, column: usize, shape: Shape, cols: &Vec<Source>) -> (r: (Label, Label, Vec<Source>))
    requires
        old(b)@.inv(),
        old(b)@.is_live(root),
        old(b)@.block(root).jumps@.len() == 0,
        column < cols@.len(),
        old(b)@.blocks@.len() + 2 <= u32::MAX,
        old(b)@.next_value + shape_arity(shape) <= u32::MAX,
    ensures
        final(b)@.inv(),
        final(b)@.blocks@.len() == old(b)@.blocks@.len() + 2,
        final(b)@.next_value == old(b)@.next_value + shape_arity(shape),
        r.0 == Label(old(b)@.blocks@.len() as u32),
        r.1 == Label((old(b)@.blocks@.len() + 1) as u32),
        r.2@ == cols@ + as_sources(fresh_values(old(b)@.next_value as nat, shape_arity(shape))),
        others_untouched(old(b)@, final(b)@, root),
        final(b)@.block(root).ops@ == old(b)@.block(root).ops@.push(final(b)@.block(root).ops@.last()),
        final(b)@.block(root).ops@.last().kind == test_kind(shape),
        final(b)@.block(root).ops@.last().reads@ == seq![cols@[column as int]],
        final(b)@.block(root).ops@.last().writes@ == fresh_values(old(b)@.next_value as nat, shape_arity(shape)),
        final(b)@.block(root).jumps@ == seq![r.0, r.1],
        is_empty_block(final(b)@, r.0),
        is_empty_block(final(b)@, r.1),
{
    let ghost o = b@;
    let ghost vbase = o.next_value as nat;
    let arity = match shape {
        Shape::Tuple(n) => n,
        Shape::Literal(_) => 0,
    };
    let mut writes: Vec<Value> = Vec::new();
    let mut ycols: Vec<Source> = Vec::new();
    let mut i: usize = 0;
    while i < cols.len()
        invariant
            i <= cols@.len(),
            ycols@ == cols@.take(i as int),
        decreases cols@.len() - i,
    {
        ycols.push(cols[i]);
        assert(cols@.take(i + 1) == cols@.take(i as int).push(cols@[i as int]));
        i += 1;
    }
    assert(cols@.take(i as int) == cols@);
    let mut j: usize = 0;
    while j < arity
        invariant
            j <= arity,
            arity == shape_arity(shape),
            vbase + arity <= u32::MAX,
            b@.inv(),
            b@.blocks == o.blocks,
            b@.entry == o.entry,
            b@.next_value == vbase + j,
            writes@ == fresh_values(vbase, j as nat),
            ycols@ == cols@ + as_sources(fresh_values(vbase, j as nat)),
        decreases arity - j,
    {
        let v = b.fresh_value();
        writes.push(v);
        ycols.push(Source::Variable(v));
        proof {
            assert(fresh_values(vbase, (j + 1) as nat) =~= fresh_values(vbase, j as nat).push(v));
            assert(as_sources(fresh_values(vbase, (j + 1) as nat)) =~= as_sources(fresh_values(vbase, j as nat)).push(
                Source::Variable(v),
            ));
            assert(ycols@ =~= cols@ + as_sources(fresh_values(vbase, (j + 1) as nat)));
        }
        j += 1;
    }
    let ghost m0 = b@;
    let y = b.create_block();
    let ghost m1 = b@;
    let n = b.create_block();
    let ghost m2 = b@;
    proof {
        assert forall|l: Label| #[trigger] o.is_live(l) implies m2.is_live(l) && m2.block(l) == o.block(l) by {
            assert(m0.is_live(l));
            assert(m1.blocks@.take(y.0 as int)[l.0 as int] == m1.blocks@[l.0 as int]);
            assert(m2.blocks@.take(n.0 as int)[l.0 as int] == m2.blocks@[l.0 as int]);
        }
        assert(m2.block(y) == m1.block(y)) by {
            assert(m2.blocks@.take(n.0 as int)[y.0 as int] == m2.blocks@[y.0 as int]);
        }
        assert(m2.is_live(y));
        assert forall|l: Label| !m2.block(l).back_refs@.contains(root) || !m2.is_live(l) by {
            if m2.is_live(l) {
                assert(m2.back_refs_exact_at(l));
                assert(m2.block(l).back_refs@.contains(root) <==> m2.edge(root, l));
            }
        }
    }
    let mut reads: Vec<Source> = Vec::new();
    reads.push(cols[column]);
    let mut targets: Vec<Label> = Vec::new();
    targets.push(y);
    targets.push(n);
    let kind = match shape {
        Shape::Literal(l) => OpKind::IsLiteral(l),
        Shape::Tuple(a) => OpKind::UnpackTuple { arity: a },
    };
    b.append_op(root, Op { kind, reads, writes }, targets);
    proof {
        let g = b@;
        assert(g.block(root).jumps@ =~= seq![y, n]);
        assert forall|l: Label| #[trigger] o.is_live(l) implies {
            &&& g.is_live(l)
            &&& g.block(l).label == o.block(l).label
            &&& g.block(l).phi_nodes == o.block(l).phi_nodes
            &&& g.block(l).back_refs == o.block(l).back_refs
            &&& l != root ==> g.block(l).ops == o.block(l).ops && g.block(l).jumps == o.block(l).jumps
        } by {
            assert(m2.is_live(l));
            assert(l != y && l != n);
            if targets@.contains(l) {
                let i = choose|i: int| 0 <= i < targets@.len() && targets@[i] == l;
            }
        }
        assert(m2.is_live(n));
        assert forall|l: Label| l.0 < o.blocks@.len() && #[trigger] g.is_live(l) implies o.is_live(l) by {
            assert(m2.is_live(l));
            assert(m2.blocks@.take(n.0 as int)[l.0 as int] == m2.blocks@[l.0 as int]);
            assert(m1.blocks@.take(y.0 as int)[l.0 as int] == m1.blocks@[l.0 as int]);
        }
        assert(is_empty_block(g, y));
        assert(is_empty_block(g, n));
    }
    (y, n, ycols)
}

/// Block `l` is live and holds nothing yet.
pub open spec fn is_empty_block(f: Function, l: Label) -> bool {
    &&& f.is_live(l)
    &&& f.block(l).phi_nodes@.len() == 0
    &&& f.block(l).ops@.len() == 0
    &&& f.block(l).jumps@.len() == 0
}

pub proof fn lemma_phis_grown_trans(f: Function, g: Function, h: Function, l: Label)
    requires
        phis_grown_at(f, g, l),
        phis_grown_at(g, h, l),
    ensures
        phis_grown_at(f, h, l),
{
    assert forall|j: int| 0 <= j < f.block(l).phi_nodes@.len() implies {
        &&& (#[trigger] h.block(l).phi_nodes@[j]).ssa == f.block(l).phi_nodes@[j].ssa
        &&& forall|e: (Label, Source)| f.block(l).phi_nodes@[j].entries@.contains(e) ==> h.block(l).phi_nodes@[j].entries@.contains(e)
    } by {
        assert(g.block(l).phi_nodes@[j].ssa == f.block(l).phi_nodes@[j].ssa);
        assert forall|e: (Label, Source)| f.block(l).phi_nodes@[j].entries@.contains(e) implies h.block(l).phi_nodes@[j].entries@.contains(e) by {
            assert(g.block(l).phi_nodes@[j].entries@.contains(e));
        }
    }
}

/// Lowers a decision tree into the graph, rooted in block `root`, which
/// has no successors yet. The blocks for the subtrees are created as
/// needed; a leaf for clause `i` jumps to the landing block `landing + i`
/// and enters there, in each phi node, the operand that it binds to the phi
/// node's value.
pub fn lower(b: &mut FunctionBuilder, d: &Decision, root: Label, cols: &Vec<Source>, landing: u32, nclauses: usize)
    requires
        old(b)@.inv(),
        old(b)@.is_live(root),
        old(b)@.block(root).jumps@.len() == 0,
        decision_wf(*d, cols@.len()),
        leaves_below(*d, nclauses as nat),
        old(b)@.blocks@.len() + tree_blocks(*d) <= u32::MAX,
        old(b)@.next_value + tree_values(*d) <= u32::MAX,
        landing + nclauses <= old(b)@.blocks@.len(),
        !is_landing(root, landing as nat, nclauses as nat),
        landings_synced(old(b)@, landing as nat, nclauses as nat),
    ensures
        final(b)@.inv(),
        final(b)@.blocks@.len() == old(b)@.blocks@.len() + tree_blocks(*d),
        final(b)@.next_value == old(b)@.next_value + tree_values(*d),
        realizes(final(b)@, *d, root, cols@, old(b)@.blocks@.len() as nat, old(b)@.next_value as nat, landing as nat),
        final(b)@.block(root).ops@.drop_last() == old(b)@.block(root).ops@,
        lowered_frame(old(b)@, final(b)@, root, landing as nat, nclauses as nat),
        landings_synced(final(b)@, landing as nat, nclauses as nat),
        forall|l: Label| old(b)@.blocks@.len() <= l.0 < final(b)@.blocks@.len() ==> #[trigger] is_node_block(final(b)@, l),
        forall|l: Label| old(b)@.blocks@.len() <= l.0 < final(b)@.blocks@.len() ==> #[trigger] jumps_beyond(final(b)@, l, landing as nat),
    decreases *d,
{
    let ghost o = b@;
    let ghost lb = landing as nat;
    let ghost k = nclauses as nat;
    match d {
        Decision::Fail => {
            emit_fail(b, root);
            proof {
                let g = b@;
                assert(g.block(root).ops@.drop_last() == o.block(root).ops@);
                assert forall|l: Label| #[trigger] o.is_live(l) && is_landing(l, lb, k) implies phis_grown_at(o, g, l) by {}
                assert forall|l: Label| #[trigger] is_landing(l, lb, k) implies {
                    &&& g.is_live(l)
                    &&& forall|j: int| 0 <= j < g.block(l).phi_nodes@.len() ==> (#[trigger] g.block(l).phi_nodes@[j]).preds() == g.block(l).back_refs@
                } by {
                    assert(o.is_live(l));
                }
            }
        },
        Decision::Leaf { clause, bindings } => {
            let e = Label(landing + *clause as u32);
            emit_leaf(b, root, e, bindings, cols, Ghost(lb), Ghost(k));
        },
        Decision::Test { column, shape, yes, no } => {
            let (y, n, ycols) = emit_test(b, root, *column, *shape, cols);
            let ghost m = b@;
            proof {
                assert forall|l: Label| #[trigger] is_landing(l, lb, k) implies {
                    &&& m.is_live(l)
                    &&& forall|j: int| 0 <= j < m.block(l).phi_nodes@.len() ==> (#[trigger] m.block(l).phi_nodes@[j]).preds() == m.block(l).back_refs@
                } by {
                    assert(o.is_live(l));
                }
            }
            lower(b, yes, y, &ycols, landing, nclauses);
            let ghost f1 = b@;
            proof {
                assert(m.is_live(n));
                assert(f1.is_live(n));
            }
            lower(b, no, n, cols, landing, nclauses);
            proof {
                let g = b@;
                let base = o.blocks@.len() as nat;
                let vbase = o.next_value as nat;
                let w = fresh_values(vbase, shape_arity(*shape));
                assert(m.is_live(root) && f1.is_live(root) && m.is_live(y) && f1.is_live(y));
                // the root block is as the test left it
                assert(g.block(root).ops == m.block(root).ops);
                assert(g.block(root).jumps == m.block(root).jumps);
                assert(g.block(root).ops@.drop_last() == o.block(root).ops@);
                // the two successors hold one operation each
                assert(f1.block(y).ops@.len() == 1) by {
                    assert(f1.block(y).ops@.drop_last().len() == 0);
                }
                assert(g.block(n).ops@.len() == 1) by {
                    assert(g.block(n).ops@.drop_last().len() == 0);
                }
                lemma_root_arity(f1, **yes, y, ycols@, base + 2, vbase + shape_arity(*shape), lb);
                lemma_root_arity(
                    g,
                    **no,
                    n,
                    cols@,
                    base + 2 + tree_blocks(**yes),
                    vbase + shape_arity(*shape) + tree_values(**yes),
                    lb,
                );
                // the subtree of the passed test is untouched by the other
                assert forall|l: Label| base + 2 <= l.0 < base + 2 + tree_blocks(**yes) implies #[trigger] agree_at(f1, g, l) by {}
                assert forall|l: Label| #[trigger] is_landing(l, lb, k) implies phis_grown_at(f1, g, l) by {
                    assert(f1.is_live(l));
                }
                lemma_realizes_frame(f1, g, **yes, y, ycols@, base + 2, vbase + shape_arity(*shape), lb, k);
                assert(is_node_block(g, y));
                assert(is_node_block(g, n));
                // what was there before
                assert forall|l: Label| #[trigger] o.is_live(l) implies g.is_live(l) && g.block(l).label == o.block(l).label by {
                    assert(m.is_live(l) && f1.is_live(l));
                }
                assert forall|l: Label| #[trigger] o.is_live(l) && l != root implies g.block(l).ops == o.block(l).ops && g.block(
                    l,
                ).jumps == o.block(l).jumps by {
                    assert(m.is_live(l) && f1.is_live(l));
                }
                assert forall|l: Label| #[trigger] o.is_live(l) && !is_landing(l, lb, k) implies g.block(l).phi_nodes == o.block(
                    l,
                ).phi_nodes by {
                    assert(m.is_live(l) && f1.is_live(l));
                }
                assert forall|l: Label| #[trigger] o.is_live(l) && is_landing(l, lb, k) implies phis_grown_at(o, g, l) by {
                    assert(m.is_live(l) && f1.is_live(l));
                    assert(phis_grown_at(m, f1, l));
                    assert(phis_grown_at(f1, g, l));
                    lemma_phis_grown_trans(m, f1, g, l);
                }
                assert forall|l: Label| o.blocks@.len() <= l.0 < g.blocks@.len() implies #[trigger] is_node_block(g, l) by {
                    if l.0 >= base + 2 && l.0 < f1.blocks@.len() {
                        assert(is_node_block(f1, l));
                    }
                }
                lemma_root_jumps(f1, **yes, y, ycols@, base + 2, vbase + shape_arity(*shape), lb, k);
                lemma_root_jumps(
                    g,
                    **no,
                    n,
                    cols@,
                    base + 2 + tree_blocks(**yes),
                    vbase + shape_arity(*shape) + tree_values(**yes),
                    lb,
                    k,
                );
                assert forall|l: Label| o.blocks@.len() <= l.0 < g.blocks@.len() implies #[trigger] jumps_beyond(g, l, lb) by {
                    if l.0 >= base + 2 && l.0 < f1.blocks@.len() {
                        assert(jumps_beyond(f1, l, lb));
                        assert(is_node_block(f1, l));
                    }
                }
            }
        },
    }
}

} // verus!
