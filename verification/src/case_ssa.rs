//! Why the compilation of a case split keeps single definition: the
//! variables of the clauses move from the case split to the phi nodes of
//! the landing blocks, and what the tests unpack is fresh.
use vstd::prelude::*;
use crate::builder::as_sources;
use crate::compile_pattern::{
    case_clauses, case_lowered, clause_vars, has_room, is_case_site, is_landing_block, same_phi_defs, vars_into,
    vars_into_prefix,
};
use crate::function::{block_defs, op_defs, phi_defs, Function};
use crate::ir::{Clause, Label, Op, Pattern, Source, Value};
use crate::lower::{fresh_values, is_node_block, realizes, tree_blocks, tree_values};
use crate::pattern::{shape_arity, Decision};
use crate::ssa::{
    defs_below, disjoint, lemma_arena_unique, lemma_concat_contains, lemma_concat_unique, slot_defs, slots_unique,
};

verus! {

/// The values that the last operation of block `l` defines.
pub open spec fn last_writes(g: Function, l: Label) -> Seq<Value> {
    g.block(l).ops@.last().writes@
}

/// Block `l` holds a node of the tree rooted in `root` whose other blocks
/// are those from `base` on.
pub open spec fn in_tree(l: Label, root: Label, base: nat, d: Decision) -> bool {
    l == root || base <= l.0 < base + tree_blocks(d)
}

proof fn lemma_fresh_values(vbase: nat, n: nat)
    requires
        vbase + n <= u32::MAX,
    ensures
        fresh_values(vbase, n).no_duplicates(),
        forall|v: Value| #[trigger] fresh_values(vbase, n).contains(v) ==> vbase <= v.0 < vbase + n,
{
    let s = fresh_values(vbase, n);
    assert forall|v: Value| #[trigger] s.contains(v) implies vbase <= v.0 < vbase + n by {
        let k = choose|k: int| 0 <= k < s.len() && s[k] == v;
    }
}

/// The values that the tests of a tree unpack are the values from `vbase`
/// on, each unpacked once: no node unpacks a value twice, and no two nodes
/// unpack the same value.
pub proof fn lemma_tree_values(g: Function, d: Decision, root: Label, cols: Seq<Source>, base: nat, vbase: nat, landing: nat)
    requires
        realizes(g, d, root, cols, base, vbase, landing),
        root.0 < base,
        base + tree_blocks(d) <= u32::MAX,
        vbase + tree_values(d) <= u32::MAX,
    ensures
        forall|l: Label, v: Value| in_tree(l, root, base, d) && #[trigger] last_writes(g, l).contains(v) ==> vbase <= v.0 < vbase + tree_values(d),
        forall|l: Label| in_tree(l, root, base, d) ==> #[trigger] last_writes(g, l).no_duplicates(),
        forall|l1: Label, l2: Label| in_tree(l1, root, base, d) && in_tree(l2, root, base, d) && l1 != l2 ==> disjoint(#[trigger] last_writes(g, l1), #[trigger] last_writes(g, l2)),
    decreases d,
{
    match d {
        Decision::Test { column, shape, yes, no } => {
            let ar = shape_arity(shape);
            let y = Label(base as u32);
            let n = Label((base + 1) as u32);
            let w = fresh_values(vbase, ar);
            let by = base + 2;
            let bn = base + 2 + tree_blocks(*yes);
            let vy = vbase + ar;
            let vn = vbase + ar + tree_values(*yes);
            lemma_fresh_values(vbase, ar);
            lemma_tree_values(g, *yes, y, cols + as_sources(w), by, vy, landing);
            lemma_tree_values(g, *no, n, cols, bn, vn, landing);
            assert(last_writes(g, root) == w);
            assert forall|l: Label| in_tree(l, root, base, d) implies (l == root || in_tree(l, y, by, *yes) || in_tree(l, n, bn, *no)) by {}
            assert forall|l: Label, v: Value| in_tree(l, root, base, d) && #[trigger] last_writes(g, l).contains(v) implies vbase <= v.0 < vbase
                + tree_values(d) by {
                if l == root {
                } else if in_tree(l, y, by, *yes) {
                } else {
                    assert(in_tree(l, n, bn, *no));
                }
            }
            assert forall|l: Label| in_tree(l, root, base, d) implies #[trigger] last_writes(g, l).no_duplicates() by {
                if l == root {
                } else if in_tree(l, y, by, *yes) {
                } else {
                    assert(in_tree(l, n, bn, *no));
                }
            }
            assert forall|l1: Label, l2: Label| in_tree(l1, root, base, d) && in_tree(l2, root, base, d) && l1 != l2 implies disjoint(
                #[trigger] last_writes(g, l1),
                #[trigger] last_writes(g, l2),
            ) by {
                let g1: int = if l1 == root { 0 } else if in_tree(l1, y, by, *yes) { 1 } else { 2 };
                let g2: int = if l2 == root { 0 } else if in_tree(l2, y, by, *yes) { 1 } else { 2 };
                assert(g1 == 2 ==> in_tree(l1, n, bn, *no));
                assert(g2 == 2 ==> in_tree(l2, n, bn, *no));
                assert(g1 == 1 ==> !in_tree(l1, n, bn, *no));
                if g1 == g2 {
                } else {
                    assert forall|v: Value| !(last_writes(g, l1).contains(v) && last_writes(g, l2).contains(v)) by {
                        if last_writes(g, l1).contains(v) && last_writes(g, l2).contains(v) {
                            assert(g1 == 0 ==> vbase <= v.0 < vy);
                            assert(g1 == 1 ==> vy <= v.0 < vn);
                            assert(g1 == 2 ==> vn <= v.0);
                            assert(g2 == 0 ==> vbase <= v.0 < vy);
                            assert(g2 == 1 ==> vy <= v.0 < vn);
                            assert(g2 == 2 ==> vn <= v.0);
                        }
                    }
                }
            }
        },
        _ => {
            assert(tree_blocks(d) == 0);
            assert(last_writes(g, root).len() == 0);
            assert forall|l: Label, v: Value| in_tree(l, root, base, d) && #[trigger] last_writes(g, l).contains(v) implies vbase <= v.0 < vbase
                + tree_values(d) by {
                assert(l == root);
            }
        },
    }
}

/// A block of one operation defines what the operation defines.
pub proof fn lemma_single_op_defs(ops: Seq<Op>)
    requires
        ops.len() == 1,
    ensures
        op_defs(ops) == ops[0].writes@,
{
    assert(op_defs(ops.drop_last()) == Seq::<Value>::empty());
    assert(Seq::<Value>::empty() + ops.last().writes@ == ops.last().writes@);
}

/// Collecting the variables of patterns into a list without duplicates
/// gives a list without duplicates, which keeps what the list held.
pub proof fn lemma_vars_into(p: Pattern, acc: Seq<Value>)
    requires
        acc.no_duplicates(),
    ensures
        vars_into(p, acc).no_duplicates(),
        forall|v: Value| acc.contains(v) ==> #[trigger] vars_into(p, acc).contains(v),
    decreases p, 0nat,
{
    match p {
        Pattern::Variable(x) => {
            if !acc.contains(x) {
                let r = acc.push(x);
                assert forall|i: int, j: int| 0 <= i < r.len() && 0 <= j < r.len() && i != j implies r[i] != r[j] by {
                    if i < acc.len() && j < acc.len() {
                    } else if i < acc.len() {
                        assert(acc.contains(acc[i]));
                    } else {
                        assert(acc.contains(acc[j]));
                    }
                }
                assert forall|v: Value| acc.contains(v) implies #[trigger] r.contains(v) by {
                    let k = choose|k: int| 0 <= k < acc.len() && acc[k] == v;
                    assert(r[k] == v);
                }
            }
        },
        Pattern::Tuple(subs) => {
            lemma_vars_into_prefix(subs, subs@.len(), acc);
        },
        _ => {},
    }
}

pub proof fn lemma_vars_into_prefix(subs: Vec<Pattern>, n: nat, acc: Seq<Value>)
    requires
        acc.no_duplicates(),
    ensures
        vars_into_prefix(subs, n, acc).no_duplicates(),
        forall|v: Value| acc.contains(v) ==> #[trigger] vars_into_prefix(subs, n, acc).contains(v),
    decreases subs, n,
{
    if n == 0 || n > subs@.len() {
    } else {
        lemma_vars_into_prefix(subs, (n - 1) as nat, acc);
        lemma_vars_into(subs@[n - 1], vars_into_prefix(subs, (n - 1) as nat, acc));
    }
}

/// A clause has each of its variables once.
pub proof fn lemma_clause_vars_unique(c: Clause)
    ensures
        clause_vars(c).no_duplicates(),
{
    lemma_vars_into_prefix(c.patterns, c.patterns@.len(), Seq::empty());
}

/// The case split at the end of block `c` defines the variables of its
/// clauses, and no two clauses have a variable in common.
pub open spec fn case_binds_own(f: Function, c: Label) -> bool {
    let w = f.block(c).ops@.last().writes@;
    let clauses = case_clauses(f, c);
    &&& forall|i: int, v: Value| 0 <= i < clauses.len() && #[trigger] clause_vars(clauses[i]).contains(v) ==> w.contains(v)
    &&& forall|i: int, j: int| 0 <= i < j < clauses.len() ==> disjoint(#[trigger] clause_vars(clauses[i]), #[trigger] clause_vars(clauses[j]))
}

/// What the block in slot `i` defines after the compilation of the case
/// split in block `c` that was defined before: for a block that was
/// there, what it defined, but for what the case split defined; for a
/// landing block, the variables of its clause.
pub open spec fn old_part(f: Function, c: Label, i: int) -> Seq<Value> {
    let lb = f.blocks@.len() as int;
    let k = case_clauses(f, c).len() as int;
    if 0 <= i < lb {
        if i == c.0 {
            phi_defs(f.block(c).phi_nodes@) + op_defs(f.block(c).ops@.drop_last())
        } else {
            slot_defs(f.blocks@[i])
        }
    } else if i < lb + k {
        clause_vars(case_clauses(f, c)[i - lb])
    } else {
        Seq::empty()
    }
}

/// What the block in slot `i` defines after the compilation that is
/// fresh: what the test at the end of the block unpacks.
pub open spec fn new_part(f: Function, g: Function, c: Label, d: Decision, i: int) -> Seq<Value> {
    let lb = f.blocks@.len() as int;
    let k = case_clauses(f, c).len() as int;
    if i == c.0 || lb + k <= i < lb + k + tree_blocks(d) {
        last_writes(g, Label(i as u32))
    } else {
        Seq::empty()
    }
}

proof fn lemma_slot_parts(f: Function, g: Function, c: Label, d: Decision, i: int)
    requires
        f.inv(),
        is_case_site(f, c),
        case_lowered(f, g, c, d),
        has_room(f, d, case_clauses(f, c).len()),
        0 <= i < g.blocks@.len(),
    ensures
        slot_defs(g.blocks@[i]) == old_part(f, c, i) + new_part(f, g, c, d, i),
{
    let lb = f.blocks@.len() as int;
    let k = case_clauses(f, c).len() as int;
    let l = Label(i as u32);
    let cols = f.block(c).ops@.last().reads@;
    let empty = Seq::<Value>::empty();
    if i < lb {
        if g.is_live(l) {
            assert(f.is_live(l));
            assert(same_phi_defs(f, g, l));
            if l == c {
                let go = g.block(c).ops@;
                assert(realizes(g, d, c, cols, (lb + k) as nat, f.next_value as nat, lb as nat));
                assert(go.len() > 0);
                assert(op_defs(go) == op_defs(go.drop_last()) + go.last().writes@);
                assert(block_defs(g.block(c)) =~= old_part(f, c, i) + new_part(f, g, c, d, i));
            } else {
                assert(block_defs(g.block(l)) == block_defs(f.block(l)));
                assert(slot_defs(f.blocks@[i]) + empty =~= slot_defs(f.blocks@[i]));
            }
        } else {
            if f.is_live(l) {
                assert(g.is_live(l));
            }
            assert(l != c);
            assert(empty + empty =~= empty);
        }
    } else if i < lb + k {
        let q = i - lb;
        assert(is_landing_block(g, Label((lb + q) as u32), f.block(c).jumps@[q], clause_vars(case_clauses(f, c)[q])));
        lemma_single_op_defs(g.block(l).ops@);
        assert(block_defs(g.block(l)) =~= clause_vars(case_clauses(f, c)[q]));
        assert(clause_vars(case_clauses(f, c)[q]) + empty =~= clause_vars(case_clauses(f, c)[q]));
    } else {
        assert(is_node_block(g, l));
        lemma_single_op_defs(g.block(l).ops@);
        assert(phi_defs(g.block(l).phi_nodes@) =~= empty);
        assert(block_defs(g.block(l)) =~= last_writes(g, l));
        assert(empty + last_writes(g, l) =~= last_writes(g, l));
    }
}

/// The slot of the graph before the compilation in which the values of
/// `old_part(i)` were defined.
spec fn home(f: Function, c: Label, i: int) -> int {
    if i < f.blocks@.len() {
        i
    } else {
        c.0 as int
    }
}

proof fn lemma_old_parts(f: Function, c: Label, i: int)
    requires
        f.inv(),
        is_case_site(f, c),
        f.ssa_unique(),
        case_binds_own(f, c),
        0 <= i,
    ensures
        old_part(f, c, i).no_duplicates(),
        forall|v: Value| #[trigger] old_part(f, c, i).contains(v) ==> slot_defs(f.blocks@[home(f, c, i)]).contains(v),
        i != c.0 ==> forall|v: Value|
            #[trigger] old_part(f, c, i).contains(v) && home(f, c, i) == c.0 ==> f.block(c).ops@.last().writes@.contains(v),
        forall|v: Value| #[trigger] old_part(f, c, c.0 as int).contains(v) ==> !f.block(c).ops@.last().writes@.contains(v),
{
    let lb = f.blocks@.len() as int;
    let k = case_clauses(f, c).len() as int;
    let fc = f.block(c);
    let p = phi_defs(fc.phi_nodes@) + op_defs(fc.ops@.drop_last());
    let w = fc.ops@.last().writes@;
    lemma_arena_unique(f.blocks@);
    assert(slot_defs(f.blocks@[c.0 as int]) == block_defs(fc));
    assert(op_defs(fc.ops@) == op_defs(fc.ops@.drop_last()) + w);
    assert(block_defs(fc) =~= p + w);
    lemma_concat_unique(p, w);
    assert forall|v: Value| #[trigger] p.contains(v) implies !w.contains(v) by {}
    assert forall|v: Value| p.contains(v) || w.contains(v) implies block_defs(fc).contains(v) by {
        lemma_concat_contains(p, w, v);
    }
    if i < lb {
        if i == c.0 {
        } else {
        }
    } else if i < lb + k {
        lemma_clause_vars_unique(case_clauses(f, c)[i - lb]);
        assert forall|v: Value| #[trigger] old_part(f, c, i).contains(v) implies w.contains(v) by {}
    } else {
        assert(old_part(f, c, i).len() == 0);
    }
}

/// The compilation of a case split keeps single definition. Where no
/// value had two definitions, every defined value was below the counter of
/// fresh values, and the case split defined the variables of its clauses,
/// each in one clause, no value has two definitions afterwards, and every
/// defined value is below the counter.
pub proof fn lemma_case_keeps_ssa(f: Function, g: Function, c: Label, d: Decision)
    requires
        f.inv(),
        is_case_site(f, c),
        case_lowered(f, g, c, d),
        has_room(f, d, case_clauses(f, c).len()),
        f.ssa_unique(),
        defs_below(f),
        case_binds_own(f, c),
    ensures
        g.ssa_unique(),
        defs_below(g),
{
    let lb = f.blocks@.len() as int;
    let k = case_clauses(f, c).len() as int;
    let nv = f.next_value as nat;
    let cols = f.block(c).ops@.last().reads@;
    let gb = g.blocks@;
    lemma_arena_unique(f.blocks@);
    lemma_tree_values(g, d, c, cols, (lb + k) as nat, nv, lb as nat);
    // what is fresh in a slot
    assert forall|i: int| 0 <= i < gb.len() implies {
        &&& (#[trigger] new_part(f, g, c, d, i)).no_duplicates()
        &&& forall|v: Value| new_part(f, g, c, d, i).contains(v) ==> nv <= v.0 < nv + tree_values(d)
    } by {
        let l = Label(i as u32);
        if i == c.0 || lb + k <= i < lb + k + tree_blocks(d) {
            assert(in_tree(l, c, (lb + k) as nat, d));
            assert(last_writes(g, l).no_duplicates());
            assert forall|v: Value| new_part(f, g, c, d, i).contains(v) implies nv <= v.0 < nv + tree_values(d) by {
                assert(last_writes(g, l).contains(v));
            }
        }
    }
    // what was defined before
    assert forall|i: int| 0 <= i < gb.len() implies {
        &&& (#[trigger] old_part(f, c, i)).no_duplicates()
        &&& forall|v: Value| old_part(f, c, i).contains(v) ==> v.0 < nv
    } by {
        lemma_old_parts(f, c, i);
        assert forall|v: Value| old_part(f, c, i).contains(v) implies v.0 < nv by {
            assert(slot_defs(f.blocks@[home(f, c, i)]).contains(v));
        }
    }
    assert forall|i: int| 0 <= i < gb.len() implies slot_defs(#[trigger] gb[i]).no_duplicates() by {
        lemma_slot_parts(f, g, c, d, i);
        let o = old_part(f, c, i);
        let n = new_part(f, g, c, d, i);
        assert(o.no_duplicates() && n.no_duplicates());
        assert forall|v: Value| !(o.contains(v) && n.contains(v)) by {}
        lemma_concat_unique(o, n);
    }
    assert forall|i: int, j: int| 0 <= i < j < gb.len() implies disjoint(slot_defs(#[trigger] gb[i]), slot_defs(#[trigger] gb[j])) by {
        lemma_slot_parts(f, g, c, d, i);
        lemma_slot_parts(f, g, c, d, j);
        lemma_old_parts(f, c, i);
        lemma_old_parts(f, c, j);
        let oi = old_part(f, c, i);
        let ni = new_part(f, g, c, d, i);
        let oj = old_part(f, c, j);
        let nj = new_part(f, g, c, d, j);
        assert(oi.no_duplicates() && ni.no_duplicates() && oj.no_duplicates() && nj.no_duplicates());
        assert forall|v: Value| !((oi + ni).contains(v) && (oj + nj).contains(v)) by {
            lemma_concat_contains(oi, ni, v);
            lemma_concat_contains(oj, nj, v);
            if ni.contains(v) && nj.contains(v) {
                let li = Label(i as u32);
                let lj = Label(j as u32);
                assert(in_tree(li, c, (lb + k) as nat, d) && in_tree(lj, c, (lb + k) as nat, d));
                assert(disjoint(last_writes(g, li), last_writes(g, lj)));
            }
            if oi.contains(v) && oj.contains(v) {
                let hi = home(f, c, i);
                let hj = home(f, c, j);
                assert(slot_defs(f.blocks@[hi]).contains(v) && slot_defs(f.blocks@[hj]).contains(v));
                if hi != hj {
                    if hi < hj {
                        assert(disjoint(slot_defs(f.blocks@[hi]), slot_defs(f.blocks@[hj])));
                    } else {
                        assert(disjoint(slot_defs(f.blocks@[hj]), slot_defs(f.blocks@[hi])));
                    }
                } else {
                    // both from the block of the case split
                    if i == c.0 {
                        assert(f.block(c).ops@.last().writes@.contains(v));
                    } else {
                        assert(i >= lb && j >= lb);
                        assert(disjoint(clause_vars(case_clauses(f, c)[i - lb]), clause_vars(case_clauses(f, c)[j - lb])));
                    }
                }
            }
            if oi.contains(v) {
                assert(v.0 < nv);
            }
            if oj.contains(v) {
                assert(v.0 < nv);
            }
        }
    }
    assert(slots_unique(gb));
    lemma_arena_unique(gb);
    assert forall|i: int, v: Value| 0 <= i < gb.len() && #[trigger] slot_defs(gb[i]).contains(v) implies v.0 < g.next_value by {
        lemma_slot_parts(f, g, c, d, i);
        lemma_concat_contains(old_part(f, c, i), new_part(f, g, c, d, i), v);
    }
}

/// Every case split of the function defines the variables of its clauses,
/// each in one clause.
pub open spec fn cases_bind_own(f: Function) -> bool {
    forall|l: Label| #[trigger] is_case_site(f, l) ==> case_binds_own(f, l)
}

/// The values of the function are well scoped: no value has two
/// definitions, every defined value is below the counter of fresh values,
/// and every case split defines the variables of its clauses.
pub open spec fn well_scoped(f: Function) -> bool {
    &&& f.ssa_unique()
    &&& defs_below(f)
    &&& cases_bind_own(f)
}

/// The compilation of one case split leaves the others as they were.
pub proof fn lemma_other_cases_kept(f: Function, g: Function, c: Label, d: Decision)
    requires
        f.inv(),
        is_case_site(f, c),
        case_lowered(f, g, c, d),
        has_room(f, d, case_clauses(f, c).len()),
        cases_bind_own(f),
    ensures
        cases_bind_own(g),
        !is_case_site(g, c),
{
    let lb = f.blocks@.len() as int;
    let k = case_clauses(f, c).len() as int;
    let cols = f.block(c).ops@.last().reads@;
    crate::lower::lemma_root_arity(g, d, c, cols, (lb + k) as nat, f.next_value as nat, lb as nat);
    assert forall|l: Label| #[trigger] is_case_site(g, l) implies case_binds_own(g, l) by {
        if l.0 < lb {
            assert(f.is_live(l));
            assert(l != c);
            assert(g.block(l).ops == f.block(l).ops);
            assert(is_case_site(f, l));
            assert(case_binds_own(f, l));
        } else if l.0 < lb + k {
            let q = l.0 - lb;
            assert(l == Label((lb + q) as u32));
            assert(is_landing_block(g, Label((lb + q) as u32), f.block(c).jumps@[q], clause_vars(case_clauses(f, c)[q])));
        } else {
            assert(is_node_block(g, l));
        }
    }
}

} // verus!
