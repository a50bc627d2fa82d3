//! The pass that compiles case splits into decision trees of blocks.
use vstd::prelude::*;
use crate::builder::{entries_without, lemma_entries_without_absent, lemma_strip_twice, phis_stripped, same_edges, FunctionBuilder};
use crate::decision::compile_clauses;
use crate::function::{block_arity_ok, phi_defs, Function};
use crate::ir::{Clause, Label, Op, OpKind, Pattern, Source, Value};
use crate::lower::{is_landing, landings_synced, lemma_root_arity, lower, none_revived, realizes, tree_blocks, tree_size, tree_values};
use crate::pattern::{bound_at_leaf, decide, first_match, first_match_binds, Decision, Term};
use crate::case_ssa::well_scoped;
use crate::util::copy_labels;

verus! {

/// The variables of a pattern that are not in `acc` yet, appended to `acc`
/// in the order in which they stand in the pattern.
pub open spec fn vars_into(p: Pattern, acc: Seq<Value>) -> Seq<Value>
    decreases p, 0nat,
{
    match p {
        Pattern::Variable(v) => if acc.contains(v) {
            acc
        } else {
            acc.push(v)
        },
        Pattern::Tuple(subs) => vars_into_prefix(subs, subs@.len(), acc),
        _ => acc,
    }
}

/// The same for the first `n` of the patterns.
pub open spec fn vars_into_prefix(subs: Vec<Pattern>, n: nat, acc: Seq<Value>) -> Seq<Value>
    decreases subs, n,
{
    if n == 0 || n > subs@.len() {
        acc
    } else {
        vars_into(subs@[n - 1], vars_into_prefix(subs, (n - 1) as nat, acc))
    }
}

/// The variables that a clause binds, each once, in the order in which
/// they first stand in its patterns.
pub open spec fn clause_vars(c: Clause) -> Seq<Value> {
    vars_into_prefix(c.patterns, c.patterns@.len(), Seq::empty())
}

/// Appends the variables of a list of patterns that are not in `acc` yet.
fn collect_vars(subs: &Vec<Pattern>, acc: &mut Vec<Value>)
    ensures
        final(acc)@ == vars_into_prefix(*subs, subs@.len(), old(acc)@),
    decreases subs,
{
    let ghost start = acc@;
    let mut i: usize = 0;
    while i < subs.len()
        invariant
            i <= subs@.len(),
            acc@ == vars_into_prefix(*subs, i as nat, start),
        decreases subs@.len() - i,
    {
        let ghost before = acc@;
        assert(vars_into_prefix(*subs, (i + 1) as nat, start) == vars_into(subs@[i as int], before));
        match &subs[i] {
            Pattern::Variable(v) => {
                if !contains_value(acc, *v) {
                    acc.push(*v);
                }
                assert(acc@ == vars_into(subs@[i as int], before));
            },
            Pattern::Tuple(inner) => {
                collect_vars(inner, acc);
                assert(acc@ == vars_into(subs@[i as int], before));
            },
            _ => {
                assert(acc@ == vars_into(subs@[i as int], before));
            },
        }
        i += 1;
    }
}

fn contains_value(v: &Vec<Value>, x: Value) -> (r: bool)
    ensures
        r == v@.contains(x),
{
    let mut i: usize = 0;
    while i < v.len()
        invariant
            i <= v@.len(),
            forall|j: int| 0 <= j < i ==> v@[j] != x,
        decreases v@.len() - i,
    {
        if v[i] == x {
            return true;
        }
        i += 1;
    }
    false
}

/// Block `l` is live and ends in a case split.
pub open spec fn ends_in_case(f: Function, l: Label) -> bool {
    f.is_live(l) && f.block(l).ops@.len() > 0 && f.block(l).ops@.last().kind is Case
}

/// The clauses of the case split that block `l` ends in.
pub open spec fn case_clauses(f: Function, l: Label) -> Seq<Clause> {
    f.block(l).ops@.last().kind->Case_clauses@
}

/// The case split that block `l` ends in can be compiled: it has one
/// successor for each clause.
pub open spec fn is_case_site(f: Function, l: Label) -> bool {
    ends_in_case(f, l) && f.block(l).jumps@.len() == case_clauses(f, l).len()
}

/// The graph has room for the lowering of tree `d` for a case split of `k`
/// clauses: labels for the landing blocks and the blocks of the tests, and
/// values for what the tests unpack.
pub open spec fn has_room(f: Function, d: Decision, k: nat) -> bool {
    f.blocks@.len() + k + tree_blocks(d) <= u32::MAX && f.next_value + tree_values(d) <= u32::MAX
}

/// Block `e` of `g` is the landing block of a clause with body `target`:
/// it has one phi node for each variable of the clause and jumps on to the
/// body.
pub open spec fn is_landing_block(g: Function, e: Label, target: Label, vars: Seq<Value>) -> bool {
    &&& g.is_live(e)
    &&& phi_defs(g.block(e).phi_nodes@) == vars
    &&& g.block(e).ops@.len() == 1
    &&& g.block(e).ops@[0].kind == OpKind::Jump
    &&& g.block(e).ops@[0].reads@.len() == 0
    &&& g.block(e).ops@[0].writes@.len() == 0
    &&& g.block(e).jumps@ == seq![target]
}

/// The operand of the first of the entries that is for predecessor
/// `pred`.
pub open spec fn first_source(entries: Seq<(Label, Source)>, pred: Label) -> Option<Source>
    decreases entries.len(),
{
    if entries.len() == 0 {
        None
    } else if entries[0].0 == pred {
        Some(entries[0].1)
    } else {
        first_source(entries.drop_first(), pred)
    }
}

/// The entries with one more for the landing block `e`, which takes the
/// operand that the entries have for the block of the case split, `c`.
/// Entries without one for `c` stay as they are.
pub open spec fn landed_entries(entries: Seq<(Label, Source)>, c: Label, e: Label) -> Seq<(Label, Source)> {
    match first_source(entries, c) {
        Some(s) => entries.push((e, s)),
        None => entries,
    }
}

/// The operand that a phi node has for predecessor `pred`, or `None` where
/// it has none.
fn find_entry(phi: &crate::ir::Phi, pred: Label) -> (r: Option<Source>)
    ensures
        r == first_source(phi.entries@, pred),
{
    let mut i: usize = 0;
    assert(phi.entries@.skip(0) == phi.entries@);
    while i < phi.entries.len()
        invariant
            i <= phi.entries@.len(),
            first_source(phi.entries@, pred) == first_source(phi.entries@.skip(i as int), pred),
        decreases phi.entries@.len() - i,
    {
        proof {
            assert(phi.entries@.skip(i as int)[0] == phi.entries@[i as int]);
            assert(phi.entries@.skip(i as int).drop_first() == phi.entries@.skip(i + 1));
        }
        let e = phi.entries[i];
        if e.0 == pred {
            return Some(e.1);
        }
        i += 1;
    }
    assert(phi.entries@.skip(i as int).len() == 0);
    None
}

/// From `f` to `g` the phi nodes of block `t` have each got the entry for
/// the landing block `e` that `landed_entries` gives.
pub open spec fn phis_landed(f: Function, g: Function, t: Label, c: Label, e: Label) -> bool {
    &&& g.block(t).phi_nodes@.len() == f.block(t).phi_nodes@.len()
    &&& forall|j: int| 0 <= j < f.block(t).phi_nodes@.len() ==> {
        &&& (#[trigger] g.block(t).phi_nodes@[j]).ssa == f.block(t).phi_nodes@[j].ssa
        &&& g.block(t).phi_nodes@[j].entries@ == landed_entries(f.block(t).phi_nodes@[j].entries@, c, e)
    }
}

/// From `f` to `g` the phi nodes of block `l` have kept their number and
/// the values they define.
pub open spec fn same_phi_defs(f: Function, g: Function, l: Label) -> bool {
    phi_defs(g.block(l).phi_nodes@) == phi_defs(f.block(l).phi_nodes@)
}

/// Adds the landing block of one clause: a new block with a phi node for
/// each variable of the clause and a jump to the clause's body `target`.
/// Where a phi node of `target` has an entry for the block of the case
/// split, it gets the same operand for the landing block.
pub(crate) fn add_landing(b: &mut FunctionBuilder, case_block: Label, target: Label, vars: &Vec<Value>) -> (e: Label)
    requires
        old(b)@.inv(),
        old(b)@.is_live(target),
        old(b)@.blocks@.len() < u32::MAX,
    ensures
        final(b)@.inv(),
        e.0 == old(b)@.blocks@.len(),
        final(b)@.blocks@.len() == old(b)@.blocks@.len() + 1,
        final(b)@.next_value == old(b)@.next_value,
        final(b)@.entry == old(b)@.entry,
        is_landing_block(final(b)@, e, target, vars@),
        none_revived(old(b)@, final(b)@),
        phis_landed(old(b)@, final(b)@, target, case_block, e),
        final(b)@.block(target).back_refs@ == old(b)@.block(target).back_refs@.push(e),
        final(b)@.block(e).back_refs@.len() == 0,
        forall|j: int| 0 <= j < final(b)@.block(e).phi_nodes@.len() ==> (#[trigger] final(b)@.block(e).phi_nodes@[j]).entries@.len() == 0,
        forall|l: Label| #[trigger]
            old(b)@.is_live(l) ==> {
                &&& final(b)@.is_live(l)
                &&& final(b)@.block(l).label == old(b)@.block(l).label
                &&& final(b)@.block(l).ops == old(b)@.block(l).ops
                &&& final(b)@.block(l).jumps == old(b)@.block(l).jumps
                &&& same_phi_defs(old(b)@, final(b)@, l)
                &&& l != target ==> final(b)@.block(l).phi_nodes == old(b)@.block(l).phi_nodes && final(b)@.block(l).back_refs == old(b)@.block(l).back_refs
            },
{
    let ghost o = b@;
    let e = b.create_block();
    let ghost m0 = b@;
    proof {
        assert forall|l: Label| #[trigger] o.is_live(l) implies m0.is_live(l) && m0.block(l) == o.block(l) by {
            assert(m0.blocks@.take(e.0 as int)[l.0 as int] == m0.blocks@[l.0 as int]);
        }
    }
    let mut i: usize = 0;
    while i < vars.len()
        invariant
            i <= vars@.len(),
            b@.inv(),
            b@.is_live(e),
            b@.blocks@.len() == m0.blocks@.len(),
            b@.next_value == m0.next_value,
            b@.entry == m0.entry,
            forall|q: int| 0 <= q < m0.blocks@.len() && q != e.0 ==> #[trigger] b@.blocks@[q] == m0.blocks@[q],
            b@.block(e).label == e,
            b@.block(e).ops@.len() == 0,
            b@.block(e).jumps@.len() == 0,
            b@.block(e).back_refs@.len() == 0,
            phi_defs(b@.block(e).phi_nodes@) == vars@.take(i as int),
            forall|j: int| 0 <= j < b@.block(e).phi_nodes@.len() ==> (#[trigger] b@.block(e).phi_nodes@[j]).entries@.len() == 0,
        decreases vars@.len() - i,
    {
        let ghost pre = b@;
        let k = b.add_phi(e, vars[i]);
        proof {
            let g = b@;
            assert(g.block(e).phi_nodes@ =~= pre.block(e).phi_nodes@.push(g.block(e).phi_nodes@[k as int]));
            assert(phi_defs(g.block(e).phi_nodes@) =~= phi_defs(pre.block(e).phi_nodes@).push(vars@[i as int]));
            assert(vars@.take(i + 1) == vars@.take(i as int).push(vars@[i as int]));
            assert forall|j: int| 0 <= j < g.block(e).phi_nodes@.len() implies (#[trigger] g.block(e).phi_nodes@[j]).entries@.len() == 0 by {
                if j < k {
                    assert(g.block(e).phi_nodes@.take(k as int)[j] == pre.block(e).phi_nodes@[j]);
                }
            }
        }
        i += 1;
    }
    assert(vars@.take(i as int) == vars@);
    let ghost m1 = b@;
    let mut targets: Vec<Label> = Vec::new();
    targets.push(target);
    proof {
        assert forall|l: Label| #[trigger] o.is_live(l) implies m1.is_live(l) && m1.block(l) == o.block(l) by {
            assert(m0.is_live(l));
            assert(m1.blocks@[l.0 as int] == m0.blocks@[l.0 as int]);
        }
        assert(targets@[0] == target);
        assert(m1.is_live(target));
        assert forall|l: Label| !m1.block(l).back_refs@.contains(e) || !m1.is_live(l) by {
            if m1.is_live(l) {
                assert(m1.back_refs_exact_at(l));
                assert(m1.block(l).back_refs@.contains(e) <==> m1.edge(e, l));
            }
        }
    }
    b.append_op(e, Op { kind: OpKind::Jump, reads: Vec::new(), writes: Vec::new() }, targets);
    let ghost m2 = b@;
    proof {
        assert(target != e);
        assert(m2.block(e).back_refs == m1.block(e).back_refs);
        assert(targets@.contains(target));
        assert(m2.block(target).back_refs@ == m1.block(target).back_refs@.push(e));
        assert(m1.block(target) == o.block(target));
        assert forall|l: Label| #[trigger] o.is_live(l) implies {
            &&& m2.is_live(l)
            &&& m2.block(l).label == o.block(l).label
            &&& m2.block(l).ops == o.block(l).ops
            &&& m2.block(l).jumps == o.block(l).jumps
            &&& m2.block(l).phi_nodes == o.block(l).phi_nodes
            &&& l != target ==> m2.block(l).back_refs == o.block(l).back_refs
        } by {
            assert(m1.is_live(l));
            assert(l != e);
            if targets@.contains(l) {
                let q = choose|q: int| 0 <= q < targets@.len() && targets@[q] == l;
            }
        }
    }
    let n = b.fun().get(target).phi_nodes.len();
    let mut j: usize = 0;
    while j < n
        invariant
            j <= n,
            b@.inv(),
            m2.is_live(target),
            m2.is_live(e),
            target != e,
            n == m2.block(target).phi_nodes@.len(),
            same_edges(m2, b@),
            b@.blocks@.len() == m2.blocks@.len(),
            b@.entry == m2.entry,
            b@.next_value == m2.next_value,
            forall|q: int| 0 <= q < m2.blocks@.len() && q != target.0 ==> #[trigger] b@.blocks@[q] == m2.blocks@[q],
            b@.block(target).label == m2.block(target).label,
            b@.block(target).ops == m2.block(target).ops,
            b@.block(target).phi_nodes@.len() == n,
            forall|q: int| 0 <= q < n ==> (#[trigger] b@.block(target).phi_nodes@[q]).ssa == m2.block(target).phi_nodes@[q].ssa,
            forall|q: int| 0 <= q < j ==> (#[trigger] b@.block(target).phi_nodes@[q]).entries@ == landed_entries(
                m2.block(target).phi_nodes@[q].entries@,
                case_block,
                e,
            ),
            forall|q: int| j <= q < n ==> #[trigger] b@.block(target).phi_nodes@[q] == m2.block(target).phi_nodes@[q],
        decreases n - j,
    {
        let ghost pre = b@;
        assert(pre.is_live(target));
        match find_entry(&b.fun().get(target).phi_nodes[j], case_block) {
            Some(src) => {
                b.add_phi_entry(target, j, e, src);
                proof {
                    let g = b@;
                    assert forall|l: Label| #[trigger] m2.is_live(l) == g.is_live(l) by {
                        assert(m2.is_live(l) == pre.is_live(l));
                    }
                    assert forall|l: Label| #[trigger] m2.is_live(l) implies g.block(l).jumps == m2.block(l).jumps && g.block(
                        l,
                    ).back_refs == m2.block(l).back_refs by {
                        assert(pre.is_live(l));
                    }
                }
            },
            None => {},
        }
        j += 1;
    }
    proof {
        let g = b@;
        assert(g.blocks@[e.0 as int] == m2.blocks@[e.0 as int]);
        assert forall|l: Label| l.0 < o.blocks@.len() && #[trigger] g.is_live(l) implies o.is_live(l) by {
            assert(m2.is_live(l));
            assert(m1.is_live(l));
            assert(m1.blocks@[l.0 as int] == m0.blocks@[l.0 as int]);
            assert(m0.blocks@.take(e.0 as int)[l.0 as int] == m0.blocks@[l.0 as int]);
        }
        assert forall|l: Label| #[trigger] o.is_live(l) implies {
            &&& g.is_live(l)
            &&& g.block(l).label == o.block(l).label
            &&& g.block(l).ops == o.block(l).ops
            &&& g.block(l).jumps == o.block(l).jumps
            &&& same_phi_defs(o, g, l)
            &&& l != target ==> g.block(l).phi_nodes == o.block(l).phi_nodes && g.block(l).back_refs == o.block(l).back_refs
        } by {
            assert(m2.is_live(l));
            if l != target {
                assert(g.blocks@[l.0 as int] == m2.blocks@[l.0 as int]);
            } else {
                assert(phi_defs(g.block(l).phi_nodes@) =~= phi_defs(o.block(l).phi_nodes@));
            }
        }
        assert(m2.block(target).phi_nodes == o.block(target).phi_nodes);
    }
    e
}

/// The landing blocks, in clause order, of those of the first `upto`
/// clauses whose body is block `l`. The landing block of clause `i` is
/// block `landing + i`.
pub open spec fn landings_of(targets: Seq<Label>, l: Label, landing: nat, upto: nat) -> Seq<Label>
    decreases upto,
{
    if upto == 0 || upto > targets.len() {
        Seq::empty()
    } else {
        let prev = landings_of(targets, l, landing, (upto - 1) as nat);
        if targets[upto - 1] == l {
            prev.push(Label((landing + upto - 1) as u32))
        } else {
            prev
        }
    }
}

/// One entry for each of the blocks, all with the operand `s`; none where
/// there is no operand.
pub open spec fn entries_for(lands: Seq<Label>, s: Option<Source>) -> Seq<(Label, Source)> {
    match s {
        Some(src) => Seq::new(lands.len(), |i: int| (lands[i], src)),
        None => Seq::empty(),
    }
}

/// The entries of a phi node of a clause body after the case split in
/// block `c` is compiled: the entries that were not for `c`, and then, with
/// the operand that the phi node had for `c`, one for each of the landing
/// blocks `lands` through which the body is now reached.
pub open spec fn rekeyed_to_landings(entries: Seq<(Label, Source)>, c: Label, lands: Seq<Label>) -> Seq<(Label, Source)> {
    entries_without(entries, c) + entries_for(lands, first_source(entries, c))
}

/// From `f` to `g` the phi nodes of block `l` have been rekeyed from the
/// block `c` of a case split to the landing blocks of the clauses whose
/// body `l` is. A block that is no body keeps its phi nodes.
pub open spec fn phis_follow_case(f: Function, g: Function, c: Label, l: Label) -> bool {
    let targets = f.block(c).jumps@;
    let lands = landings_of(targets, l, f.blocks@.len() as nat, targets.len());
    if targets.contains(l) {
        &&& g.block(l).phi_nodes@.len() == f.block(l).phi_nodes@.len()
        &&& forall|j: int| 0 <= j < f.block(l).phi_nodes@.len() ==> {
            &&& (#[trigger] g.block(l).phi_nodes@[j]).ssa == f.block(l).phi_nodes@[j].ssa
            &&& g.block(l).phi_nodes@[j].entries@ == rekeyed_to_landings(f.block(l).phi_nodes@[j].entries@, c, lands)
        }
    } else {
        g.block(l).phi_nodes == f.block(l).phi_nodes
    }
}

proof fn lemma_first_source_concat(a: Seq<(Label, Source)>, b: Seq<(Label, Source)>, c: Label)
    ensures
        first_source(a + b, c) == match first_source(a, c) {
            Some(s) => Some(s),
            None => first_source(b, c),
        },
    decreases a.len(),
{
    if a.len() == 0 {
        assert(a + b == b);
    } else {
        assert((a + b)[0] == a[0]);
        assert((a + b).drop_first() == a.drop_first() + b);
        lemma_first_source_concat(a.drop_first(), b, c);
    }
}

proof fn lemma_entries_without_concat(a: Seq<(Label, Source)>, b: Seq<(Label, Source)>, c: Label)
    ensures
        entries_without(a + b, c) == entries_without(a, c) + entries_without(b, c),
    decreases b.len(),
{
    if b.len() == 0 {
        assert(a + b == a);
        assert(entries_without(a, c) + entries_without(b, c) == entries_without(a, c));
    } else {
        lemma_entries_without_concat(a, b.drop_last(), c);
        assert((a + b).drop_last() == a + b.drop_last());
        assert((a + b).last() == b.last());
        if b.last().0 != c {
            assert((entries_without(a, c) + entries_without(b.drop_last(), c)).push(b.last()) == entries_without(a, c) + entries_without(
                b.drop_last(),
                c,
            ).push(b.last()));
        }
    }
}

proof fn lemma_first_source_absent(a: Seq<(Label, Source)>, c: Label)
    requires
        forall|k: int| 0 <= k < a.len() ==> (#[trigger] a[k]).0 != c,
    ensures
        first_source(a, c) is None,
    decreases a.len(),
{
    if a.len() > 0 {
        assert forall|k: int| 0 <= k < a.drop_first().len() implies (#[trigger] a.drop_first()[k]).0 != c by {
            assert(a.drop_first()[k] == a[k + 1]);
        }
        lemma_first_source_absent(a.drop_first(), c);
    }
}

/// Every landing block of a body has a label from `landing` on.
pub proof fn lemma_landings_of_range(targets: Seq<Label>, l: Label, landing: nat, upto: nat)
    requires
        upto <= targets.len(),
        landing + targets.len() <= u32::MAX,
    ensures
        forall|k: int| 0 <= k < landings_of(targets, l, landing, upto).len() ==> landing <= (#[trigger] landings_of(targets, l, landing, upto)[k]).0 < landing + upto,
        !targets.take(upto as int).contains(l) ==> landings_of(targets, l, landing, upto).len() == 0,
    decreases upto,
{
    if upto > 0 {
        lemma_landings_of_range(targets, l, landing, (upto - 1) as nat);
        let prev = landings_of(targets, l, landing, (upto - 1) as nat);
        let cur = landings_of(targets, l, landing, upto);
        assert forall|k: int| 0 <= k < cur.len() implies landing <= (#[trigger] cur[k]).0 < landing + upto by {
            if k < prev.len() {
                assert(cur[k] == prev[k]);
            }
        }
        let t0 = targets.take(upto - 1);
        let t1 = targets.take(upto as int);
        if !t1.contains(l) {
            assert(t1[upto - 1] == targets[upto - 1]);
            if t0.contains(l) {
                let q = choose|q: int| 0 <= q < t0.len() && t0[q] == l;
                assert(t1[q] == l);
            }
        }
    }
}

/// The phi nodes of block `l` of `g` are those of `f` with the entries for
/// the landing blocks of the first `i` clauses appended.
pub open spec fn phis_landed_upto(f: Function, g: Function, c: Label, l: Label, targets: Seq<Label>, i: nat) -> bool {
    let lands = landings_of(targets, l, f.blocks@.len() as nat, i);
    &&& g.block(l).phi_nodes@.len() == f.block(l).phi_nodes@.len()
    &&& forall|j: int| 0 <= j < f.block(l).phi_nodes@.len() ==> {
        &&& (#[trigger] g.block(l).phi_nodes@[j]).ssa == f.block(l).phi_nodes@[j].ssa
        &&& g.block(l).phi_nodes@[j].entries@ == f.block(l).phi_nodes@[j].entries@ + entries_for(
            lands,
            first_source(f.block(l).phi_nodes@[j].entries@, c),
        )
    }
}

proof fn lemma_landed_step(old_entries: Seq<(Label, Source)>, lands: Seq<Label>, c: Label, e: Label)
    requires
        forall|k: int| 0 <= k < lands.len() ==> (#[trigger] lands[k]) != c,
    ensures
        landed_entries(old_entries + entries_for(lands, first_source(old_entries, c)), c, e) == old_entries + entries_for(
            lands.push(e),
            first_source(old_entries, c),
        ),
{
    let s = first_source(old_entries, c);
    let added = entries_for(lands, s);
    lemma_first_source_concat(old_entries, added, c);
    assert forall|k: int| 0 <= k < added.len() implies (#[trigger] added[k]).0 != c by {
        assert(added[k].0 == lands[k]);
    }
    lemma_first_source_absent(added, c);
    match s {
        Some(src) => {
            assert((old_entries + added).push((e, src)) =~= old_entries + entries_for(lands.push(e), s));
        },
        None => {
            assert(entries_for(lands.push(e), s) =~= added);
        },
    }
}

pub proof fn lemma_rekeyed(old_entries: Seq<(Label, Source)>, lands: Seq<Label>, c: Label)
    requires
        forall|k: int| 0 <= k < lands.len() ==> (#[trigger] lands[k]) != c,
    ensures
        entries_without(old_entries + entries_for(lands, first_source(old_entries, c)), c) == rekeyed_to_landings(old_entries, c, lands),
{
    let added = entries_for(lands, first_source(old_entries, c));
    lemma_entries_without_concat(old_entries, added, c);
    assert forall|k: int| 0 <= k < added.len() implies added[k].0 != c by {
        assert(added[k].0 == lands[k]);
    }
    lemma_entries_without_absent(added, c);
}

/// What became of a block that was to be compiled.
#[derive(Debug)]
pub enum CaseOutcome {
    /// The block does not end in a case split with one successor for each
    /// clause. Nothing was changed.
    NotACase,
    /// The graph has no room for the blocks and values of this tree.
    /// Nothing was changed.
    TooLarge(Decision),
    /// The case split was replaced by the lowering of this tree.
    Compiled(Decision),
}

/// The tree is the one that compilation makes of the clauses. Whatever
/// `ncols` scrutinees hold, it selects the first of the clauses, in their
/// order, whose patterns all match, and fails where none does; and the
/// leaf it ends in binds each variable to the term that the match with
/// that clause binds it to.
pub open spec fn selects_first_match(d: Decision, clauses: Seq<Clause>, ncols: nat) -> bool {
    &&& crate::pattern::decision_wf(d, ncols)
    &&& crate::pattern::leaves_below(d, clauses.len())
    &&& crate::decision::is_compiled(d, crate::decision::initial_rows(clauses, ncols, 0), ncols)
    &&& forall|vals: Seq<Term>| vals.len() == ncols ==> #[trigger] decide(d, vals) == first_match(clauses, vals)
    &&& forall|vals: Seq<Term>, x: Value, v: Term|
        vals.len() == ncols ==> #[trigger] bound_at_leaf(d, vals, x, v) == first_match_binds(clauses, vals, x, v)
}

/// From `f` to `g` the case split that ended block `c` has been replaced
/// by the lowering of tree `d`. The landing blocks of the clauses are the
/// first new blocks, in clause order, each with the phi nodes for the
/// clause's variables and a jump to the clause's body; the blocks of the
/// tests follow. Block `c` holds the root of the tree. What else was there
/// has kept its code.
pub open spec fn case_lowered(f: Function, g: Function, c: Label, d: Decision) -> bool {
    let clauses = case_clauses(f, c);
    let k = clauses.len();
    let landing = f.blocks@.len() as nat;
    let cols = f.block(c).ops@.last().reads@;
    &&& g.blocks@.len() == f.blocks@.len() + k + tree_blocks(d)
    &&& g.next_value == f.next_value + tree_values(d)
    &&& g.entry == f.entry
    &&& none_revived(f, g)
    &&& realizes(g, d, c, cols, landing + k, f.next_value as nat, landing)
    &&& g.block(c).ops@.drop_last() == f.block(c).ops@.drop_last()
    &&& forall|i: int| 0 <= i < k ==> is_landing_block(g, Label((landing + i) as u32), #[trigger] f.block(c).jumps@[i], clause_vars(clauses[i]))
    &&& landings_synced(g, landing, k)
    &&& forall|l: Label| #[trigger]
        f.is_live(l) ==> {
            &&& g.is_live(l)
            &&& g.block(l).label == f.block(l).label
            &&& same_phi_defs(f, g, l)
            &&& phis_follow_case(f, g, c, l)
            &&& l != c ==> g.block(l).ops == f.block(l).ops && g.block(l).jumps == f.block(l).jumps
        }
    &&& forall|l: Label| landing + k <= l.0 < g.blocks@.len() ==> #[trigger] crate::lower::is_node_block(g, l)
    &&& forall|l: Label| landing + k <= l.0 < g.blocks@.len() ==> #[trigger] crate::lower::jumps_beyond(g, l, landing)
}

pub(crate) fn copy_sources(v: &Vec<Source>) -> (r: Vec<Source>)
    ensures
        r@ == v@,
{
    let mut r: Vec<Source> = Vec::new();
    let mut i: usize = 0;
    while i < v.len()
        invariant
            i <= v@.len(),
            r@ == v@.take(i as int),
        decreases v@.len() - i,
    {
        r.push(v[i]);
        assert(v@.take(i + 1) == v@.take(i as int).push(v@[i as int]));
        i += 1;
    }
    assert(v@.take(i as int) == v@);
    r
}

/// The variables of each clause.
fn all_clause_vars(clauses: &Vec<Clause>) -> (vars: Vec<Vec<Value>>)
    ensures
        vars@.len() == clauses@.len(),
        forall|i: int| 0 <= i < clauses@.len() ==> (#[trigger] vars@[i])@ == clause_vars(clauses@[i]),
{
    let mut vars: Vec<Vec<Value>> = Vec::new();
    let mut i: usize = 0;
    while i < clauses.len()
        invariant
            i <= clauses@.len(),
            vars@.len() == i,
            forall|q: int| 0 <= q < i ==> (#[trigger] vars@[q])@ == clause_vars(clauses@[q]),
        decreases clauses@.len() - i,
    {
        let mut v: Vec<Value> = Vec::new();
        collect_vars(&clauses[i].patterns, &mut v);
        vars.push(v);
        i += 1;
    }
    vars
}

/// The landing block of clause `q` of a case split in a graph that had
/// `base` blocks: block `base + q`, with no predecessor and no phi entry
/// yet.
pub open spec fn is_fresh_landing(g: Function, base: nat, q: int, target: Label, vars: Seq<Value>) -> bool {
    let e = Label((base + q) as u32);
    &&& is_landing_block(g, e, target, vars)
    &&& g.block(e).back_refs@.len() == 0
    &&& forall|j: int| 0 <= j < g.block(e).phi_nodes@.len() ==> (#[trigger] g.block(e).phi_nodes@[j]).entries@.len() == 0
}

/// Adds the landing blocks of all clauses, in clause order.
pub(crate) fn add_landings(b: &mut FunctionBuilder, c: Label, targets: &Vec<Label>, vars: &Vec<Vec<Value>>)
    requires
        old(b)@.inv(),
        old(b)@.is_live(c),
        targets@.len() == vars@.len(),
        old(b)@.blocks@.len() + targets@.len() <= u32::MAX,
        forall|q: int| 0 <= q < targets@.len() ==> old(b)@.is_live(#[trigger] targets@[q]),
    ensures
        final(b)@.inv(),
        final(b)@.blocks@.len() == old(b)@.blocks@.len() + targets@.len(),
        final(b)@.next_value == old(b)@.next_value,
        final(b)@.entry == old(b)@.entry,
        none_revived(old(b)@, final(b)@),
        forall|l: Label| #[trigger]
            old(b)@.is_live(l) ==> {
                &&& final(b)@.is_live(l)
                &&& final(b)@.block(l).label == old(b)@.block(l).label
                &&& final(b)@.block(l).ops == old(b)@.block(l).ops
                &&& final(b)@.block(l).jumps == old(b)@.block(l).jumps
                &&& same_phi_defs(old(b)@, final(b)@, l)
                &&& phis_landed_upto(old(b)@, final(b)@, c, l, targets@, targets@.len())
                &&& !targets@.contains(l) ==> final(b)@.block(l).phi_nodes == old(b)@.block(l).phi_nodes
            },
        forall|q: int| 0 <= q < targets@.len() ==> is_fresh_landing(final(b)@, old(b)@.blocks@.len() as nat, q, #[trigger] targets@[q], vars@[q]@),
{
    let ghost o = b@;
    let ghost lb = o.blocks@.len() as nat;
    let k = targets.len();
    proof {
        assert forall|l: Label| #[trigger] o.is_live(l) implies phis_landed_upto(o, o, c, l, targets@, 0) by {
            assert forall|j: int| 0 <= j < o.block(l).phi_nodes@.len() implies (#[trigger] o.block(l).phi_nodes@[j]).entries@
                == o.block(l).phi_nodes@[j].entries@ + entries_for(
                landings_of(targets@, l, lb, 0),
                first_source(o.block(l).phi_nodes@[j].entries@, c),
            ) by {
                let s = first_source(o.block(l).phi_nodes@[j].entries@, c);
                assert(entries_for(Seq::<Label>::empty(), s) =~= Seq::<(Label, Source)>::empty());
                assert(o.block(l).phi_nodes@[j].entries@ + Seq::<(Label, Source)>::empty() =~= o.block(l).phi_nodes@[j].entries@);
            }
        }
    }
    let mut i: usize = 0;
    while i < k
        invariant
            i <= k,
            k == targets@.len(),
            k == vars@.len(),
            lb == o.blocks@.len(),
            lb + k <= u32::MAX,
            o.is_live(c),
            forall|q: int| 0 <= q < k ==> o.is_live(#[trigger] targets@[q]),
            b@.inv(),
            b@.blocks@.len() == lb + i,
            b@.next_value == o.next_value,
            b@.entry == o.entry,
            none_revived(o, b@),
            forall|l: Label| #[trigger]
                o.is_live(l) ==> {
                    &&& b@.is_live(l)
                    &&& b@.block(l).label == o.block(l).label
                    &&& b@.block(l).ops == o.block(l).ops
                    &&& b@.block(l).jumps == o.block(l).jumps
                    &&& same_phi_defs(o, b@, l)
                    &&& phis_landed_upto(o, b@, c, l, targets@, i as nat)
                    &&& !targets@.take(i as int).contains(l) ==> b@.block(l).phi_nodes == o.block(l).phi_nodes
                },
            forall|q: int| 0 <= q < i ==> is_fresh_landing(b@, lb, q, #[trigger] targets@[q], vars@[q]@),
        decreases k - i,
    {
        let ghost pre = b@;
        assert(pre.is_live(targets@[i as int])) by {
            assert(o.is_live(targets@[i as int]));
        }
        let e = add_landing(b, c, targets[i], &vars[i]);
        proof {
            let g = b@;
            assert forall|l: Label| l.0 < o.blocks@.len() && #[trigger] g.is_live(l) implies o.is_live(l) by {
                assert(pre.is_live(l));
            }
            let t0 = targets@.take(i as int);
            let t1 = targets@.take(i + 1);
            assert(t1 == t0.push(targets@[i as int]));
            assert forall|l: Label| #[trigger] o.is_live(l) implies {
                &&& g.is_live(l)
                &&& g.block(l).label == o.block(l).label
                &&& g.block(l).ops == o.block(l).ops
                &&& g.block(l).jumps == o.block(l).jumps
                &&& same_phi_defs(o, g, l)
                &&& phis_landed_upto(o, g, c, l, targets@, (i + 1) as nat)
                &&& !t1.contains(l) ==> g.block(l).phi_nodes == o.block(l).phi_nodes
            } by {
                assert(pre.is_live(l));
                assert(phis_landed_upto(o, pre, c, l, targets@, i as nat));
                let lands = landings_of(targets@, l, lb, i as nat);
                lemma_landings_of_range(targets@, l, lb, i as nat);
                if l == targets@[i as int] {
                    assert(t1[i as int] == l);
                    assert(landings_of(targets@, l, lb, (i + 1) as nat) == lands.push(e));
                    assert(crate::compile_pattern::phis_landed(pre, g, l, c, e));
                    assert forall|j: int| 0 <= j < o.block(l).phi_nodes@.len() implies {
                        &&& (#[trigger] g.block(l).phi_nodes@[j]).ssa == o.block(l).phi_nodes@[j].ssa
                        &&& g.block(l).phi_nodes@[j].entries@ == o.block(l).phi_nodes@[j].entries@ + entries_for(
                            lands.push(e),
                            first_source(o.block(l).phi_nodes@[j].entries@, c),
                        )
                    } by {
                        assert(pre.block(l).phi_nodes@[j].ssa == o.block(l).phi_nodes@[j].ssa);
                        assert(g.block(l).phi_nodes@[j].entries@ == landed_entries(pre.block(l).phi_nodes@[j].entries@, c, e));
                        assert forall|q: int| 0 <= q < lands.len() implies (#[trigger] lands[q]) != c by {
                            assert(lands[q].0 >= lb);
                        }
                        lemma_landed_step(o.block(l).phi_nodes@[j].entries@, lands, c, e);
                    }
                } else {
                    assert(landings_of(targets@, l, lb, (i + 1) as nat) == lands);
                    assert(g.block(l).phi_nodes == pre.block(l).phi_nodes);
                    if !t1.contains(l) {
                        if t0.contains(l) {
                            let q = choose|q: int| 0 <= q < t0.len() && t0[q] == l;
                            assert(t1[q] == l);
                        }
                    }
                }
            }
            assert forall|q: int| 0 <= q < i + 1 implies is_fresh_landing(g, lb, q, #[trigger] targets@[q], vars@[q]@) by {
                let eq = Label((lb + q) as u32);
                if q < i {
                    assert(is_fresh_landing(pre, lb, q, targets@[q], vars@[q]@));
                    assert(pre.is_live(eq));
                    assert(eq != targets@[i as int]) by {
                        assert(o.is_live(targets@[i as int]));
                    }
                    assert(g.block(eq).phi_nodes == pre.block(eq).phi_nodes);
                } else {
                    assert(eq == e);
                }
            }
        }
        i += 1;
    }
    assert(targets@.take(k as int) == targets@);
}

/// Takes the entries for block `c` out of the phi nodes of every block in
/// `targets`.
pub(crate) fn strip_targets(b: &mut FunctionBuilder, c: Label, targets: &Vec<Label>)
    requires
        old(b)@.inv(),
        forall|q: int| 0 <= q < targets@.len() ==> old(b)@.is_live(#[trigger] targets@[q]),
    ensures
        final(b)@.inv(),
        same_edges(old(b)@, final(b)@),
        final(b)@.next_value == old(b)@.next_value,
        final(b)@.entry == old(b)@.entry,
        forall|l: Label| #[trigger]
            old(b)@.is_live(l) ==> {
                &&& final(b)@.block(l).label == old(b)@.block(l).label
                &&& final(b)@.block(l).ops == old(b)@.block(l).ops
                &&& same_phi_defs(old(b)@, final(b)@, l)
                &&& if targets@.contains(l) {
                    phis_stripped(old(b)@.block(l).phi_nodes@, final(b)@.block(l).phi_nodes@, c)
                } else {
                    final(b)@.block(l).phi_nodes == old(b)@.block(l).phi_nodes
                }
            },
{
    let ghost o = b@;
    let k = targets.len();
    let mut i: usize = 0;
    while i < k
        invariant
            i <= k,
            k == targets@.len(),
            forall|q: int| 0 <= q < k ==> o.is_live(#[trigger] targets@[q]),
            o.inv(),
            b@.inv(),
            same_edges(o, b@),
            b@.next_value == o.next_value,
            b@.entry == o.entry,
            forall|l: Label| #[trigger]
                o.is_live(l) ==> {
                    &&& b@.block(l).label == o.block(l).label
                    &&& b@.block(l).ops == o.block(l).ops
                    &&& same_phi_defs(o, b@, l)
                    &&& if targets@.take(i as int).contains(l) {
                        phis_stripped(o.block(l).phi_nodes@, b@.block(l).phi_nodes@, c)
                    } else {
                        b@.block(l).phi_nodes == o.block(l).phi_nodes
                    }
                },
        decreases k - i,
    {
        let ghost pre = b@;
        let t = targets[i];
        assert(pre.is_live(t)) by {
            assert(o.is_live(targets@[i as int]));
        }
        b.remove_phi_entries(t, c);
        proof {
            let g = b@;
            assert forall|l: Label| #[trigger] o.is_live(l) == g.is_live(l) by {
                assert(o.is_live(l) == pre.is_live(l));
            }
            assert forall|l: Label| #[trigger] o.is_live(l) implies g.block(l).jumps == o.block(l).jumps && g.block(
                l,
            ).back_refs == o.block(l).back_refs by {
                assert(pre.is_live(l));
            }
            let t0 = targets@.take(i as int);
            let t1 = targets@.take(i + 1);
            assert(t1 == t0.push(t));
            assert forall|l: Label| #[trigger] o.is_live(l) implies {
                &&& g.block(l).label == o.block(l).label
                &&& g.block(l).ops == o.block(l).ops
                &&& same_phi_defs(o, g, l)
                &&& if t1.contains(l) {
                    phis_stripped(o.block(l).phi_nodes@, g.block(l).phi_nodes@, c)
                } else {
                    g.block(l).phi_nodes == o.block(l).phi_nodes
                }
            } by {
                assert(pre.is_live(l));
                if l == t {
                    assert(phi_defs(g.block(l).phi_nodes@) =~= phi_defs(pre.block(l).phi_nodes@));
                    assert(t1[i as int] == l);
                    if t0.contains(l) {
                        lemma_strip_twice(o.block(l).phi_nodes@, pre.block(l).phi_nodes@, g.block(l).phi_nodes@, c);
                    }
                } else {
                    assert(g.blocks@[l.0 as int] == pre.blocks@[l.0 as int]);
                    if t1.contains(l) {
                        let q = choose|q: int| 0 <= q < t1.len() && t1[q] == l;
                        assert(t0[q] == l);
                    }
                    if t0.contains(l) {
                        let q = choose|q: int| 0 <= q < t0.len() && t0[q] == l;
                        assert(t1[q] == l);
                    }
                }
            }
        }
        i += 1;
    }
    assert(targets@.take(k as int) == targets@);
}

/// Compiles the case split that ends a block: the clauses become a
/// decision tree, and the tree is lowered into the graph in place of the
/// case split.
pub fn compile_case(b: &mut FunctionBuilder, block: Label) -> (r: CaseOutcome)
    requires
        old(b)@.inv(),
    ensures
        final(b)@.inv(),
        old(b)@.arity_ok() ==> final(b)@.arity_ok(),
        old(b)@.phis_complete() ==> final(b)@.phis_complete(),
        well_scoped(old(b)@) ==> well_scoped(final(b)@),
        match r {
            CaseOutcome::NotACase => !is_case_site(old(b)@, block) && final(b)@ == old(b)@,
            CaseOutcome::TooLarge(d) => {
                &&& is_case_site(old(b)@, block)
                &&& selects_first_match(d, case_clauses(old(b)@, block), old(b)@.block(block).ops@.last().reads@.len())
                &&& !has_room(old(b)@, d, case_clauses(old(b)@, block).len())
                &&& final(b)@ == old(b)@
            },
            CaseOutcome::Compiled(d) => {
                &&& is_case_site(old(b)@, block)
                &&& selects_first_match(d, case_clauses(old(b)@, block), old(b)@.block(block).ops@.last().reads@.len())
                &&& has_room(old(b)@, d, case_clauses(old(b)@, block).len())
                &&& case_lowered(old(b)@, final(b)@, block, d)
            },
        },
{
    let ghost o = b@;
    let ghost lb = o.blocks@.len() as nat;
    let f = b.fun();
    if !f.live(block) {
        return CaseOutcome::NotACase;
    }
    let blk = f.get(block);
    let n = blk.ops.len();
    if n == 0 {
        return CaseOutcome::NotACase;
    }
    let op = &blk.ops[n - 1];
    let (d, vars, cols, targets) = match &op.kind {
        OpKind::Case { clauses } => {
            if blk.jumps.len() != clauses.len() {
                return CaseOutcome::NotACase;
            }
            let d = compile_clauses(clauses, op.reads.len());
            let vars = all_clause_vars(clauses);
            (d, vars, copy_sources(&op.reads), copy_labels(&blk.jumps))
        },
        _ => {
            return CaseOutcome::NotACase;
        },
    };
    let ghost clauses = case_clauses(o, block);
    let k = targets.len();
    let len = f.blocks.len();
    let nvals = f.next_value as usize;
    let fits = match tree_size(&d) {
        Some((nb, nv)) => k <= 0xffff_ffff - len && nb <= 0xffff_ffff - len - k && nv <= 0xffff_ffff - nvals,
        None => false,
    };
    if !fits {
        return CaseOutcome::TooLarge(d);
    }
    let landing = len as u32;
    let popped = b.pop_op(block);
    let ghost m1 = b@;
    proof {
        assert forall|q: int| 0 <= q < targets@.len() implies m1.is_live(#[trigger] targets@[q]) by {
            assert(o.jumps_live_at(block));
            assert(o.is_live(o.block(block).jumps@[q]));
        }
    }
    add_landings(b, block, &targets, &vars);
    let ghost m2 = b@;
    proof {
        assert forall|q: int| 0 <= q < targets@.len() implies m2.is_live(#[trigger] targets@[q]) by {
            assert(m1.is_live(targets@[q]));
        }
    }
    strip_targets(b, block, &targets);
    let ghost m3 = b@;
    proof {
        assert forall|l: Label| #[trigger] is_landing(l, lb, k as nat) implies {
            &&& m3.is_live(l)
            &&& forall|j: int| 0 <= j < m3.block(l).phi_nodes@.len() ==> (#[trigger] m3.block(l).phi_nodes@[j]).preds() == m3.block(l).back_refs@
        } by {
            let q = l.0 - lb;
            assert(l == Label((lb + q) as u32));
            assert(is_fresh_landing(m2, lb, q, targets@[q], vars@[q]@));
            assert(m2.is_live(l));
            assert(!targets@.contains(l)) by {
                if targets@.contains(l) {
                    let w = choose|w: int| 0 <= w < targets@.len() && targets@[w] == l;
                    assert(m1.is_live(targets@[w]));
                }
            }
            assert(m3.block(l).phi_nodes == m2.block(l).phi_nodes);
            assert forall|j: int| 0 <= j < m3.block(l).phi_nodes@.len() implies (#[trigger] m3.block(l).phi_nodes@[j]).preds() == m3.block(
                l,
            ).back_refs@ by {
                assert(m2.block(l).phi_nodes@[j].entries@.len() == 0);
                assert(m3.block(l).phi_nodes@[j].preds() =~= m3.block(l).back_refs@);
            }
        }
        assert(m1.is_live(block) && m2.is_live(block) && m3.is_live(block));
        assert(m3.block(block).jumps == m2.block(block).jumps);
    }
    lower(b, &d, block, &cols, landing, k);
    proof {
        let g = b@;
        assert forall|l: Label| l.0 < o.blocks@.len() && #[trigger] g.is_live(l) implies o.is_live(l) by {
            assert(m3.is_live(l));
            assert(m2.is_live(l));
            assert(m1.is_live(l));
        }
        assert forall|q: int| 0 <= q < k implies is_landing_block(g, Label((lb + q) as u32), #[trigger] o.block(block).jumps@[q], clause_vars(clauses[q])) by {
            let e = Label((lb + q) as u32);
            assert(is_landing(e, lb, k as nat));
            assert(is_fresh_landing(m2, lb, q, targets@[q], vars@[q]@));
            assert(m2.is_live(e) && m3.is_live(e));
            assert(!targets@.contains(e)) by {
                if targets@.contains(e) {
                    let w = choose|w: int| 0 <= w < targets@.len() && targets@[w] == e;
                    assert(m1.is_live(targets@[w]));
                }
            }
            assert(m3.block(e).phi_nodes == m2.block(e).phi_nodes);
            assert(m3.block(e).jumps == m2.block(e).jumps);
            assert(crate::lower::phis_grown_at(m3, g, e));
            assert(phi_defs(g.block(e).phi_nodes@) =~= phi_defs(m3.block(e).phi_nodes@));
        }
        assert forall|l: Label| #[trigger] o.is_live(l) implies {
            &&& g.is_live(l)
            &&& g.block(l).label == o.block(l).label
            &&& same_phi_defs(o, g, l)
            &&& phis_follow_case(o, g, block, l)
            &&& l != block ==> g.block(l).ops == o.block(l).ops && g.block(l).jumps == o.block(l).jumps
        } by {
            assert(m1.is_live(l) && m2.is_live(l) && m3.is_live(l));
            assert(!is_landing(l, lb, k as nat));
            assert(g.block(l).phi_nodes == m3.block(l).phi_nodes);
            assert(m3.block(l).jumps == m2.block(l).jumps);
            assert(m1.block(l).phi_nodes == o.block(l).phi_nodes);
            assert(phis_landed_upto(m1, m2, block, l, targets@, k as nat));
            let lands = landings_of(targets@, l, lb, k as nat);
            lemma_landings_of_range(targets@, l, lb, k as nat);
            if targets@.contains(l) {
                assert(phis_stripped(m2.block(l).phi_nodes@, m3.block(l).phi_nodes@, block));
                assert forall|j: int| 0 <= j < o.block(l).phi_nodes@.len() implies {
                    &&& (#[trigger] g.block(l).phi_nodes@[j]).ssa == o.block(l).phi_nodes@[j].ssa
                    &&& g.block(l).phi_nodes@[j].entries@ == rekeyed_to_landings(o.block(l).phi_nodes@[j].entries@, block, lands)
                } by {
                    assert(crate::builder::phi_stripped(m2.block(l).phi_nodes@[j], m3.block(l).phi_nodes@[j], block));
                    assert(m2.block(l).phi_nodes@[j].ssa == m1.block(l).phi_nodes@[j].ssa);
                    assert forall|q: int| 0 <= q < lands.len() implies (#[trigger] lands[q]) != block by {}
                    lemma_rekeyed(o.block(l).phi_nodes@[j].entries@, lands, block);
                }
            } else {
                assert(m3.block(l).phi_nodes == m2.block(l).phi_nodes);
                assert(m2.block(l).phi_nodes == m1.block(l).phi_nodes);
            }
        }
        if o.arity_ok() {
            assert forall|l: Label| #[trigger] g.is_live(l) implies block_arity_ok(g.block(l)) by {
                if l.0 < o.blocks@.len() {
                    assert(o.is_live(l));
                    assert(block_arity_ok(o.block(l)));
                    if l == block {
                        let go = g.block(l).ops@;
                        let oo = o.block(l).ops@;
                        assert(go.drop_last() == oo.drop_last());
                        assert(realizes(g, d, block, cols@, (lb + k) as nat, o.next_value as nat, lb));
                        assert(go.len() > 0 && oo.len() > 0);
                        assert(go.drop_last().len() == go.len() - 1);
                        assert(oo.drop_last().len() == oo.len() - 1);
                        assert(go.len() == oo.len());
                        assert forall|q: int| 0 <= q < go.len() - 1 implies (#[trigger] go[q]).kind.jump_count() is None by {
                            assert(go[q] == go.drop_last()[q]);
                            assert(oo[q] == oo.drop_last()[q]);
                        }
                        lemma_root_arity(g, d, block, cols@, (lb + k) as nat, o.next_value as nat, lb);
                    }
                } else if l.0 < lb + k {
                    let q = l.0 - lb;
                    assert(l == Label((lb + q) as u32));
                    assert(is_landing_block(g, Label((lb + q) as u32), o.block(block).jumps@[q], clause_vars(clauses[q])));
                } else {
                    assert(crate::lower::is_node_block(g, l));
                }
            }
        }
        if o.phis_complete() {
            crate::case_soundness::lemma_case_keeps_phis(o, g, block, d);
        }
        if well_scoped(o) {
            assert(is_case_site(o, block));
            assert(crate::case_ssa::case_binds_own(o, block));
            crate::case_ssa::lemma_case_keeps_ssa(o, g, block, d);
            crate::case_ssa::lemma_other_cases_kept(o, g, block, d);
        }
    }
    CaseOutcome::Compiled(d)
}

/// The case split that ended block `l` of `f` stands compiled in `g` as
/// tree `d`: the tree selects as the clauses do, block `l` holds its root,
/// the landing blocks of the clauses are the blocks from `lb` on, and the
/// values that its tests unpack those from `vb` on.
pub open spec fn compiled_as(f: Function, g: Function, l: Label, d: Decision, lb: nat, vb: nat) -> bool {
    let clauses = case_clauses(f, l);
    let k = clauses.len();
    let cols = f.block(l).ops@.last().reads@;
    &&& selects_first_match(d, clauses, cols.len())
    &&& f.blocks@.len() <= lb
    &&& lb + k + tree_blocks(d) <= g.blocks@.len()
    &&& g.blocks@.len() <= u32::MAX
    &&& vb + tree_values(d) <= g.next_value
    &&& realizes(g, d, l, cols, lb + k, vb, lb)
    &&& g.block(l).ops@.drop_last() == f.block(l).ops@.drop_last()
    &&& forall|i: int| 0 <= i < k ==> is_landing_block(g, Label((lb + i) as u32), #[trigger] f.block(l).jumps@[i], clause_vars(clauses[i]))
}

/// The case split that ended block `l` of `f` stands compiled in `g`.
pub open spec fn case_compiled(f: Function, g: Function, l: Label) -> bool {
    exists|d: Decision, lb: nat, vb: nat| compiled_as(f, g, l, d, lb, vb)
}

/// A compiled case split stays compiled while another is compiled.
proof fn lemma_compiled_kept(f: Function, pre: Function, g: Function, l: Label, d: Decision, lb: nat, vb: nat, c: Label, dc: Decision)
    requires
        compiled_as(f, pre, l, d, lb, vb),
        pre.inv(),
        is_case_site(pre, c),
        case_lowered(pre, g, c, dc),
        has_room(pre, dc, case_clauses(pre, c).len()),
        c != l,
        c.0 < f.blocks@.len(),
        pre.is_live(l),
        forall|j: int| 0 <= j < pre.block(c).jumps@.len() ==> (#[trigger] pre.block(c).jumps@[j]).0 < f.blocks@.len(),
    ensures
        compiled_as(f, g, l, d, lb, vb),
{
    let clauses = case_clauses(f, l);
    let k = clauses.len();
    let cols = f.block(l).ops@.last().reads@;
    let targets = pre.block(c).jumps@;
    assert forall|x: Label| lb <= x.0 && #[trigger] pre.is_live(x) implies crate::lower::agree_at(pre, g, x) && g.block(x).phi_nodes
        == pre.block(x).phi_nodes by {
        assert(x != c);
        assert(phis_follow_case(pre, g, c, x));
        if targets.contains(x) {
            let j = choose|j: int| 0 <= j < targets.len() && targets[j] == x;
            assert(pre.block(c).jumps@[j].0 < f.blocks@.len());
        }
    }
    assert forall|x: Label| lb + k <= x.0 < lb + k + tree_blocks(d) implies #[trigger] crate::lower::agree_at(pre, g, x) by {
        if pre.is_live(x) {
        }
    }
    assert forall|x: Label| #[trigger] is_landing(x, lb, k) implies crate::lower::phis_grown_at(pre, g, x) by {
        let i = x.0 - lb;
        assert(x == Label((lb + i) as u32));
        assert(is_landing_block(pre, Label((lb + i) as u32), f.block(l).jumps@[i], clause_vars(clauses[i])));
        assert(pre.is_live(x));
        assert(g.block(x).phi_nodes == pre.block(x).phi_nodes);
    }
    crate::lower::lemma_realizes_frame(pre, g, d, l, cols, lb + k, vb, lb, k);
    assert forall|i: int| 0 <= i < k implies is_landing_block(g, Label((lb + i) as u32), #[trigger] f.block(l).jumps@[i], clause_vars(clauses[i])) by {
        let x = Label((lb + i) as u32);
        assert(is_landing_block(pre, x, f.block(l).jumps@[i], clause_vars(clauses[i])));
        assert(pre.is_live(x));
        assert(crate::lower::agree_at(pre, g, x));
    }
}

/// The case split that ended block `l` of `f` stands in `g` as it stood:
/// the graph has no room for the lowering of its tree.
pub open spec fn left_for_room(f: Function, g: Function, l: Label) -> bool {
    &&& is_case_site(f, l)
    &&& is_case_site(g, l)
    &&& g.block(l).ops == f.block(l).ops
    &&& g.block(l).jumps == f.block(l).jumps
    &&& exists|d: Decision| #[trigger]
        selects_first_match(d, case_clauses(f, l), f.block(l).ops@.last().reads@.len()) && !has_room(g, d, case_clauses(f, l).len())
}

/// The number of the blocks below label `n` that end in a case split with
/// one successor for each clause.
pub open spec fn case_sites_below(f: Function, n: nat) -> nat
    decreases n,
{
    if n == 0 {
        0
    } else {
        case_sites_below(f, (n - 1) as nat) + if is_case_site(f, Label((n - 1) as u32)) {
            1nat
        } else {
            0nat
        }
    }
}

/// The number of the blocks of the function that end in a case split with
/// one successor for each clause.
pub open spec fn case_sites(f: Function) -> nat {
    case_sites_below(f, f.blocks@.len())
}

/// Graphs whose blocks below `n` end in a case split alike have as many
/// such blocks below `n`.
proof fn lemma_case_sites_same(f: Function, g: Function, n: nat)
    requires
        n <= u32::MAX,
        forall|l: Label| l.0 < n ==> is_case_site(f, l) == #[trigger] is_case_site(g, l),
    ensures
        case_sites_below(f, n) == case_sites_below(g, n),
        case_sites_below(f, n) <= n,
    decreases n,
{
    if n > 0 {
        lemma_case_sites_same(f, g, (n - 1) as nat);
        assert(is_case_site(f, Label((n - 1) as u32)) == is_case_site(g, Label((n - 1) as u32)));
    }
}

/// Blocks that do not end in a case split do not count.
proof fn lemma_case_sites_tail(f: Function, n: nat, m: nat)
    requires
        n <= m <= u32::MAX,
        forall|l: Label| n <= l.0 < m ==> !is_case_site(f, l),
    ensures
        case_sites_below(f, m) == case_sites_below(f, n),
    decreases m - n,
{
    if m > n {
        lemma_case_sites_tail(f, n, (m - 1) as nat);
        assert(!is_case_site(f, Label((m - 1) as u32)));
    }
}

/// Where no block counts, no block ends in a case split.
proof fn lemma_no_case_sites(f: Function, n: nat, l: Label)
    requires
        case_sites_below(f, n) == 0,
        l.0 < n,
    ensures
        !is_case_site(f, l),
    decreases n,
{
    if l.0 < n - 1 {
        lemma_no_case_sites(f, (n - 1) as nat, l);
    } else {
        assert(l == Label((n - 1) as u32));
    }
}

/// A block whose case split stands compiled does not end in a case split.
proof fn lemma_compiled_is_no_case(f: Function, g: Function, l: Label)
    requires
        case_compiled(f, g, l),
    ensures
        !is_case_site(g, l),
{
    let (d, lb, vb) = choose|d: Decision, lb: nat, vb: nat| compiled_as(f, g, l, d, lb, vb);
    let cols = f.block(l).ops@.last().reads@;
    let k = case_clauses(f, l).len();
    lemma_root_arity(g, d, l, cols, lb + k, vb, lb);
}

/// A case split that was left for want of room stays left while another is
/// compiled: the graph only grows.
proof fn lemma_left_kept(f: Function, pre: Function, g: Function, l: Label, c: Label, dc: Decision)
    requires
        left_for_room(f, pre, l),
        is_case_site(pre, c),
        case_lowered(pre, g, c, dc),
        c != l,
    ensures
        left_for_room(f, g, l),
{
    let k = case_clauses(f, l).len();
    let ncols = f.block(l).ops@.last().reads@.len();
    let d = choose|d: Decision| #[trigger] selects_first_match(d, case_clauses(f, l), ncols) && !has_room(pre, d, k);
    assert(pre.is_live(l));
    assert(g.is_live(l));
    assert(g.block(l).ops == pre.block(l).ops);
    assert(selects_first_match(d, case_clauses(f, l), ncols) && !has_room(g, d, k));
}

/// The pass that replaces every case split of a function by the lowering
/// of its decision tree.
#[derive(Debug)]
pub struct CompilePatternPass {
    /// The number of case splits that the last run left in place because
    /// the graph had no room for their trees.
    pub skipped: usize,
}

impl CompilePatternPass {
    pub fn new() -> (p: CompilePatternPass)
        ensures
            p.skipped == 0,
    {
        CompilePatternPass { skipped: 0 }
    }
}

/// What a run of the pass leaves of block `l`: the block with its label
/// and the values of its phi nodes, and, unless it ended in a case split,
/// its code and successors.
pub open spec fn block_kept(f: Function, g: Function, l: Label) -> bool {
    &&& g.is_live(l)
    &&& g.block(l).label == f.block(l).label
    &&& same_phi_defs(f, g, l)
    &&& !is_case_site(f, l) ==> g.block(l).ops == f.block(l).ops && g.block(l).jumps == f.block(l).jumps
}

/// What pattern compilation makes of a graph: every case split of `f` is
/// compiled in `g`, or, where there was no room for the lowering of its
/// tree, left as it stood, and `g` has no other case split; the blocks of
/// `f` are kept; the arity of jumps, the completeness of phi nodes and the
/// scoping of values carry over.
pub open spec fn compile_effect(f: Function, g: Function) -> bool {
    &&& g.inv()
    &&& g.entry == f.entry
    &&& forall|l: Label| #[trigger] is_case_site(f, l) ==> case_compiled(f, g, l) || left_for_room(f, g, l)
    &&& forall|l: Label| #[trigger] is_case_site(g, l) ==> left_for_room(f, g, l)
    &&& forall|l: Label| #[trigger] f.is_live(l) ==> block_kept(f, g, l)
    &&& f.arity_ok() ==> g.arity_ok()
    &&& f.phis_complete() ==> g.phis_complete()
    &&& well_scoped(f) ==> well_scoped(g)
}

impl crate::pass::FunctionPass for CompilePatternPass {
    open spec fn effect(&self, f: Function, g: Function) -> bool {
        compile_effect(f, g)
    }

    /// Compiles the case splits of the function, block by block in label
    /// order. A case split is left in place only where the graph has no
    /// room for the lowering of its tree; `skipped` counts the case splits
    /// left, which are the case splits that the graph has afterwards.
    fn run_function_pass(&mut self, b: &mut FunctionBuilder)
        ensures
            final(self).skipped == case_sites(final(b)@),
            forall|l: Label| #[trigger] is_case_site(old(b)@, l) ==> case_compiled(old(b)@, final(b)@, l) || left_for_room(old(b)@, final(b)@, l),
            forall|l: Label| #[trigger] is_case_site(final(b)@, l) ==> left_for_room(old(b)@, final(b)@, l),
            final(self).skipped == 0 ==> forall|l: Label| !is_case_site(final(b)@, l),
            final(self).skipped == 0 ==> forall|l: Label| #[trigger] is_case_site(old(b)@, l) ==> case_compiled(old(b)@, final(b)@, l),
            forall|l: Label| #[trigger] old(b)@.is_live(l) ==> block_kept(old(b)@, final(b)@, l),
            final(b)@.entry == old(b)@.entry,
            old(b)@.arity_ok() ==> final(b)@.arity_ok(),
            old(b)@.phis_complete() ==> final(b)@.phis_complete(),
            well_scoped(old(b)@) ==> well_scoped(final(b)@),
    {
        let ghost o = b@;
        self.skipped = 0;
        let n = b.fun().blocks.len();
        let mut i: usize = 0;
        while i < n
            invariant
                i <= n,
                n == o.blocks@.len(),
                n <= b@.blocks@.len() <= u32::MAX,
                o.inv(),
                b@.inv(),
                b@.entry == o.entry,
                o.arity_ok() ==> b@.arity_ok(),
                o.phis_complete() ==> b@.phis_complete(),
                well_scoped(o) ==> well_scoped(b@),
                self.skipped == 0 ==> forall|l: Label| l.0 < i ==> !is_case_site(b@, l),
                self.skipped <= i,
                self.skipped == case_sites_below(b@, i as nat),
                forall|l: Label| l.0 < i && #[trigger] is_case_site(o, l) ==> case_compiled(o, b@, l) || left_for_room(o, b@, l),
                forall|l: Label| l.0 >= n ==> !ends_in_case(b@, l),
                none_revived(o, b@),
                forall|l: Label| #[trigger]
                    o.is_live(l) ==> {
                        &&& b@.is_live(l)
                        &&& b@.block(l).label == o.block(l).label
                        &&& same_phi_defs(o, b@, l)
                        &&& (l.0 >= i || !is_case_site(o, l)) ==> b@.block(l).ops == o.block(l).ops && b@.block(l).jumps == o.block(l).jumps
                    },
            decreases n - i,
        {
            let ghost pre = b@;
            let c = Label(i as u32);
            match compile_case(b, c) {
                CaseOutcome::NotACase => {
                    proof {
                        if o.is_live(c) {
                            assert(pre.is_live(c));
                        }
                        assert(!is_case_site(o, c));
                    }
                },
                CaseOutcome::TooLarge(d) => {
                    if self.skipped < usize::MAX {
                        self.skipped = self.skipped + 1;
                    }
                    proof {
                        assert(pre.is_live(c) && o.is_live(c));
                        assert(pre.block(c).ops == o.block(c).ops);
                        assert(pre.block(c).jumps == o.block(c).jumps);
                        assert(selects_first_match(d, case_clauses(o, c), o.block(c).ops@.last().reads@.len()) && !has_room(
                            pre,
                            d,
                            case_clauses(o, c).len(),
                        ));
                        assert(left_for_room(o, pre, c));
                    }
                },
                CaseOutcome::Compiled(d) => {
                    proof {
                        let g = b@;
                        assert(pre.is_live(c) && o.is_live(c));
                        assert(is_case_site(o, c));
                        assert(o.jumps_live_at(c));
                        assert forall|j: int| 0 <= j < pre.block(c).jumps@.len() implies (#[trigger] pre.block(c).jumps@[j]).0 < o.blocks@.len() by {
                            assert(o.is_live(o.block(c).jumps@[j]));
                        }
                        assert forall|l: Label| l.0 < i + 1 && #[trigger] is_case_site(o, l) implies case_compiled(o, g, l) || left_for_room(
                            o,
                            g,
                            l,
                        ) by {
                            if l == c {
                                assert(pre.block(c).ops == o.block(c).ops);
                                assert(pre.block(c).jumps == o.block(c).jumps);
                                assert(case_lowered(pre, g, c, d));
                                assert(compiled_as(o, g, c, d, pre.blocks@.len() as nat, pre.next_value as nat));
                            } else if case_compiled(o, pre, l) {
                                let (dl, lbl, vbl) = choose|dl: Decision, lbl: nat, vbl: nat| compiled_as(o, pre, l, dl, lbl, vbl);
                                assert(pre.is_live(l));
                                lemma_compiled_kept(o, pre, g, l, dl, lbl, vbl, c, d);
                            } else {
                                lemma_left_kept(o, pre, g, l, c, d);
                            }
                        }
                        assert forall|l: Label| l.0 < o.blocks@.len() && #[trigger] g.is_live(l) implies o.is_live(l) by {
                            assert(pre.is_live(l));
                        }
                        let k = case_clauses(pre, c).len();
                        let landing = pre.blocks@.len() as nat;
                        assert forall|l: Label| l.0 >= n implies !ends_in_case(g, l) by {
                            if l.0 < pre.blocks@.len() {
                                assert(!ends_in_case(pre, l));
                                if pre.is_live(l) {
                                    assert(g.block(l).ops == pre.block(l).ops);
                                }
                            } else if l.0 < landing + k {
                                let q = l.0 - landing;
                                assert(l == Label((landing + q) as u32));
                                assert(is_landing_block(g, Label((landing + q) as u32), pre.block(c).jumps@[q], clause_vars(case_clauses(pre, c)[q])));
                            } else if l.0 < g.blocks@.len() {
                                assert(crate::lower::is_node_block(g, l));
                            }
                        }
                        assert(!ends_in_case(g, c));
                        assert forall|l: Label| l.0 < i + 1 && self.skipped == 0 implies !is_case_site(g, l) by {
                            if l != c {
                                assert(!is_case_site(pre, l));
                                if pre.is_live(l) {
                                    assert(g.block(l).ops == pre.block(l).ops);
                                }
                            }
                        }
                        assert forall|l: Label| #[trigger] o.is_live(l) implies {
                            &&& g.is_live(l)
                            &&& g.block(l).label == o.block(l).label
                            &&& same_phi_defs(o, g, l)
                            &&& (l.0 >= i + 1 || !is_case_site(o, l)) ==> g.block(l).ops == o.block(l).ops && g.block(l).jumps == o.block(l).jumps
                        } by {
                            assert(pre.is_live(l));
                        }
                    }
                },
            }
            proof {
                let g = b@;
                assert forall|l: Label| l.0 < i implies is_case_site(pre, l) == #[trigger] is_case_site(g, l) by {
                    if g != pre {
                        assert(l != c);
                        if pre.is_live(l) {
                            assert(g.is_live(l));
                            assert(g.block(l).ops == pre.block(l).ops);
                            assert(g.block(l).jumps == pre.block(l).jumps);
                        }
                        if g.is_live(l) {
                            assert(pre.is_live(l));
                        }
                    }
                }
                lemma_case_sites_same(pre, g, i as nat);
            }
            i += 1;
        }
        proof {
            let g = b@;
            if self.skipped == 0 {
                assert forall|l: Label| !is_case_site(g, l) by {
                    if l.0 >= n {
                        assert(!ends_in_case(g, l));
                    }
                }
            }
            assert forall|l: Label| #[trigger] o.is_live(l) implies block_kept(o, g, l) by {}
            assert forall|l: Label| n <= l.0 < g.blocks@.len() implies !is_case_site(g, l) by {
                assert(!ends_in_case(g, l));
            }
            lemma_case_sites_tail(g, n as nat, g.blocks@.len());
            assert forall|l: Label| #[trigger] is_case_site(g, l) implies left_for_room(o, g, l) by {
                if l.0 >= n {
                    assert(!ends_in_case(g, l));
                }
                assert(o.is_live(l));
                if is_case_site(o, l) {
                    if case_compiled(o, g, l) {
                        lemma_compiled_is_no_case(o, g, l);
                    }
                }
            }
            if self.skipped == 0 {
                assert forall|l: Label| #[trigger] is_case_site(o, l) implies case_compiled(o, g, l) by {
                    assert(!is_case_site(g, l));
                }
            }
        }
    }
}

} // verus!
