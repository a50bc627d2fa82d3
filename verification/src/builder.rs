//! The mutation surface over a function's graph. Every operation keeps the
//! arena intact, the successor lists free of dangling labels and the
//! back-references in step with the successor lists.
use vstd::prelude::*;
use crate::ir::{BasicBlock, Label, Op, OpKind, Phi, Source, Value};
use crate::function::Function;
use crate::util::{contains_label, copy_labels, index_of_label, lemma_push_distinct, lemma_remove_distinct};

verus! {

/// The two functions have the same blocks but for their successor lists and
/// back-references.
pub open spec fn same_code(f: Function, g: Function) -> bool {
    &&& f.blocks@.len() == g.blocks@.len()
    &&& f.entry == g.entry
    &&& f.next_value == g.next_value
    &&& forall|l: Label| #[trigger] f.is_live(l) == g.is_live(l)
    &&& forall|l: Label| #[trigger]
        f.is_live(l) ==> {
            &&& f.block(l).label == g.block(l).label
            &&& f.block(l).phi_nodes == g.block(l).phi_nodes
            &&& f.block(l).ops == g.block(l).ops
        }
}

/// Block `a` holds `b` among its back-references exactly if it is a
/// successor of `a`; nothing else has changed from `f` to `g`.
pub open spec fn synced(f: Function, g: Function, a: Label, b: Label) -> bool {
    &&& same_code(f, g)
    &&& forall|l: Label| #[trigger] f.is_live(l) ==> f.block(l).jumps == g.block(l).jumps
    &&& forall|l: Label| #[trigger] f.is_live(l) && l != b ==> f.block(l).back_refs == g.block(l).back_refs
    &&& g.block(b).back_refs@.no_duplicates()
    &&& forall|x: Label|
        g.block(b).back_refs@.contains(x) <==> if x == a {
            f.block(a).jumps@.contains(b)
        } else {
            f.block(b).back_refs@.contains(x)
        }
    &&& (f.block(a).jumps@.contains(b) && !f.block(b).back_refs@.contains(a)) ==> g.block(b).back_refs@ == f.block(b).back_refs@.push(a)
    &&& (f.block(a).jumps@.contains(b) <==> f.block(b).back_refs@.contains(a)) ==> g.block(b).back_refs == f.block(b).back_refs
}

/// Makes the back-references of `b` agree with the successor list of `a`.
fn sync_back_ref(f: &mut Function, a: Label, b: Label)
    requires
        old(f).is_live(a),
        old(f).is_live(b),
        old(f).block(b).back_refs@.no_duplicates(),
    ensures
        synced(*old(f), *final(f), a, b),
{
    let wanted = contains_label(&f.get(a).jumps, b);
    let pos = index_of_label(&f.get(b).back_refs, a);
    let ghost before = f.block(b).back_refs@;
    let i = b.0 as usize;
    match &mut f.blocks[i] {
        Some(blk) => {
            match pos {
                Some(p) => {
                    if !wanted {
                        blk.back_refs.remove(p);
                        proof {
                            lemma_remove_distinct(before, p as int);
                        }
                    }
                },
                None => {
                    if wanted {
                        blk.back_refs.push(a);
                        proof {
                            lemma_push_distinct(before, a);
                        }
                    }
                },
            }
        },
        None => {},
    }
    assert forall|l: Label| #[trigger] old(f).is_live(l) == f.is_live(l) by {}
}

/// From `f` to `g` block `a` has got the successor list `targets`, and the
/// back-references have followed; the code of the blocks is untouched.
pub open spec fn rewired(f: Function, g: Function, a: Label, targets: Seq<Label>) -> bool {
    &&& same_code(f, g)
    &&& g.inv()
    &&& g.block(a).jumps@ == targets
    &&& forall|l: Label| #[trigger] f.is_live(l) && l != a ==> g.block(l).jumps == f.block(l).jumps
    &&& back_refs_followed(f, g, a, targets)
}

/// From `f` to `g` the back-references have followed block `a` to the
/// successors `targets` in the simplest way: a block that `a` newly jumps to
/// has `a` appended, and a block for which nothing changed is untouched.
pub open spec fn back_refs_followed(f: Function, g: Function, a: Label, targets: Seq<Label>) -> bool {
    forall|l: Label| #[trigger]
        f.is_live(l) ==> {
            &&& (targets.contains(l) && !f.block(l).back_refs@.contains(a)) ==> g.block(l).back_refs@ == f.block(l).back_refs@.push(a)
            &&& (targets.contains(l) <==> f.block(l).back_refs@.contains(a)) ==> g.block(l).back_refs == f.block(l).back_refs
        }
}

/// The state of a rewiring of block `a` under way: the successor list is in
/// place, and the back-references of the blocks in `done` have followed.
spec fn rewiring(o: Function, f: Function, a: Label, targets: Seq<Label>, done: Seq<Label>) -> bool {
    &&& same_code(o, f)
    &&& f.block(a).jumps@ == targets
    &&& forall|l: Label| #[trigger] o.is_live(l) && l != a ==> f.block(l).jumps == o.block(l).jumps
    &&& forall|l: Label| #[trigger] o.is_live(l) ==> f.block(l).back_refs@.no_duplicates()
    &&& forall|l: Label, x: Label|
        #![trigger f.block(l).back_refs@.contains(x)]
        o.is_live(l) && x != a ==> (f.block(l).back_refs@.contains(x) <==> o.block(l).back_refs@.contains(x))
    &&& forall|l: Label| #[trigger]
        o.is_live(l) ==> (f.block(l).back_refs@.contains(a) <==> if done.contains(l) {
            targets.contains(l)
        } else {
            o.block(l).back_refs@.contains(a)
        })
    &&& forall|l: Label| #[trigger]
        o.is_live(l) ==> if done.contains(l) {
            &&& (targets.contains(l) && !o.block(l).back_refs@.contains(a)) ==> f.block(l).back_refs@ == o.block(l).back_refs@.push(a)
            &&& (targets.contains(l) <==> o.block(l).back_refs@.contains(a)) ==> f.block(l).back_refs == o.block(l).back_refs
        } else {
            f.block(l).back_refs == o.block(l).back_refs
        }
}

proof fn lemma_rewiring_step(o: Function, f: Function, g: Function, a: Label, targets: Seq<Label>, done: Seq<Label>, b: Label)
    requires
        rewiring(o, f, a, targets, done),
        o.is_live(a),
        o.is_live(b),
        synced(f, g, a, b),
    ensures
        rewiring(o, g, a, targets, done.push(b)),
{
    let done2 = done.push(b);
    assert(f.is_live(a) && f.is_live(b));
    assert forall|l: Label| #[trigger] o.is_live(l) implies (g.block(l).back_refs@.contains(a) <==> if done2.contains(l) {
        targets.contains(l)
    } else {
        o.block(l).back_refs@.contains(a)
    }) by {
        assert(f.is_live(l));
        if l == b {
            assert(done2[done.len() as int] == b);
        } else {
            if done2.contains(l) {
                let k = choose|k: int| 0 <= k < done2.len() && done2[k] == l;
                assert(done[k] == l);
            }
            if done.contains(l) {
                let k = choose|k: int| 0 <= k < done.len() && done[k] == l;
                assert(done2[k] == l);
            }
        }
    }
    assert forall|l: Label, x: Label|
        #![trigger g.block(l).back_refs@.contains(x)]
        o.is_live(l) && x != a implies (g.block(l).back_refs@.contains(x) <==> o.block(l).back_refs@.contains(x)) by {
        assert(f.is_live(l));
        assert(f.block(l).back_refs@.contains(x) <==> o.block(l).back_refs@.contains(x));
    }
    assert forall|l: Label| #[trigger] o.is_live(l) implies g.block(l).back_refs@.no_duplicates() by {
        assert(f.is_live(l));
    }
    assert forall|l: Label| #[trigger] o.is_live(l) && l != a implies g.block(l).jumps == o.block(l).jumps by {
        assert(f.is_live(l));
    }
    assert forall|l: Label| #[trigger] o.is_live(l) implies if done2.contains(l) {
        &&& (targets.contains(l) && !o.block(l).back_refs@.contains(a)) ==> g.block(l).back_refs@ == o.block(l).back_refs@.push(a)
        &&& (targets.contains(l) <==> o.block(l).back_refs@.contains(a)) ==> g.block(l).back_refs == o.block(l).back_refs
    } else {
        g.block(l).back_refs == o.block(l).back_refs
    } by {
        assert(f.is_live(l));
        if l == b {
            assert(done2[done.len() as int] == b);
        } else {
            if done2.contains(l) {
                let k = choose|k: int| 0 <= k < done2.len() && done2[k] == l;
                assert(done[k] == l);
            }
            if done.contains(l) {
                let k = choose|k: int| 0 <= k < done.len() && done[k] == l;
                assert(done2[k] == l);
            }
        }
    }
    assert(same_code(o, g)) by {
        assert forall|l: Label| #[trigger] o.is_live(l) implies o.block(l).label == g.block(l).label
            && o.block(l).phi_nodes == g.block(l).phi_nodes && o.block(l).ops == g.block(l).ops by {
            assert(f.is_live(l));
        }
        assert forall|l: Label| #[trigger] o.is_live(l) == g.is_live(l) by {
            assert(o.is_live(l) == f.is_live(l));
        }
    }
}

proof fn lemma_rewiring_done(o: Function, f: Function, a: Label, targets: Seq<Label>, done: Seq<Label>)
    requires
        rewiring(o, f, a, targets, done),
        o.inv(),
        o.is_live(a),
        forall|k: int| 0 <= k < targets.len() ==> o.is_live(#[trigger] targets[k]),
        forall|l: Label| o.block(a).jumps@.contains(l) ==> done.contains(l),
        forall|l: Label| targets.contains(l) ==> done.contains(l),
    ensures
        rewired(o, f, a, targets),
{
    assert forall|l: Label| #[trigger] f.is_live(l) implies f.block(l).label == l by {
        assert(o.is_live(l));
    }
    assert forall|l: Label| #[trigger] f.is_live(l) implies f.jumps_live_at(l) by {
        assert(o.is_live(l));
        assert(o.jumps_live_at(l));
        assert forall|k: int| 0 <= k < f.block(l).jumps@.len() implies f.is_live(#[trigger] f.block(l).jumps@[k]) by {
            if l == a {
                assert(o.is_live(targets[k]));
            } else {
                assert(o.is_live(o.block(l).jumps@[k]));
            }
        }
    }
    assert forall|b: Label| #[trigger] f.is_live(b) implies f.back_refs_exact_at(b) by {
        assert(o.is_live(b));
        assert(o.back_refs_exact_at(b));
        assert forall|x: Label| f.block(b).back_refs@.contains(x) <==> f.edge(x, b) by {
            assert(o.block(b).back_refs@.contains(x) <==> o.edge(x, b));
            assert(o.is_live(x) == f.is_live(x));
            if x != a {
                assert(f.block(b).back_refs@.contains(x) <==> o.block(b).back_refs@.contains(x));
                if o.is_live(x) {
                    assert(f.block(x).jumps == o.block(x).jumps);
                }
            }
        }
    }
    assert forall|l: Label| #[trigger] o.is_live(l) implies {
        &&& (targets.contains(l) && !o.block(l).back_refs@.contains(a)) ==> f.block(l).back_refs@ == o.block(l).back_refs@.push(a)
        &&& (targets.contains(l) <==> o.block(l).back_refs@.contains(a)) ==> f.block(l).back_refs == o.block(l).back_refs
    } by {
        assert(o.back_refs_exact_at(l));
        assert(o.block(l).back_refs@.contains(a) <==> o.edge(a, l));
    }
}

/// Puts `targets` in place of the successor list of `a`, touching nothing
/// else.
fn store_jumps(f: &mut Function, a: Label, targets: Vec<Label>)
    requires
        old(f).is_live(a),
    ensures
        same_code(*old(f), *final(f)),
        final(f).block(a).jumps == targets,
        forall|l: Label| #[trigger] old(f).is_live(l) ==> final(f).block(l).back_refs == old(f).block(l).back_refs,
        forall|l: Label| #[trigger] old(f).is_live(l) && l != a ==> final(f).block(l).jumps == old(f).block(l).jumps,
{
    let i = a.0 as usize;
    match &mut f.blocks[i] {
        Some(blk) => {
            blk.jumps = targets;
        },
        None => {},
    }
    assert forall|l: Label| #[trigger] old(f).is_live(l) == f.is_live(l) by {}
}

/// Gives block `a` the successor list `targets` and brings the
/// back-references of its old and new successors in step.
pub fn set_jumps(f: &mut Function, a: Label, targets: Vec<Label>)
    requires
        old(f).inv(),
        old(f).is_live(a),
        forall|k: int| 0 <= k < targets@.len() ==> old(f).is_live(#[trigger] targets@[k]),
    ensures
        rewired(*old(f), *final(f), a, targets@),
{
    let ghost o = *f;
    let ghost tg = targets@;
    let old_jumps = copy_labels(&f.get(a).jumps);
    let new_jumps = copy_labels(&targets);
    store_jumps(f, a, targets);
    let ghost done = Seq::<Label>::empty();
    proof {
        assert forall|l: Label| #[trigger] o.is_live(l) implies f.block(l).back_refs@.no_duplicates() by {
            assert(o.back_refs_exact_at(l));
        }
        assert(rewiring(o, *f, a, tg, done));
    }
    let mut i: usize = 0;
    while i < old_jumps.len()
        invariant
            i <= old_jumps@.len(),
            old_jumps@ == o.block(a).jumps@,
            o.inv(),
            o.is_live(a),
            rewiring(o, *f, a, tg, done),
            done == old_jumps@.take(i as int),
        decreases old_jumps@.len() - i,
    {
        let b = old_jumps[i];
        let ghost pre = *f;
        proof {
            assert(o.jumps_live_at(a));
            assert(o.is_live(o.block(a).jumps@[i as int]));
            assert(f.is_live(a) && f.is_live(b));
        }
        sync_back_ref(f, a, b);
        proof {
            lemma_rewiring_step(o, pre, *f, a, tg, done, b);
            done = done.push(b);
            assert(old_jumps@.take(i + 1) == old_jumps@.take(i as int).push(b));
        }
        i += 1;
    }
    assert(old_jumps@.take(i as int) == old_jumps@);
    let mut j: usize = 0;
    while j < new_jumps.len()
        invariant
            j <= new_jumps@.len(),
            new_jumps@ == tg,
            old_jumps@ == o.block(a).jumps@,
            o.inv(),
            o.is_live(a),
            forall|k: int| 0 <= k < tg.len() ==> o.is_live(#[trigger] tg[k]),
            rewiring(o, *f, a, tg, done),
            done == old_jumps@ + new_jumps@.take(j as int),
        decreases new_jumps@.len() - j,
    {
        let b = new_jumps[j];
        let ghost pre = *f;
        proof {
            assert(o.is_live(tg[j as int]));
            assert(f.is_live(a) && f.is_live(b));
        }
        sync_back_ref(f, a, b);
        proof {
            lemma_rewiring_step(o, pre, *f, a, tg, done, b);
            done = done.push(b);
            assert(new_jumps@.take(j + 1) == new_jumps@.take(j as int).push(b));
            assert(done == old_jumps@ + new_jumps@.take(j + 1));
        }
        j += 1;
    }
    proof {
        assert(new_jumps@.take(j as int) == new_jumps@);
        assert forall|l: Label| o.block(a).jumps@.contains(l) implies done.contains(l) by {
            let k = choose|k: int| 0 <= k < old_jumps@.len() && old_jumps@[k] == l;
            assert(done[k] == l);
        }
        assert forall|l: Label| tg.contains(l) implies done.contains(l) by {
            let k = choose|k: int| 0 <= k < tg.len() && tg[k] == l;
            assert(done[old_jumps@.len() + k] == l);
        }
        lemma_rewiring_done(o, *f, a, tg, done);
    }
}

/// From `f` to `g` nothing but block `l` has changed, and that block is
/// live in both.
pub open spec fn only_block_changed(f: Function, g: Function, l: Label) -> bool {
    &&& f.blocks@.len() == g.blocks@.len()
    &&& f.entry == g.entry
    &&& f.next_value == g.next_value
    &&& f.is_live(l)
    &&& g.is_live(l)
    &&& g.block(l).label == f.block(l).label
    &&& forall|i: int| 0 <= i < f.blocks@.len() && i != l.0 ==> #[trigger] g.blocks@[i] == f.blocks@[i]
}

/// A change to the phi nodes and operations of one block keeps the
/// invariant.
pub proof fn lemma_code_change_keeps_inv(f: Function, g: Function, l: Label)
    requires
        f.inv(),
        only_block_changed(f, g, l),
        g.block(l).jumps == f.block(l).jumps,
        g.block(l).back_refs == f.block(l).back_refs,
    ensures
        g.inv(),
        same_edges(f, g),
{
    assert forall|x: Label| #[trigger] f.is_live(x) == g.is_live(x) by {}
    assert forall|x: Label| #[trigger] g.is_live(x) implies g.block(x).label == x && g.block(x).jumps == f.block(x).jumps
        && g.block(x).back_refs == f.block(x).back_refs by {
        assert(f.is_live(x));
    }
    assert forall|x: Label| #[trigger] g.is_live(x) implies g.jumps_live_at(x) by {
        assert(f.is_live(x));
        assert(f.jumps_live_at(x));
        assert forall|k: int| 0 <= k < g.block(x).jumps@.len() implies g.is_live(#[trigger] g.block(x).jumps@[k]) by {
            assert(f.is_live(f.block(x).jumps@[k]));
        }
    }
    assert forall|b: Label| #[trigger] g.is_live(b) implies g.back_refs_exact_at(b) by {
        assert(f.is_live(b));
        assert(f.back_refs_exact_at(b));
        assert forall|a: Label| g.block(b).back_refs@.contains(a) <==> g.edge(a, b) by {
            assert(f.block(b).back_refs@.contains(a) <==> f.edge(a, b));
            assert(f.is_live(a) == g.is_live(a));
        }
    }
}

/// The two functions have the same live blocks, with the same successor
/// lists and back-references.
pub open spec fn same_edges(f: Function, g: Function) -> bool {
    &&& f.blocks@.len() == g.blocks@.len()
    &&& forall|l: Label| #[trigger] f.is_live(l) == g.is_live(l)
    &&& forall|l: Label| #[trigger]
        f.is_live(l) ==> g.block(l).jumps == f.block(l).jumps && g.block(l).back_refs == f.block(l).back_refs
}

/// The block under a live label, for writing.
fn block_mut(f: &mut Function, l: Label) -> (b: &mut BasicBlock)
    requires
        old(f).is_live(l),
    ensures
        *b == old(f).block(l),
        final(f).blocks@ == old(f).blocks@.update(l.0 as int, Some(*final(b))),
        final(f).entry == old(f).entry,
        final(f).next_value == old(f).next_value,
{
    let i = l.0 as usize;
    match &mut f.blocks[i] {
        Some(blk) => blk,
        None => vstd::pervasive::unreached(),
    }
}

/// The builder of one function: it owns the graph while passes rewrite it.
pub struct FunctionBuilder {
    fun: Function,
}

impl View for FunctionBuilder {
    type V = Function;

    closed spec fn view(&self) -> Function {
        self.fun
    }
}

impl FunctionBuilder {
    /// Opens a builder over a graph.
    pub fn new(fun: Function) -> (b: FunctionBuilder)
        requires
            fun.inv(),
        ensures
            b@ == fun,
    {
        FunctionBuilder { fun }
    }

    /// The graph as it stands.
    pub fn fun(&self) -> (f: &Function)
        ensures
            *f == self@,
    {
        &self.fun
    }

    /// Closes the builder and hands the graph back.
    pub fn finish(self) -> (f: Function)
        ensures
            f == self@,
    {
        self.fun
    }

    /// Adds an empty block under the next label.
    pub fn create_block(&mut self) -> (l: Label)
        requires
            old(self)@.inv(),
            old(self)@.blocks@.len() < u32::MAX,
        ensures
            final(self)@.inv(),
            l.0 == old(self)@.blocks@.len(),
            final(self)@.blocks@.len() == old(self)@.blocks@.len() + 1,
            final(self)@.blocks@.take(l.0 as int) == old(self)@.blocks@,
            final(self)@.entry == old(self)@.entry,
            final(self)@.next_value == old(self)@.next_value,
            final(self)@.is_live(l),
            final(self)@.block(l).label == l,
            final(self)@.block(l).back_refs@.len() == 0,
            final(self)@.block(l).phi_nodes@.len() == 0,
            final(self)@.block(l).ops@.len() == 0,
            final(self)@.block(l).jumps@.len() == 0,
    {
        let ghost o = self.fun;
        let l = Label(self.fun.blocks.len() as u32);
        let b = BasicBlock {
            label: l,
            back_refs: Vec::new(),
            phi_nodes: Vec::new(),
            ops: Vec::new(),
            jumps: Vec::new(),
        };
        self.fun.blocks.push(Some(b));
        proof {
            let g = self.fun;
            assert(g.blocks@.take(l.0 as int) == o.blocks@);
            assert forall|x: Label| #[trigger] g.is_live(x) implies g.block(x).label == x && g.jumps_live_at(x)
                && g.back_refs_exact_at(x) by {
                if x != l {
                    assert(o.is_live(x));
                    assert(g.block(x) == o.block(x));
                    assert(o.jumps_live_at(x));
                    assert forall|k: int| 0 <= k < g.block(x).jumps@.len() implies g.is_live(#[trigger] g.block(x).jumps@[k]) by {
                        assert(o.is_live(o.block(x).jumps@[k]));
                    }
                    assert(o.back_refs_exact_at(x));
                    assert forall|a: Label| g.block(x).back_refs@.contains(a) <==> g.edge(a, x) by {
                        assert(o.block(x).back_refs@.contains(a) <==> o.edge(a, x));
                        if a != l && g.is_live(a) {
                            assert(o.is_live(a));
                        }
                    }
                } else {
                    assert forall|a: Label| !g.edge(a, l) by {
                        if a != l && g.is_live(a) {
                            assert(o.is_live(a));
                            assert(o.jumps_live_at(a));
                            if o.block(a).jumps@.contains(l) {
                                let k = choose|k: int| 0 <= k < o.block(a).jumps@.len() && o.block(a).jumps@[k] == l;
                                assert(o.is_live(o.block(a).jumps@[k]));
                            }
                        }
                    }
                }
            }
            assert(g.is_live(g.entry)) by {
                assert(o.is_live(o.entry));
            }
        }
        l
    }

    /// Takes the next fresh value.
    pub fn fresh_value(&mut self) -> (v: Value)
        requires
            old(self)@.next_value < u32::MAX,
        ensures
            v.0 == old(self)@.next_value,
            final(self)@.next_value == old(self)@.next_value + 1,
            final(self)@.blocks == old(self)@.blocks,
            final(self)@.entry == old(self)@.entry,
            old(self)@.inv() ==> final(self)@.inv(),
    {
        let ghost o = self.fun;
        let v = Value(self.fun.next_value);
        self.fun.next_value = self.fun.next_value + 1;
        proof {
            if o.inv() {
                let g = self.fun;
                assert(o.is_live(o.entry));
                assert forall|l: Label| #[trigger] g.is_live(l) implies g.block(l).label == l && g.jumps_live_at(l)
                    && g.back_refs_exact_at(l) by {
                    assert(o.is_live(l));
                    assert(g.block(l) == o.block(l));
                    assert(o.jumps_live_at(l));
                    assert forall|k: int| 0 <= k < g.block(l).jumps@.len() implies g.is_live(#[trigger] g.block(l).jumps@[k]) by {
                        assert(o.is_live(o.block(l).jumps@[k]));
                    }
                    assert(o.back_refs_exact_at(l));
                    assert forall|a: Label| g.block(l).back_refs@.contains(a) <==> g.edge(a, l) by {
                        assert(o.block(l).back_refs@.contains(a) <==> o.edge(a, l));
                        assert(o.is_live(a) == g.is_live(a));
                    }
                }
            }
        }
        v
    }
}

/// From `f` to `g` the blocks other than `a` have kept their code and their
/// successor lists; their back-references may have followed the successor
/// list of `a`.
pub open spec fn edited(f: Function, g: Function, a: Label) -> bool {
    &&& f.blocks@.len() == g.blocks@.len()
    &&& f.entry == g.entry
    &&& f.next_value == g.next_value
    &&& forall|l: Label| #[trigger] f.is_live(l) == g.is_live(l)
    &&& forall|l: Label| #[trigger] f.is_live(l) ==> g.block(l).label == f.block(l).label
    &&& forall|l: Label| #[trigger]
        f.is_live(l) && l != a ==> {
            &&& g.block(l).phi_nodes == f.block(l).phi_nodes
            &&& g.block(l).ops == f.block(l).ops
            &&& g.block(l).jumps == f.block(l).jumps
        }
}

/// `s` with every `from` replaced by `to`.
pub open spec fn retargeted(s: Seq<Label>, from: Label, to: Label) -> Seq<Label> {
    s.map_values(|l: Label| if l == from { to } else { l })
}

impl FunctionBuilder {
    /// Appends an operation to a block. An operation that ends the block
    /// brings the block's successor list with it; any other leaves the
    /// successor list as it is.
    pub fn append_op(&mut self, block: Label, op: Op, targets: Vec<Label>)
        requires
            old(self)@.inv(),
            old(self)@.is_live(block),
            forall|k: int| 0 <= k < targets@.len() ==> old(self)@.is_live(#[trigger] targets@[k]),
            op.kind.jump_count() == Some(targets@.len()) || (op.kind.jump_count() is None && targets@.len() == 0),
        ensures
            final(self)@.inv(),
            edited(old(self)@, final(self)@, block),
            final(self)@.block(block).phi_nodes == old(self)@.block(block).phi_nodes,
            final(self)@.block(block).ops@ == old(self)@.block(block).ops@.push(op),
            final(self)@.block(block).jumps@ == if op.kind.is_terminator() {
                targets@
            } else {
                old(self)@.block(block).jumps@
            },
            op.kind.is_terminator() ==> back_refs_followed(old(self)@, final(self)@, block, targets@),
            !op.kind.is_terminator() ==> same_edges(old(self)@, final(self)@),
    {
        let ghost o = self.fun;
        let ends = op.kind.num_jumps().is_some();
        let b = block_mut(&mut self.fun, block);
        b.ops.push(op);
        proof {
            lemma_code_change_keeps_inv(o, self.fun, block);
        }
        if ends {
            let ghost m = self.fun;
            proof {
                assert forall|k: int| 0 <= k < targets@.len() implies m.is_live(#[trigger] targets@[k]) by {
                    assert(o.is_live(targets@[k]));
                }
            }
            set_jumps(&mut self.fun, block, targets);
            proof {
                let g = self.fun;
                assert forall|l: Label| #[trigger] o.is_live(l) == g.is_live(l) by {
                    assert(o.is_live(l) == m.is_live(l));
                }
                assert forall|l: Label| #[trigger] o.is_live(l) implies g.block(l).label == o.block(l).label by {
                    assert(m.is_live(l));
                }
                assert forall|l: Label| #[trigger] o.is_live(l) && l != block implies g.block(l).phi_nodes == o.block(
                    l,
                ).phi_nodes && g.block(l).ops == o.block(l).ops && g.block(l).jumps == o.block(l).jumps by {
                    assert(m.is_live(l));
                }
                assert(m.is_live(block));
                assert forall|l: Label| #[trigger] o.is_live(l) implies {
                    &&& (targets@.contains(l) && !o.block(l).back_refs@.contains(block)) ==> g.block(l).back_refs@ == o.block(
                        l,
                    ).back_refs@.push(block)
                    &&& (targets@.contains(l) <==> o.block(l).back_refs@.contains(block)) ==> g.block(l).back_refs == o.block(
                        l,
                    ).back_refs
                } by {
                    assert(m.is_live(l));
                }
            }
        }
    }

    /// Takes the last operation off a block. With an operation that ended
    /// the block the successor list goes too.
    pub fn pop_op(&mut self, block: Label) -> (r: Option<Op>)
        requires
            old(self)@.inv(),
            old(self)@.is_live(block),
        ensures
            final(self)@.inv(),
            edited(old(self)@, final(self)@, block),
            final(self)@.block(block).phi_nodes == old(self)@.block(block).phi_nodes,
            match r {
                Some(op) => {
                    &&& old(self)@.block(block).ops@.len() > 0
                    &&& op == old(self)@.block(block).ops@.last()
                    &&& final(self)@.block(block).ops@ == old(self)@.block(block).ops@.drop_last()
                    &&& final(self)@.block(block).jumps@ == if op.kind.is_terminator() {
                        Seq::<Label>::empty()
                    } else {
                        old(self)@.block(block).jumps@
                    }
                },
                None => {
                    &&& old(self)@.block(block).ops@.len() == 0
                    &&& final(self)@ == old(self)@
                },
            },
    {
        let ghost o = self.fun;
        if self.fun.get(block).ops.len() == 0 {
            return None;
        }
        let b = block_mut(&mut self.fun, block);
        let r = b.ops.pop();
        proof {
            lemma_code_change_keeps_inv(o, self.fun, block);
        }
        let op = r.unwrap();
        if op.kind.num_jumps().is_some() {
            let ghost m = self.fun;
            set_jumps(&mut self.fun, block, Vec::new());
            proof {
                let g = self.fun;
                assert forall|l: Label| #[trigger] o.is_live(l) == g.is_live(l) by {
                    assert(o.is_live(l) == m.is_live(l));
                }
                assert forall|l: Label| #[trigger] o.is_live(l) implies g.block(l).label == o.block(l).label by {
                    assert(m.is_live(l));
                }
                assert forall|l: Label| #[trigger] o.is_live(l) && l != block implies g.block(l).phi_nodes == o.block(
                    l,
                ).phi_nodes && g.block(l).ops == o.block(l).ops && g.block(l).jumps == o.block(l).jumps by {
                    assert(m.is_live(l));
                }
                assert(m.is_live(block));
            }
        }
        Some(op)
    }

    /// Replaces every `from` in the successor list of a block by `to`.
    pub fn retarget(&mut self, block: Label, from: Label, to: Label)
        requires
            old(self)@.inv(),
            old(self)@.is_live(block),
            old(self)@.is_live(to),
        ensures
            final(self)@.inv(),
            same_code(old(self)@, final(self)@),
            final(self)@.block(block).jumps@ == retargeted(old(self)@.block(block).jumps@, from, to),
            forall|l: Label| #[trigger] old(self)@.is_live(l) && l != block ==> final(self)@.block(l).jumps == old(self)@.block(l).jumps,
    {
        let ghost o = self.fun;
        let mut targets: Vec<Label> = Vec::new();
        let mut i: usize = 0;
        let n = self.fun.get(block).jumps.len();
        while i < n
            invariant
                i <= n,
                self.fun == o,
                o.inv(),
                o.is_live(block),
                o.is_live(to),
                n == o.block(block).jumps@.len(),
                targets@ == retargeted(o.block(block).jumps@.take(i as int), from, to),
            decreases n - i,
        {
            let l = self.fun.get(block).jumps[i];
            targets.push(if l == from { to } else { l });
            assert(retargeted(o.block(block).jumps@.take(i + 1), from, to) == retargeted(
                o.block(block).jumps@.take(i as int),
                from,
                to,
            ).push(if l == from { to } else { l }));
            i += 1;
        }
        proof {
            assert(o.block(block).jumps@.take(i as int) == o.block(block).jumps@);
            assert forall|k: int| 0 <= k < targets@.len() implies o.is_live(#[trigger] targets@[k]) by {
                assert(o.jumps_live_at(block));
                assert(o.is_live(o.block(block).jumps@[k]));
            }
        }
        set_jumps(&mut self.fun, block, targets);
    }
}

/// The entries that are not for predecessor `pred`, in order.
pub open spec fn entries_without(entries: Seq<(Label, Source)>, pred: Label) -> Seq<(Label, Source)>
    decreases entries.len(),
{
    if entries.len() == 0 {
        Seq::empty()
    } else if entries.last().0 == pred {
        entries_without(entries.drop_last(), pred)
    } else {
        entries_without(entries.drop_last(), pred).push(entries.last())
    }
}

/// The operand `s` after every use of `from` has become `to`.
pub open spec fn subst_source(s: Source, from: Value, to: Source) -> Source {
    if s == Source::Variable(from) {
        to
    } else {
        s
    }
}

/// Phi node `q` is `p` with the entries for `pred` taken out.
pub open spec fn phi_stripped(p: Phi, q: Phi, pred: Label) -> bool {
    q.ssa == p.ssa && q.entries@ == entries_without(p.entries@, pred)
}

/// Phi node `q` is `p` with every use of `from` replaced by `to`.
pub open spec fn phi_substituted(p: Phi, q: Phi, from: Value, to: Source) -> bool {
    q.ssa == p.ssa && q.entries@ == p.entries@.map_values(|e: (Label, Source)| (e.0, subst_source(e.1, from, to)))
}

/// Operation `q` is `p` with every use of `from` replaced by `to`.
pub open spec fn op_substituted(p: Op, q: Op, from: Value, to: Source) -> bool {
    q.kind == p.kind && q.writes == p.writes && q.reads@ == p.reads@.map_values(|s: Source| subst_source(s, from, to))
}

/// Block `c` is `b` with every use of `from` replaced by `to`.
pub open spec fn block_substituted(b: BasicBlock, c: BasicBlock, from: Value, to: Source) -> bool {
    &&& c.label == b.label
    &&& c.jumps == b.jumps
    &&& c.back_refs == b.back_refs
    &&& c.phi_nodes@.len() == b.phi_nodes@.len()
    &&& forall|k: int| 0 <= k < b.phi_nodes@.len() ==> phi_substituted(b.phi_nodes@[k], #[trigger] c.phi_nodes@[k], from, to)
    &&& c.ops@.len() == b.ops@.len()
    &&& forall|k: int| 0 <= k < b.ops@.len() ==> op_substituted(b.ops@[k], #[trigger] c.ops@[k], from, to)
}

/// Takes the entries for `pred` out of one phi node.
fn strip_phi(phi: &mut Phi, pred: Label)
    ensures
        phi_stripped(*old(phi), *final(phi), pred),
{
    let ghost o = *phi;
    let mut kept: Vec<(Label, Source)> = Vec::new();
    let mut i: usize = 0;
    while i < phi.entries.len()
        invariant
            *phi == o,
            i <= o.entries@.len(),
            kept@ == entries_without(o.entries@.take(i as int), pred),
        decreases o.entries@.len() - i,
    {
        let e = phi.entries[i];
        proof {
            assert(o.entries@.take(i + 1).drop_last() == o.entries@.take(i as int));
            assert(o.entries@.take(i + 1).last() == e);
        }
        if e.0 != pred {
            kept.push(e);
        }
        i += 1;
    }
    assert(o.entries@.take(i as int) == o.entries@);
    phi.entries = kept;
}

/// Replaces the uses of `from` in a list of operands.
fn subst_reads(reads: &mut Vec<Source>, from: Value, to: Source)
    ensures
        final(reads)@ == old(reads)@.map_values(|s: Source| subst_source(s, from, to)),
{
    let ghost o = reads@;
    let ghost m = o.map_values(|s: Source| subst_source(s, from, to));
    let mut i: usize = 0;
    while i < reads.len()
        invariant
            i <= o.len(),
            reads@.len() == o.len(),
            m == o.map_values(|s: Source| subst_source(s, from, to)),
            forall|k: int| 0 <= k < i ==> reads@[k] == m[k],
            forall|k: int| i <= k < o.len() ==> reads@[k] == o[k],
        decreases o.len() - i,
    {
        if reads[i] == Source::Variable(from) {
            reads[i] = to;
        }
        i += 1;
    }
    assert(reads@ =~= m);
}

/// Replaces the uses of `from` in the entries of a phi node.
fn subst_phi(phi: &mut Phi, from: Value, to: Source)
    ensures
        phi_substituted(*old(phi), *final(phi), from, to),
{
    let ghost o = phi.entries@;
    let ghost m = o.map_values(|e: (Label, Source)| (e.0, subst_source(e.1, from, to)));
    let mut i: usize = 0;
    while i < phi.entries.len()
        invariant
            i <= o.len(),
            phi.ssa == old(phi).ssa,
            phi.entries@.len() == o.len(),
            m == o.map_values(|e: (Label, Source)| (e.0, subst_source(e.1, from, to))),
            forall|k: int| 0 <= k < i ==> phi.entries@[k] == m[k],
            forall|k: int| i <= k < o.len() ==> phi.entries@[k] == o[k],
        decreases o.len() - i,
    {
        let e = phi.entries[i];
        if e.1 == Source::Variable(from) {
            phi.entries[i] = (e.0, to);
        }
        i += 1;
    }
    assert(phi.entries@ =~= m);
}

/// Replaces the uses of `from` in one block.
fn subst_block(b: &mut BasicBlock, from: Value, to: Source)
    ensures
        block_substituted(*old(b), *final(b), from, to),
{
    let ghost o = *b;
    let mut i: usize = 0;
    while i < b.phi_nodes.len()
        invariant
            i <= o.phi_nodes@.len(),
            b.label == o.label,
            b.jumps == o.jumps,
            b.back_refs == o.back_refs,
            b.ops == o.ops,
            b.phi_nodes@.len() == o.phi_nodes@.len(),
            forall|k: int| 0 <= k < i ==> phi_substituted(o.phi_nodes@[k], #[trigger] b.phi_nodes@[k], from, to),
            forall|k: int| i <= k < o.phi_nodes@.len() ==> b.phi_nodes@[k] == o.phi_nodes@[k],
        decreases o.phi_nodes@.len() - i,
    {
        subst_phi(&mut b.phi_nodes[i], from, to);
        i += 1;
    }
    let mut j: usize = 0;
    while j < b.ops.len()
        invariant
            j <= o.ops@.len(),
            b.label == o.label,
            b.jumps == o.jumps,
            b.back_refs == o.back_refs,
            b.phi_nodes@.len() == o.phi_nodes@.len(),
            forall|k: int| 0 <= k < o.phi_nodes@.len() ==> phi_substituted(o.phi_nodes@[k], #[trigger] b.phi_nodes@[k], from, to),
            b.ops@.len() == o.ops@.len(),
            forall|k: int| 0 <= k < j ==> op_substituted(o.ops@[k], #[trigger] b.ops@[k], from, to),
            forall|k: int| j <= k < o.ops@.len() ==> b.ops@[k] == o.ops@[k],
        decreases o.ops@.len() - j,
    {
        subst_reads(&mut b.ops[j].reads, from, to);
        j += 1;
    }
}

/// Without an entry for `pred`, taking the entries for `pred` out changes
/// nothing.
pub proof fn lemma_entries_without_absent(entries: Seq<(Label, Source)>, pred: Label)
    requires
        forall|k: int| 0 <= k < entries.len() ==> entries[k].0 != pred,
    ensures
        entries_without(entries, pred) == entries,
    decreases entries.len(),
{
    if entries.len() > 0 {
        lemma_entries_without_absent(entries.drop_last(), pred);
        assert(entries.drop_last().push(entries.last()) == entries);
    }
}

/// Block `c` is `b` with the entries for `pred` taken out of every phi node.
pub open spec fn block_stripped(b: BasicBlock, c: BasicBlock, pred: Label) -> bool {
    &&& c.label == b.label
    &&& c.jumps == b.jumps
    &&& c.back_refs == b.back_refs
    &&& c.ops == b.ops
    &&& c.phi_nodes@.len() == b.phi_nodes@.len()
    &&& forall|k: int| 0 <= k < b.phi_nodes@.len() ==> phi_stripped(b.phi_nodes@[k], #[trigger] c.phi_nodes@[k], pred)
}

fn strip_block(b: &mut BasicBlock, pred: Label)
    ensures
        block_stripped(*old(b), *final(b), pred),
{
    let ghost o = *b;
    let mut i: usize = 0;
    while i < b.phi_nodes.len()
        invariant
            i <= o.phi_nodes@.len(),
            b.label == o.label,
            b.jumps == o.jumps,
            b.back_refs == o.back_refs,
            b.ops == o.ops,
            b.phi_nodes@.len() == o.phi_nodes@.len(),
            forall|k: int| 0 <= k < i ==> phi_stripped(o.phi_nodes@[k], #[trigger] b.phi_nodes@[k], pred),
            forall|k: int| i <= k < o.phi_nodes@.len() ==> b.phi_nodes@[k] == o.phi_nodes@[k],
        decreases o.phi_nodes@.len() - i,
    {
        strip_phi(&mut b.phi_nodes[i], pred);
        i += 1;
    }
}

impl FunctionBuilder {
    /// Adds a phi node without entries to a block, and returns its position.
    pub fn add_phi(&mut self, block: Label, ssa: Value) -> (k: usize)
        requires
            old(self)@.inv(),
            old(self)@.is_live(block),
        ensures
            final(self)@.inv(),
            only_block_changed(old(self)@, final(self)@, block),
            same_edges(old(self)@, final(self)@),
            final(self)@.block(block).ops == old(self)@.block(block).ops,
            k == old(self)@.block(block).phi_nodes@.len(),
            final(self)@.block(block).phi_nodes@.len() == k + 1,
            final(self)@.block(block).phi_nodes@.take(k as int) == old(self)@.block(block).phi_nodes@,
            final(self)@.block(block).phi_nodes@[k as int].ssa == ssa,
            final(self)@.block(block).phi_nodes@[k as int].entries@.len() == 0,
    {
        let ghost o = self.fun;
        let b = block_mut(&mut self.fun, block);
        let k = b.phi_nodes.len();
        b.phi_nodes.push(Phi { entries: Vec::new(), ssa });
        proof {
            lemma_code_change_keeps_inv(o, self.fun, block);
            assert(self.fun.block(block).phi_nodes@.take(k as int) == o.block(block).phi_nodes@);
        }
        k
    }

    /// Adds an entry to the phi node at position `k` of a block.
    pub fn add_phi_entry(&mut self, block: Label, k: usize, pred: Label, src: Source)
        requires
            old(self)@.inv(),
            old(self)@.is_live(block),
            k < old(self)@.block(block).phi_nodes@.len(),
        ensures
            final(self)@.inv(),
            only_block_changed(old(self)@, final(self)@, block),
            same_edges(old(self)@, final(self)@),
            final(self)@.block(block).ops == old(self)@.block(block).ops,
            final(self)@.block(block).phi_nodes@.len() == old(self)@.block(block).phi_nodes@.len(),
            forall|j: int| 0 <= j < old(self)@.block(block).phi_nodes@.len() && j != k ==> #[trigger] final(self)@.block(block).phi_nodes@[j] == old(self)@.block(block).phi_nodes@[j],
            final(self)@.block(block).phi_nodes@[k as int].ssa == old(self)@.block(block).phi_nodes@[k as int].ssa,
            final(self)@.block(block).phi_nodes@[k as int].entries@ == old(self)@.block(block).phi_nodes@[k as int].entries@.push((pred, src)),
    {
        let ghost o = self.fun;
        let b = block_mut(&mut self.fun, block);
        b.phi_nodes[k].entries.push((pred, src));
        proof {
            lemma_code_change_keeps_inv(o, self.fun, block);
        }
    }

    /// Takes the entries for predecessor `pred` out of every phi node of a
    /// block.
    pub fn remove_phi_entries(&mut self, block: Label, pred: Label)
        requires
            old(self)@.inv(),
            old(self)@.is_live(block),
        ensures
            final(self)@.inv(),
            only_block_changed(old(self)@, final(self)@, block),
            same_edges(old(self)@, final(self)@),
            block_stripped(old(self)@.block(block), final(self)@.block(block), pred),
    {
        let ghost o = self.fun;
        let b = block_mut(&mut self.fun, block);
        strip_block(b, pred);
        proof {
            lemma_code_change_keeps_inv(o, self.fun, block);
        }
    }

    /// Takes the phi node at position `k` out of a block.
    pub fn remove_phi(&mut self, block: Label, k: usize) -> (phi: Phi)
        requires
            old(self)@.inv(),
            old(self)@.is_live(block),
            k < old(self)@.block(block).phi_nodes@.len(),
        ensures
            final(self)@.inv(),
            only_block_changed(old(self)@, final(self)@, block),
            same_edges(old(self)@, final(self)@),
            final(self)@.block(block).ops == old(self)@.block(block).ops,
            phi == old(self)@.block(block).phi_nodes@[k as int],
            final(self)@.block(block).phi_nodes@ == old(self)@.block(block).phi_nodes@.remove(k as int),
    {
        let ghost o = self.fun;
        let b = block_mut(&mut self.fun, block);
        let phi = b.phi_nodes.remove(k);
        proof {
            lemma_code_change_keeps_inv(o, self.fun, block);
        }
        phi
    }

    /// Replaces every use of `from`, in operands and in phi entries, by `to`.
    pub fn replace_uses(&mut self, from: Value, to: Source)
        requires
            old(self)@.inv(),
        ensures
            final(self)@.inv(),
            same_edges(old(self)@, final(self)@),
            final(self)@.entry == old(self)@.entry,
            final(self)@.next_value == old(self)@.next_value,
            forall|l: Label| #[trigger] old(self)@.is_live(l) ==> block_substituted(old(self)@.block(l), final(self)@.block(l), from, to),
    {
        let ghost o = self.fun;
        let mut i: usize = 0;
        while i < self.fun.blocks.len()
            invariant
                o.inv(),
                self.fun.inv(),
                same_edges(o, self.fun),
                self.fun.entry == o.entry,
                self.fun.next_value == o.next_value,
                i <= o.blocks@.len(),
                forall|l: Label| #[trigger] o.is_live(l) && l.0 < i ==> block_substituted(o.block(l), self.fun.block(l), from, to),
                forall|k: int| i <= k < o.blocks@.len() ==> self.fun.blocks@[k] == o.blocks@[k],
            decreases o.blocks@.len() - i,
        {
            if self.fun.blocks[i].is_some() {
                let l = Label(i as u32);
                let ghost m = self.fun;
                assert(m.is_live(l));
                let b = block_mut(&mut self.fun, l);
                subst_block(b, from, to);
                proof {
                    let g = self.fun;
                    assert(only_block_changed(m, g, l));
                    lemma_code_change_keeps_inv(m, g, l);
                    assert forall|x: Label| #[trigger] o.is_live(x) == g.is_live(x) by {
                        assert(o.is_live(x) == m.is_live(x));
                    }
                    assert forall|x: Label| #[trigger] o.is_live(x) implies g.block(x).jumps == o.block(x).jumps
                        && g.block(x).back_refs == o.block(x).back_refs by {
                        assert(m.is_live(x));
                    }
                    assert forall|x: Label| #[trigger] o.is_live(x) && x.0 < i + 1 implies block_substituted(
                        o.block(x),
                        g.block(x),
                        from,
                        to,
                    ) by {
                        if x.0 < i {
                            assert(g.blocks@[x.0 as int] == m.blocks@[x.0 as int]);
                        }
                    }
                }
            }
            i += 1;
        }
    }
}

/// The phi nodes `q` are the phi nodes `p` with the entries for `pred`
/// taken out.
pub open spec fn phis_stripped(p: Seq<Phi>, q: Seq<Phi>, pred: Label) -> bool {
    &&& q.len() == p.len()
    &&& forall|k: int| 0 <= k < p.len() ==> phi_stripped(p[k], #[trigger] q[k], pred)
}

/// Stripping phi nodes that were stripped already changes nothing.
pub proof fn lemma_strip_twice(p: Seq<Phi>, q: Seq<Phi>, r: Seq<Phi>, pred: Label)
    requires
        phis_stripped(p, q, pred),
        phis_stripped(q, r, pred),
    ensures
        phis_stripped(p, r, pred),
{
    assert forall|k: int| 0 <= k < p.len() implies phi_stripped(p[k], #[trigger] r[k], pred) by {
        assert(phi_stripped(p[k], q[k], pred));
        assert(phi_stripped(q[k], r[k], pred));
        lemma_entries_without_idempotent(p[k].entries@, pred);
    }
}

proof fn lemma_entries_without_idempotent(entries: Seq<(Label, Source)>, pred: Label)
    ensures
        entries_without(entries_without(entries, pred), pred) == entries_without(entries, pred),
    decreases entries.len(),
{
    if entries.len() > 0 {
        lemma_entries_without_idempotent(entries.drop_last(), pred);
        if entries.last().0 != pred {
            let r = entries_without(entries.drop_last(), pred).push(entries.last());
            assert(r.drop_last() == entries_without(entries.drop_last(), pred));
        }
    }
}

/// From `f` to `g` block `dead` has been deleted: its slot is empty, what
/// it jumped to has lost the phi entries that were for it, and the rest of
/// the code is untouched.
pub open spec fn block_removed(f: Function, g: Function, dead: Label) -> bool {
    &&& g.inv()
    &&& !g.is_live(dead)
    &&& g.blocks@.len() == f.blocks@.len()
    &&& g.entry == f.entry
    &&& g.next_value == f.next_value
    &&& forall|l: Label| l != dead ==> #[trigger] g.is_live(l) == f.is_live(l)
    &&& forall|l: Label| #[trigger]
        f.is_live(l) && l != dead ==> {
            &&& g.block(l).label == f.block(l).label
            &&& g.block(l).ops == f.block(l).ops
            &&& g.block(l).jumps == f.block(l).jumps
            &&& if f.block(dead).jumps@.contains(l) {
                phis_stripped(f.block(l).phi_nodes@, g.block(l).phi_nodes@, dead)
            } else {
                g.block(l).phi_nodes == f.block(l).phi_nodes
            }
        }
}

impl FunctionBuilder {
    /// Deletes a block that nothing jumps to. Its successors lose it as a
    /// predecessor, in their back-references and in their phi nodes.
    pub fn remove_block(&mut self, block: Label)
        requires
            old(self)@.inv(),
            old(self)@.is_live(block),
            block != old(self)@.entry,
            old(self)@.block(block).back_refs@.len() == 0,
        ensures
            block_removed(old(self)@, final(self)@, block),
    {
        let ghost o = self.fun;
        let succs = copy_labels(&self.fun.get(block).jumps);
        set_jumps(&mut self.fun, block, Vec::new());
        let ghost m = self.fun;
        let mut i: usize = 0;
        while i < succs.len()
            invariant
                i <= succs@.len(),
                succs@ == o.block(block).jumps@,
                o.inv(),
                o.is_live(block),
                rewired(o, m, block, Seq::<Label>::empty()),
                self.fun.inv(),
                same_edges(m, self.fun),
                self.fun.entry == o.entry,
                self.fun.next_value == o.next_value,
                forall|l: Label| #[trigger]
                    o.is_live(l) ==> {
                        &&& self.fun.block(l).label == o.block(l).label
                        &&& self.fun.block(l).ops == o.block(l).ops
                        &&& if succs@.take(i as int).contains(l) {
                            phis_stripped(o.block(l).phi_nodes@, self.fun.block(l).phi_nodes@, block)
                        } else {
                            self.fun.block(l).phi_nodes == o.block(l).phi_nodes
                        }
                    },
            decreases succs@.len() - i,
        {
            let s = succs[i];
            let ghost pre = self.fun;
            proof {
                assert(o.jumps_live_at(block));
                assert(o.is_live(o.block(block).jumps@[i as int]));
                assert(m.is_live(s));
                assert(pre.is_live(s));
            }
            let b = block_mut(&mut self.fun, s);
            strip_block(b, block);
            proof {
                let g = self.fun;
                lemma_code_change_keeps_inv(pre, g, s);
                assert(succs@.take(i + 1) == succs@.take(i as int).push(s));
                assert forall|l: Label| #[trigger] m.is_live(l) == g.is_live(l) by {
                    assert(m.is_live(l) == pre.is_live(l));
                }
                assert forall|l: Label| #[trigger] m.is_live(l) implies g.block(l).jumps == m.block(l).jumps
                    && g.block(l).back_refs == m.block(l).back_refs by {
                    assert(pre.is_live(l));
                }
                assert forall|l: Label| #[trigger] o.is_live(l) implies {
                    &&& g.block(l).label == o.block(l).label
                    &&& g.block(l).ops == o.block(l).ops
                    &&& if succs@.take(i + 1).contains(l) {
                        phis_stripped(o.block(l).phi_nodes@, g.block(l).phi_nodes@, block)
                    } else {
                        g.block(l).phi_nodes == o.block(l).phi_nodes
                    }
                } by {
                    assert(m.is_live(l) && pre.is_live(l));
                    if l == s {
                        assert(succs@.take(i + 1)[i as int] == s);
                        if succs@.take(i as int).contains(l) {
                            lemma_strip_twice(o.block(l).phi_nodes@, pre.block(l).phi_nodes@, g.block(l).phi_nodes@, block);
                        }
                    } else {
                        assert(g.blocks@[l.0 as int] == pre.blocks@[l.0 as int]);
                        let t0 = succs@.take(i as int);
                        let t1 = succs@.take(i + 1);
                        if t1.contains(l) {
                            let k = choose|k: int| 0 <= k < t1.len() && t1[k] == l;
                            assert(t0[k] == l);
                        }
                        if t0.contains(l) {
                            let k = choose|k: int| 0 <= k < t0.len() && t0[k] == l;
                            assert(t1[k] == l);
                        }
                    }
                }
            }
            i += 1;
        }
        let ghost pre = self.fun;
        let idx = block.0 as usize;
        assert(pre.is_live(block)) by {
            assert(m.is_live(block));
        }
        self.fun.blocks[idx] = None;
        proof {
            let g = self.fun;
            assert(succs@.take(i as int) == succs@);
            assert forall|l: Label| l != block implies #[trigger] g.is_live(l) == o.is_live(l) by {
                assert(m.is_live(l) == o.is_live(l));
                assert(pre.is_live(l) == m.is_live(l));
            }
            assert forall|a: Label| !o.edge(a, block) by {
                assert(o.back_refs_exact_at(block));
                assert(o.block(block).back_refs@.contains(a) <==> o.edge(a, block));
            }
            assert forall|l: Label| #[trigger] g.is_live(l) implies g.block(l).label == l && g.jumps_live_at(l)
                && g.back_refs_exact_at(l) by {
                assert(l != block);
                assert(pre.is_live(l) && m.is_live(l) && o.is_live(l));
                assert(g.block(l) == pre.block(l));
                assert(pre.jumps_live_at(l));
                assert forall|k: int| 0 <= k < g.block(l).jumps@.len() implies g.is_live(#[trigger] g.block(l).jumps@[k]) by {
                    let t = pre.block(l).jumps@[k];
                    assert(pre.is_live(t));
                    assert(o.block(l).jumps@.contains(t));
                    assert(o.edge(l, t));
                }
                assert(pre.back_refs_exact_at(l));
                assert forall|a: Label| g.block(l).back_refs@.contains(a) <==> g.edge(a, l) by {
                    assert(pre.block(l).back_refs@.contains(a) <==> pre.edge(a, l));
                    if a == block {
                        assert(pre.block(block).jumps == m.block(block).jumps);
                    } else if pre.is_live(a) {
                        assert(g.is_live(a));
                        assert(g.block(a) == pre.block(a));
                    }
                }
            }
            assert(g.is_live(g.entry)) by {
                assert(o.is_live(o.entry));
            }
            assert forall|l: Label| #[trigger] o.is_live(l) && l != block implies g.block(l).jumps == o.block(l).jumps by {
                assert(m.is_live(l) && pre.is_live(l));
            }
        }
    }
}

/// The operands that stand for a list of values.
pub open spec fn as_sources(values: Seq<Value>) -> Seq<Source> {
    values.map_values(|v: Value| Source::Variable(v))
}

/// Block `l` of `g` holds nothing but one operation of kind `kind`, which
/// reads `v` and ends the block without successors.
pub open spec fn is_return_block(g: Function, l: Label, kind: OpKind, v: Value) -> bool {
    &&& g.is_live(l)
    &&& g.block(l).phi_nodes@.len() == 0
    &&& g.block(l).jumps@.len() == 0
    &&& g.block(l).ops@.len() == 1
    &&& g.block(l).ops@[0].kind == kind
    &&& g.block(l).ops@[0].reads@ == seq![Source::Variable(v)]
    &&& g.block(l).ops@[0].writes@.len() == 0
}

/// From `f` to `g` block `block` has been ended by a call of `target` with
/// `args` whose outcome leaves the function: the result is returned from a
/// new block, the exception thrown from another.
pub open spec fn call_emitted(f: Function, g: Function, block: Label, target: Value, args: Seq<Value>) -> bool {
    let ok = Label(f.blocks@.len() as u32);
    let throw = Label((f.blocks@.len() + 1) as u32);
    let res = Value(f.next_value);
    let exc = Value((f.next_value + 1) as u32);
    &&& g.inv()
    &&& g.blocks@.len() == f.blocks@.len() + 2
    &&& g.next_value == f.next_value + 2
    &&& g.entry == f.entry
    &&& forall|l: Label| #[trigger]
        f.is_live(l) ==> {
            &&& g.is_live(l)
            &&& g.block(l).label == f.block(l).label
            &&& g.block(l).phi_nodes == f.block(l).phi_nodes
            &&& l != block ==> g.block(l).ops == f.block(l).ops && g.block(l).jumps == f.block(l).jumps
        }
    &&& g.block(block).jumps@ == seq![ok, throw]
    &&& g.block(block).ops@.len() == f.block(block).ops@.len() + 1
    &&& g.block(block).ops@.drop_last() == f.block(block).ops@
    &&& g.block(block).ops@.last().kind == OpKind::Apply
    &&& g.block(block).ops@.last().reads@ == seq![Source::Variable(target)] + as_sources(args)
    &&& g.block(block).ops@.last().writes@ == seq![res, exc]
    &&& is_return_block(g, ok, OpKind::ReturnOk, res)
    &&& is_return_block(g, throw, OpKind::ReturnThrow, exc)
}

impl FunctionBuilder {
    /// Gives a block a new successor list.
    pub fn set_targets(&mut self, block: Label, targets: Vec<Label>)
        requires
            old(self)@.inv(),
            old(self)@.is_live(block),
            forall|k: int| 0 <= k < targets@.len() ==> old(self)@.is_live(#[trigger] targets@[k]),
        ensures
            rewired(old(self)@, final(self)@, block, targets@),
    {
        set_jumps(&mut self.fun, block, targets);
    }

    /// Ends a block with a call of `target` with `args` in tail position.
    pub fn op_call(&mut self, block: Label, target: Value, args: &[Value])
        requires
            old(self)@.inv(),
            old(self)@.is_live(block),
            old(self)@.blocks@.len() + 2 <= u32::MAX,
            old(self)@.next_value + 2 <= u32::MAX,
        ensures
            call_emitted(old(self)@, final(self)@, block, target, args@),
    {
        let ghost o = self.fun;
        let res = self.fresh_value();
        let exc = self.fresh_value();
        let ghost m0 = self.fun;
        let ok = self.create_block();
        let ghost m1 = self.fun;
        let throw = self.create_block();
        let ghost m2 = self.fun;
        proof {
            assert forall|l: Label| #[trigger] o.is_live(l) implies m2.is_live(l) && m2.block(l) == o.block(l) by {
                assert(m1.blocks@.take(ok.0 as int)[l.0 as int] == m1.blocks@[l.0 as int]);
                assert(m2.blocks@.take(throw.0 as int)[l.0 as int] == m2.blocks@[l.0 as int]);
            }
            assert(m2.block(ok) == m1.block(ok)) by {
                assert(m2.blocks@.take(throw.0 as int)[ok.0 as int] == m2.blocks@[ok.0 as int]);
            }
            assert(m2.is_live(ok));
        }
        let mut rd: Vec<Source> = Vec::new();
        rd.push(Source::Variable(res));
        self.append_op(ok, Op { kind: OpKind::ReturnOk, reads: rd, writes: Vec::new() }, Vec::new());
        let ghost m3 = self.fun;
        let mut rd: Vec<Source> = Vec::new();
        rd.push(Source::Variable(exc));
        assert(m3.is_live(throw)) by {
            assert(m2.is_live(throw));
        }
        self.append_op(throw, Op { kind: OpKind::ReturnThrow, reads: rd, writes: Vec::new() }, Vec::new());
        let ghost m4 = self.fun;
        let mut reads: Vec<Source> = Vec::new();
        reads.push(Source::Variable(target));
        let mut i: usize = 0;
        while i < args.len()
            invariant
                i <= args@.len(),
                reads@ == seq![Source::Variable(target)] + as_sources(args@.take(i as int)),
            decreases args@.len() - i,
        {
            reads.push(Source::Variable(args[i]));
            assert(as_sources(args@.take(i + 1)) == as_sources(args@.take(i as int)).push(Source::Variable(args@[i as int])));
            i += 1;
        }
        assert(args@.take(i as int) == args@);
        let mut writes: Vec<Value> = Vec::new();
        writes.push(res);
        writes.push(exc);
        let mut targets: Vec<Label> = Vec::new();
        targets.push(ok);
        targets.push(throw);
        proof {
            assert(m4.is_live(ok) && m4.is_live(throw) && m4.is_live(block)) by {
                assert(m2.is_live(ok) && m2.is_live(throw) && m2.is_live(block));
                assert(m3.is_live(ok) && m3.is_live(throw) && m3.is_live(block));
            }
        }
        self.append_op(block, Op { kind: OpKind::Apply, reads, writes }, targets);
        proof {
            let g = self.fun;
            assert forall|l: Label| #[trigger] o.is_live(l) implies {
                &&& g.is_live(l)
                &&& g.block(l).label == o.block(l).label
                &&& g.block(l).phi_nodes == o.block(l).phi_nodes
                &&& l != block ==> g.block(l).ops == o.block(l).ops && g.block(l).jumps == o.block(l).jumps
            } by {
                assert(m2.is_live(l) && m3.is_live(l) && m4.is_live(l));
                assert(l != ok && l != throw);
            }
            assert(m3.is_live(ok) && m4.is_live(ok) && m4.is_live(throw));
            assert(m4.block(ok).ops == m3.block(ok).ops);
            assert(m3.block(ok).ops@ == m2.block(ok).ops@.push(m3.block(ok).ops@[0]));
            assert(m4.block(throw).ops@ == m3.block(throw).ops@.push(m4.block(throw).ops@[0]));
            assert(g.block(block).ops@.drop_last() == o.block(block).ops@) by {
                assert(m4.block(block).ops == o.block(block).ops);
                assert(g.block(block).ops@ == m4.block(block).ops@.push(g.block(block).ops@.last()));
            }
            assert(g.block(block).jumps@ == seq![ok, throw]);
            assert(g.block(block).ops@.last().writes@ == seq![res, exc]);
        }
    }
}

/// Phi node `q` is `p` with the entries for `from` made entries for `to`.
pub open spec fn phi_rekeyed(p: Phi, q: Phi, from: Label, to: Label) -> bool {
    q.ssa == p.ssa && q.entries@ == rekeyed_entries(p.entries@, from, to)
}

/// The entries with those for `from` made entries for `to`.
pub open spec fn rekeyed_entries(entries: Seq<(Label, Source)>, from: Label, to: Label) -> Seq<(Label, Source)> {
    Seq::new(entries.len(), |k: int| if entries[k].0 == from { (to, entries[k].1) } else { entries[k] })
}

/// Block `c` is `b` with, in every phi node, the entries for `from` made
/// entries for `to`.
pub open spec fn block_rekeyed(b: BasicBlock, c: BasicBlock, from: Label, to: Label) -> bool {
    &&& c.label == b.label
    &&& c.jumps == b.jumps
    &&& c.back_refs == b.back_refs
    &&& c.ops == b.ops
    &&& c.phi_nodes@.len() == b.phi_nodes@.len()
    &&& forall|k: int| 0 <= k < b.phi_nodes@.len() ==> phi_rekeyed(b.phi_nodes@[k], #[trigger] c.phi_nodes@[k], from, to)
}

fn rekey_phi(phi: &mut Phi, from: Label, to: Label)
    ensures
        phi_rekeyed(*old(phi), *final(phi), from, to),
{
    let ghost o = phi.entries@;
    let mut i: usize = 0;
    while i < phi.entries.len()
        invariant
            i <= o.len(),
            phi.ssa == old(phi).ssa,
            phi.entries@.len() == o.len(),
            forall|k: int| 0 <= k < i ==> phi.entries@[k] == rekeyed_entries(o, from, to)[k],
            forall|k: int| i <= k < o.len() ==> phi.entries@[k] == o[k],
        decreases o.len() - i,
    {
        let e = phi.entries[i];
        if e.0 == from {
            phi.entries[i] = (to, e.1);
        }
        i += 1;
    }
    assert(phi.entries@ =~= rekeyed_entries(o, from, to));
}

impl FunctionBuilder {
    /// Makes the phi entries of a block that are for predecessor `from`
    /// entries for `to`.
    pub fn rekey_phi_entries(&mut self, block: Label, from: Label, to: Label)
        requires
            old(self)@.inv(),
            old(self)@.is_live(block),
        ensures
            final(self)@.inv(),
            only_block_changed(old(self)@, final(self)@, block),
            same_edges(old(self)@, final(self)@),
            block_rekeyed(old(self)@.block(block), final(self)@.block(block), from, to),
    {
        let ghost o = self.fun;
        let b = block_mut(&mut self.fun, block);
        let ghost ob = *b;
        let mut i: usize = 0;
        while i < b.phi_nodes.len()
            invariant
                i <= ob.phi_nodes@.len(),
                b.label == ob.label,
                b.jumps == ob.jumps,
                b.back_refs == ob.back_refs,
                b.ops == ob.ops,
                b.phi_nodes@.len() == ob.phi_nodes@.len(),
                forall|k: int| 0 <= k < i ==> phi_rekeyed(ob.phi_nodes@[k], #[trigger] b.phi_nodes@[k], from, to),
                forall|k: int| i <= k < ob.phi_nodes@.len() ==> b.phi_nodes@[k] == ob.phi_nodes@[k],
            decreases ob.phi_nodes@.len() - i,
        {
            rekey_phi(&mut b.phi_nodes[i], from, to);
            i += 1;
        }
        proof {
            lemma_code_change_keeps_inv(o, self.fun, block);
        }
    }
}

impl FunctionBuilder {
    /// Sets the next `n` values aside: they are fresh, and no later fresh
    /// value is one of them.
    pub fn reserve_values(&mut self, n: u32)
        requires
            old(self)@.inv(),
            old(self)@.next_value + n <= u32::MAX,
        ensures
            final(self)@.inv(),
            final(self)@.next_value == old(self)@.next_value + n,
            final(self)@.blocks == old(self)@.blocks,
            final(self)@.entry == old(self)@.entry,
    {
        let ghost o = self.fun;
        self.fun.next_value = self.fun.next_value + n;
        proof {
            let g = self.fun;
            assert(o.is_live(o.entry));
            assert forall|l: Label| #[trigger] g.is_live(l) implies g.block(l).label == l && g.jumps_live_at(l)
                && g.back_refs_exact_at(l) by {
                assert(o.is_live(l));
                assert(g.block(l) == o.block(l));
                assert(o.jumps_live_at(l));
                assert forall|k: int| 0 <= k < g.block(l).jumps@.len() implies g.is_live(#[trigger] g.block(l).jumps@[k]) by {
                    assert(o.is_live(o.block(l).jumps@[k]));
                }
                assert(o.back_refs_exact_at(l));
                assert forall|a: Label| g.block(l).back_refs@.contains(a) <==> g.edge(a, l) by {
                    assert(o.block(l).back_refs@.contains(a) <==> o.edge(a, l));
                    assert(o.is_live(a) == g.is_live(a));
                }
            }
        }
    }
}

} // verus!
