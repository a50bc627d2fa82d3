//! The global check of a function's graph against its structural invariants.
use vstd::prelude::*;
use crate::ir::{BasicBlock, Label, Phi, Value};
use crate::function::{arena_defs, block_arity_ok, block_defs, op_defs, phi_complete, phi_defs, Function};
use crate::util::{contains_label, distinct_labels, distinct_values};

verus! {

/// The invariant that a graph breaks. Where it breaks several, the one that
/// comes first in this order is reported.
#[derive(Debug, Clone, Copy, PartialEq, Eq, Structural, Hash)]
pub enum ValidationError {
    /// A block is stored under a label that is not its own, the arena has
    /// outgrown the labels, or the entry block is not live.
    Arena,
    /// A successor list names a block that is not live.
    DanglingLabel,
    /// A block's back-references are not exactly its predecessors.
    BackReference,
    /// A block is not terminated, or has the wrong number of successors.
    JumpArity,
    /// A phi node misses a predecessor, or has a stale or duplicate entry.
    PhiEntries,
    /// A value is defined at more than one site.
    MultipleDefinition,
}

/// The checks that are made block by block.
#[derive(Debug, Clone, Copy, PartialEq, Eq, Structural, Hash)]
pub enum BlockCheck {
    Jumps,
    BackRefs,
    Arity,
    Phis,
}

/// Whether `phi` has an entry for predecessor `a`.
pub fn phi_has_pred(phi: &Phi, a: Label) -> (r: bool)
    ensures
        r == phi.preds().contains(a),
{
    let mut i: usize = 0;
    while i < phi.entries.len()
        invariant
            i <= phi.entries@.len(),
            forall|j: int| 0 <= j < i ==> phi.preds()[j] != a,
        decreases phi.entries@.len() - i,
    {
        if phi.entries[i].0 == a {
            assert(phi.preds()[i as int] == a);
            return true;
        }
        i += 1;
    }
    false
}

/// Whether no two entries of `phi` are for the same predecessor.
pub fn phi_preds_distinct(phi: &Phi) -> (r: bool)
    ensures
        r == phi.preds().no_duplicates(),
{
    let mut i: usize = 0;
    while i < phi.entries.len()
        invariant
            i <= phi.entries@.len(),
            forall|a: int, b: int| 0 <= a < b < phi.entries@.len() && b < i ==> phi.preds()[a] != phi.preds()[b],
        decreases phi.entries@.len() - i,
    {
        let mut j: usize = 0;
        while j < i
            invariant
                j <= i < phi.entries@.len(),
                forall|a: int| 0 <= a < j ==> phi.preds()[a] != phi.preds()[i as int],
            decreases i - j,
        {
            if phi.entries[j].0 == phi.entries[i].0 {
                assert(phi.preds()[j as int] == phi.preds()[i as int]);
                return false;
            }
            j += 1;
        }
        i += 1;
    }
    true
}

/// Whether `phi` has exactly one entry for each back-reference of `b`.
pub fn check_phi(b: &BasicBlock, phi: &Phi) -> (r: bool)
    ensures
        r == phi_complete(*b, *phi),
{
    if !phi_preds_distinct(phi) {
        return false;
    }
    let mut i: usize = 0;
    while i < phi.entries.len()
        invariant
            i <= phi.entries@.len(),
            forall|j: int| 0 <= j < i ==> b.back_refs@.contains(phi.preds()[j]),
        decreases phi.entries@.len() - i,
    {
        if !contains_label(&b.back_refs, phi.entries[i].0) {
            assert(phi.preds()[i as int] == phi.entries@[i as int].0);
            assert(phi.preds().contains(phi.preds()[i as int]));
            return false;
        }
        i += 1;
    }
    let mut k: usize = 0;
    while k < b.back_refs.len()
        invariant
            k <= b.back_refs@.len(),
            forall|j: int| 0 <= j < k ==> phi.preds().contains(b.back_refs@[j]),
        decreases b.back_refs@.len() - k,
    {
        if !phi_has_pred(phi, b.back_refs[k]) {
            assert(b.back_refs@.contains(b.back_refs@[k as int]));
            return false;
        }
        k += 1;
    }
    true
}

impl Function {
    /// Every back-reference of block `b` is held once and names a block that
    /// jumps to `b`.
    pub open spec fn preds_sound_at(&self, b: Label) -> bool {
        &&& self.block(b).back_refs@.no_duplicates()
        &&& forall|k: int| 0 <= k < self.block(b).back_refs@.len() ==> self.edge(#[trigger] self.block(b).back_refs@[k], b)
    }

    /// Every successor of block `a` holds `a` among its back-references.
    pub open spec fn succs_recorded_at(&self, a: Label) -> bool {
        forall|k: int| 0 <= k < self.block(a).jumps@.len() ==> self.block(#[trigger] self.block(a).jumps@[k]).back_refs@.contains(a)
    }

    /// What one block-by-block check asks of block `l`.
    pub open spec fn holds_at(&self, what: BlockCheck, l: Label) -> bool {
        match what {
            BlockCheck::Jumps => self.jumps_live_at(l),
            BlockCheck::BackRefs => self.preds_sound_at(l) && self.succs_recorded_at(l),
            BlockCheck::Arity => block_arity_ok(self.block(l)),
            BlockCheck::Phis => self.phis_complete_at(l),
        }
    }

    pub open spec fn holds_everywhere(&self, what: BlockCheck) -> bool {
        forall|l: Label| #[trigger] self.is_live(l) ==> self.holds_at(what, l)
    }

    /// Seen from both ends of each edge, back-references are exact.
    pub proof fn lemma_back_refs_by_edges(&self)
        requires
            self.jumps_live(),
        ensures
            self.back_refs_exact() <==> self.holds_everywhere(BlockCheck::BackRefs),
    {
        if self.back_refs_exact() {
            assert forall|l: Label| #[trigger] self.is_live(l) implies self.holds_at(BlockCheck::BackRefs, l) by {
                assert(self.back_refs_exact_at(l));
                assert forall|k: int| 0 <= k < self.block(l).back_refs@.len() implies self.edge(#[trigger] self.block(l).back_refs@[k], l) by {
                    assert(self.block(l).back_refs@.contains(self.block(l).back_refs@[k]));
                }
                assert forall|k: int| 0 <= k < self.block(l).jumps@.len() implies self.block(#[trigger] self.block(l).jumps@[k]).back_refs@.contains(l) by {
                    let t = self.block(l).jumps@[k];
                    assert(self.jumps_live_at(l));
                    assert(self.is_live(t));
                    assert(self.back_refs_exact_at(t));
                    assert(self.edge(l, t));
                }
            }
        }
        if self.holds_everywhere(BlockCheck::BackRefs) {
            assert forall|b: Label| #[trigger] self.is_live(b) implies self.back_refs_exact_at(b) by {
                assert(self.holds_at(BlockCheck::BackRefs, b));
                assert forall|a: Label| self.block(b).back_refs@.contains(a) <==> self.edge(a, b) by {
                    if self.block(b).back_refs@.contains(a) {
                        let k = choose|k: int| 0 <= k < self.block(b).back_refs@.len() && self.block(b).back_refs@[k] == a;
                        assert(self.edge(self.block(b).back_refs@[k], b));
                    }
                    if self.edge(a, b) {
                        let k = choose|k: int| 0 <= k < self.block(a).jumps@.len() && self.block(a).jumps@[k] == b;
                        assert(self.holds_at(BlockCheck::BackRefs, a));
                        assert(self.block(self.block(a).jumps@[k]).back_refs@.contains(a));
                    }
                }
            }
        }
    }

    /// Whether the arena is intact.
    pub fn check_arena(&self) -> (r: bool)
        ensures
            r == self.arena_ok(),
    {
        if self.blocks.len() > 0xffff_ffff || !self.live(self.entry) {
            return false;
        }
        let mut i: usize = 0;
        while i < self.blocks.len()
            invariant
                i <= self.blocks@.len() <= u32::MAX,
                forall|l: Label| #[trigger] self.is_live(l) && l.0 < i ==> self.block(l).label == l,
            decreases self.blocks@.len() - i,
        {
            match &self.blocks[i] {
                Some(b) => {
                    if b.label.0 as usize != i {
                        assert(self.is_live(Label(i as u32)));
                        return false;
                    }
                },
                None => {},
            }
            i += 1;
        }
        true
    }

    /// Whether block `l` passes one of the block-by-block checks.
    #[verifier::loop_isolation(false)]
    pub fn check_block(&self, what: BlockCheck, l: Label) -> (r: bool)
        requires
            self.is_live(l),
            what == BlockCheck::BackRefs ==> self.jumps_live(),
        ensures
            r == self.holds_at(what, l),
    {
        let b = self.get(l);
        match what {
            BlockCheck::Jumps => {
                let mut k: usize = 0;
                while k < b.jumps.len()
                    invariant
                        k <= b.jumps@.len(),
                        forall|j: int| 0 <= j < k ==> self.is_live(#[trigger] b.jumps@[j]),
                    decreases b.jumps@.len() - k,
                {
                    if !self.live(b.jumps[k]) {
                        return false;
                    }
                    k += 1;
                }
                true
            },
            BlockCheck::BackRefs => {
                if !distinct_labels(&b.back_refs) {
                    return false;
                }
                let mut k: usize = 0;
                while k < b.back_refs.len()
                    invariant
                        k <= b.back_refs@.len(),
                        forall|j: int| 0 <= j < k ==> self.edge(#[trigger] b.back_refs@[j], l),
                    decreases b.back_refs@.len() - k,
                {
                    let a = b.back_refs[k];
                    if !self.live(a) || !contains_label(&self.get(a).jumps, l) {
                        return false;
                    }
                    k += 1;
                }
                let mut k: usize = 0;
                while k < b.jumps.len()
                    invariant
                        k <= b.jumps@.len(),
                        self.is_live(l),
                        *b == self.block(l),
                        self.jumps_live(),
                        forall|j: int| 0 <= j < k ==> self.block(#[trigger] b.jumps@[j]).back_refs@.contains(l),
                    decreases b.jumps@.len() - k,
                {
                    let t = b.jumps[k];
                    assert(self.jumps_live_at(l));
                    if !contains_label(&self.get(t).back_refs, l) {
                        return false;
                    }
                    k += 1;
                }
                true
            },
            BlockCheck::Arity => {
                let n = b.ops.len();
                if n == 0 {
                    return false;
                }
                match b.ops[n - 1].kind.num_jumps() {
                    Some(c) => {
                        if c != b.jumps.len() {
                            return false;
                        }
                    },
                    None => {
                        return false;
                    },
                }
                let mut k: usize = 0;
                while k < n - 1
                    invariant
                        k <= n - 1,
                        n == b.ops@.len(),
                        forall|j: int| 0 <= j < k ==> (#[trigger] b.ops@[j]).kind.jump_count() is None,
                    decreases n - k,
                {
                    if b.ops[k].kind.num_jumps().is_some() {
                        return false;
                    }
                    k += 1;
                }
                true
            },
            BlockCheck::Phis => {
                let mut k: usize = 0;
                while k < b.phi_nodes.len()
                    invariant
                        k <= b.phi_nodes@.len(),
                        forall|j: int| 0 <= j < k ==> phi_complete(*b, #[trigger] b.phi_nodes@[j]),
                    decreases b.phi_nodes@.len() - k,
                {
                    if !check_phi(b, &b.phi_nodes[k]) {
                        return false;
                    }
                    k += 1;
                }
                true
            },
        }
    }

    /// Whether every live block passes one of the block-by-block checks.
    #[verifier::loop_isolation(false)]
    pub fn check_blocks(&self, what: BlockCheck) -> (r: bool)
        requires
            self.blocks@.len() <= u32::MAX,
            what == BlockCheck::BackRefs ==> self.jumps_live(),
        ensures
            r == self.holds_everywhere(what),
    {
        let mut i: usize = 0;
        while i < self.blocks.len()
            invariant
                i <= self.blocks@.len() <= u32::MAX,
                what == BlockCheck::BackRefs ==> self.jumps_live(),
                forall|l: Label| #[trigger] self.is_live(l) && l.0 < i ==> self.holds_at(what, l),
            decreases self.blocks@.len() - i,
        {
            if self.blocks[i].is_some() {
                let l = Label(i as u32);
                assert(self.is_live(l));
                if !self.check_block(what, l) {
                    return false;
                }
            }
            i += 1;
        }
        true
    }
}

/// Appends the values that `b` defines to `out`.
pub fn push_block_defs(b: &BasicBlock, out: &mut Vec<Value>)
    ensures
        final(out)@ == old(out)@ + block_defs(*b),
{
    let ghost start = out@;
    let mut i: usize = 0;
    while i < b.phi_nodes.len()
        invariant
            i <= b.phi_nodes@.len(),
            out@ == start + phi_defs(b.phi_nodes@).take(i as int),
        decreases b.phi_nodes@.len() - i,
    {
        out.push(b.phi_nodes[i].ssa);
        assert(phi_defs(b.phi_nodes@).take(i + 1) == phi_defs(b.phi_nodes@).take(i as int).push(
            b.phi_nodes@[i as int].ssa,
        ));
        i += 1;
    }
    assert(phi_defs(b.phi_nodes@).take(i as int) == phi_defs(b.phi_nodes@));
    let ghost mid = out@;
    let mut k: usize = 0;
    assert(op_defs(b.ops@.take(0)) == Seq::<Value>::empty());
    while k < b.ops.len()
        invariant
            k <= b.ops@.len(),
            out@ == mid + op_defs(b.ops@.take(k as int)),
        decreases b.ops@.len() - k,
    {
        let ghost before = out@;
        let op = &b.ops[k];
        let mut j: usize = 0;
        while j < op.writes.len()
            invariant
                j <= op.writes@.len(),
                out@ == before + op.writes@.take(j as int),
            decreases op.writes@.len() - j,
        {
            out.push(op.writes[j]);
            assert(op.writes@.take(j + 1) == op.writes@.take(j as int).push(op.writes@[j as int]));
            j += 1;
        }
        proof {
            assert(op.writes@.take(j as int) == op.writes@);
            assert(b.ops@.take(k + 1).drop_last() == b.ops@.take(k as int));
            assert(b.ops@.take(k + 1).last() == b.ops@[k as int]);
        }
        k += 1;
    }
    assert(b.ops@.take(k as int) == b.ops@);
}

impl Function {
    /// The definition sites of the function, in arena order.
    pub fn collect_defs(&self) -> (out: Vec<Value>)
        ensures
            out@ == self.defs(),
    {
        let mut out: Vec<Value> = Vec::new();
        let mut i: usize = 0;
        assert(arena_defs(self.blocks@.take(0)) == Seq::<Value>::empty());
        while i < self.blocks.len()
            invariant
                i <= self.blocks@.len(),
                out@ == arena_defs(self.blocks@.take(i as int)),
            decreases self.blocks@.len() - i,
        {
            proof {
                assert(self.blocks@.take(i + 1).drop_last() == self.blocks@.take(i as int));
                assert(self.blocks@.take(i + 1).last() == self.blocks@[i as int]);
            }
            match &self.blocks[i] {
                Some(b) => {
                    push_block_defs(b, &mut out);
                },
                None => {},
            }
            i += 1;
        }
        assert(self.blocks@.take(i as int) == self.blocks@);
        out
    }

    /// The outcome of validation: the first invariant, in the order of
    /// `ValidationError`, that the graph breaks.
    pub open spec fn verdict(&self) -> Result<(), ValidationError> {
        if !self.arena_ok() {
            Err(ValidationError::Arena)
        } else if !self.jumps_live() {
            Err(ValidationError::DanglingLabel)
        } else if !self.back_refs_exact() {
            Err(ValidationError::BackReference)
        } else if !self.arity_ok() {
            Err(ValidationError::JumpArity)
        } else if !self.phis_complete() {
            Err(ValidationError::PhiEntries)
        } else if !self.ssa_unique() {
            Err(ValidationError::MultipleDefinition)
        } else {
            Ok(())
        }
    }

    /// Checks the whole graph from scratch: the arena, dangling labels,
    /// back-references against successor lists, jump arity, phi completeness
    /// and single definition. Nothing that an earlier rewriting step recorded
    /// is taken on trust.
    pub fn graph_validate_global(&self) -> (r: Result<(), ValidationError>)
        ensures
            r == self.verdict(),
            r is Ok <==> self.valid(),
    {
        if !self.check_arena() {
            return Err(ValidationError::Arena);
        }
        if !self.check_blocks(BlockCheck::Jumps) {
            return Err(ValidationError::DanglingLabel);
        }
        assert(self.jumps_live()) by {
            assert forall|a: Label| #[trigger] self.is_live(a) implies self.jumps_live_at(a) by {
                assert(self.holds_at(BlockCheck::Jumps, a));
            }
        }
        proof {
            self.lemma_back_refs_by_edges();
        }
        if !self.check_blocks(BlockCheck::BackRefs) {
            return Err(ValidationError::BackReference);
        }
        if !self.check_blocks(BlockCheck::Arity) {
            assert(!self.arity_ok()) by {
                if self.arity_ok() {
                    assert forall|l: Label| #[trigger] self.is_live(l) implies self.holds_at(BlockCheck::Arity, l) by {}
                }
            }
            return Err(ValidationError::JumpArity);
        }
        assert(self.arity_ok()) by {
            assert forall|l: Label| #[trigger] self.is_live(l) implies block_arity_ok(self.block(l)) by {
                assert(self.holds_at(BlockCheck::Arity, l));
            }
        }
        if !self.check_blocks(BlockCheck::Phis) {
            assert(!self.phis_complete()) by {
                if self.phis_complete() {
                    assert forall|l: Label| #[trigger] self.is_live(l) implies self.holds_at(BlockCheck::Phis, l) by {}
                }
            }
            return Err(ValidationError::PhiEntries);
        }
        assert(self.phis_complete()) by {
            assert forall|l: Label| #[trigger] self.is_live(l) implies self.phis_complete_at(l) by {
                assert(self.holds_at(BlockCheck::Phis, l));
            }
        }
        let defs = self.collect_defs();
        if !distinct_values(&defs) {
            return Err(ValidationError::MultipleDefinition);
        }
        Ok(())
    }
}

} // verus!
