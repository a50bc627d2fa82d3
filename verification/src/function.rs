//! A function's graph: the block arena, and what it means for it to be sound.
use vstd::prelude::*;
use crate::ir::{BasicBlock, FunctionIdent, Label, Op, Phi, Value};

verus! {

/// A function: an arena of blocks indexed by label, a distinguished entry
/// block and the counter that fresh values are taken from. A slot that holds
/// `None` is a block that was deleted.
#[derive(Debug)]
pub struct Function {
    pub blocks: Vec<Option<BasicBlock>>,
    pub entry: Label,
    pub next_value: u32,
}

/// An ordered mapping from function identifier to function.
#[derive(Debug)]
pub struct Module {
    pub functions: Vec<(FunctionIdent, Function)>,
}

/// The values that a sequence of phi nodes defines, in order.
pub open spec fn phi_defs(phis: Seq<Phi>) -> Seq<Value> {
    phis.map_values(|p: Phi| p.ssa)
}

/// The values that a sequence of operations defines, in order.
pub open spec fn op_defs(ops: Seq<Op>) -> Seq<Value>
    decreases ops.len(),
{
    if ops.len() == 0 {
        Seq::empty()
    } else {
        op_defs(ops.drop_last()) + ops.last().writes@
    }
}

/// The values that a block defines: those of its phi nodes, then those of
/// its operations.
pub open spec fn block_defs(b: BasicBlock) -> Seq<Value> {
    phi_defs(b.phi_nodes@) + op_defs(b.ops@)
}

/// The values that the live blocks of an arena define, in arena order.
pub open spec fn arena_defs(blocks: Seq<Option<BasicBlock>>) -> Seq<Value>
    decreases blocks.len(),
{
    if blocks.len() == 0 {
        Seq::empty()
    } else {
        arena_defs(blocks.drop_last()) + match blocks.last() {
            Some(b) => block_defs(b),
            None => Seq::empty(),
        }
    }
}

/// A block ends in exactly one terminating operation, and has as many
/// successors as that operation's kind asks for.
pub open spec fn block_arity_ok(b: BasicBlock) -> bool {
    &&& b.ops@.len() > 0
    &&& b.ops@.last().kind.jump_count() == Some(b.jumps@.len())
    &&& forall|k: int| 0 <= k < b.ops@.len() - 1 ==> (#[trigger] b.ops@[k]).kind.jump_count() is None
}

/// A phi node has exactly one entry for each predecessor of its block.
pub open spec fn phi_complete(b: BasicBlock, phi: Phi) -> bool {
    &&& phi.preds().no_duplicates()
    &&& forall|a: Label| phi.preds().contains(a) <==> b.back_refs@.contains(a)
}

impl Function {
    /// The label resolves to a block that has not been deleted.
    pub open spec fn is_live(&self, l: Label) -> bool {
        l.0 < self.blocks@.len() && self.blocks@[l.0 as int] is Some
    }

    /// The block that a live label resolves to.
    pub open spec fn block(&self, l: Label) -> BasicBlock {
        self.blocks@[l.0 as int]->Some_0
    }

    /// Block `a` is live and has `b` among its successors.
    pub open spec fn edge(&self, a: Label, b: Label) -> bool {
        self.is_live(a) && self.block(a).jumps@.contains(b)
    }

    /// Every label fits the arena, every live block is stored under its own
    /// label, and the entry block is live.
    pub open spec fn arena_ok(&self) -> bool {
        &&& self.blocks@.len() <= u32::MAX
        &&& self.is_live(self.entry)
        &&& forall|l: Label| #[trigger] self.is_live(l) ==> self.block(l).label == l
    }

    /// The successors of block `a` are live.
    pub open spec fn jumps_live_at(&self, a: Label) -> bool {
        forall|k: int| 0 <= k < self.block(a).jumps@.len() ==> self.is_live(#[trigger] self.block(a).jumps@[k])
    }

    /// No successor list names a block that is not live.
    pub open spec fn jumps_live(&self) -> bool {
        forall|a: Label| #[trigger] self.is_live(a) ==> self.jumps_live_at(a)
    }

    /// The back-references of block `b` are exactly the blocks that jump to
    /// it, each held once.
    pub open spec fn back_refs_exact_at(&self, b: Label) -> bool {
        &&& self.block(b).back_refs@.no_duplicates()
        &&& forall|a: Label| self.block(b).back_refs@.contains(a) <==> self.edge(a, b)
    }

    pub open spec fn back_refs_exact(&self) -> bool {
        forall|b: Label| #[trigger] self.is_live(b) ==> self.back_refs_exact_at(b)
    }

    pub open spec fn arity_ok(&self) -> bool {
        forall|b: Label| #[trigger] self.is_live(b) ==> block_arity_ok(self.block(b))
    }

    pub open spec fn phis_complete_at(&self, b: Label) -> bool {
        forall|k: int| 0 <= k < self.block(b).phi_nodes@.len() ==> phi_complete(self.block(b), #[trigger] self.block(b).phi_nodes@[k])
    }

    pub open spec fn phis_complete(&self) -> bool {
        forall|b: Label| #[trigger] self.is_live(b) ==> self.phis_complete_at(b)
    }

    /// Every definition site of the function, in arena order.
    pub open spec fn defs(&self) -> Seq<Value> {
        arena_defs(self.blocks@)
    }

    /// No value is defined at more than one site.
    pub open spec fn ssa_unique(&self) -> bool {
        self.defs().no_duplicates()
    }

    /// What every rewriting step keeps: the arena is intact, no successor
    /// dangles, and back-references mirror the successor lists.
    pub open spec fn inv(&self) -> bool {
        &&& self.arena_ok()
        &&& self.jumps_live()
        &&& self.back_refs_exact()
    }

    /// The graph is sound: besides `inv`, every block is terminated with the
    /// right number of successors, every phi node covers its block's
    /// predecessors exactly, and every value has a single definition.
    pub open spec fn valid(&self) -> bool {
        &&& self.inv()
        &&& self.arity_ok()
        &&& self.phis_complete()
        &&& self.ssa_unique()
    }

    /// The number of sites that define `v`.
    pub open spec fn definition_sites(&self, v: Value) -> nat {
        self.defs().to_multiset().count(v)
    }

    /// Where no value is defined twice, a value that the graph defines has
    /// exactly one definition site. A value that the graph only reads has
    /// none: it is handed to the function from outside.
    pub proof fn lemma_one_definition_site(&self, v: Value)
        requires
            self.ssa_unique(),
        ensures
            self.definition_sites(v) == if self.defs().contains(v) {
                1nat
            } else {
                0nat
            },
    {
        self.defs().lemma_multiset_has_no_duplicates();
        self.defs().to_multiset_ensures();
    }

    /// A function of one empty block, its entry.
    pub fn new() -> (f: Function)
        ensures
            f.inv(),
            f.blocks@.len() == 1,
            f.entry == Label(0),
            f.next_value == 0,
            f.block(Label(0)).back_refs@.len() == 0,
            f.block(Label(0)).phi_nodes@.len() == 0,
            f.block(Label(0)).ops@.len() == 0,
            f.block(Label(0)).jumps@.len() == 0,
    {
        let b = BasicBlock {
            label: Label(0),
            back_refs: Vec::new(),
            phi_nodes: Vec::new(),
            ops: Vec::new(),
            jumps: Vec::new(),
        };
        let mut blocks: Vec<Option<BasicBlock>> = Vec::new();
        blocks.push(Some(b));
        let f = Function { blocks, entry: Label(0), next_value: 0 };
        assert forall|l: Label| #[trigger] f.is_live(l) implies f.block(l).label == l
            && f.jumps_live_at(l) && f.back_refs_exact_at(l) by {
            assert(l.0 == 0);
            assert(l == Label(0));
        }
        f
    }

    /// Whether the label resolves to a block that has not been deleted.
    pub fn live(&self, l: Label) -> (r: bool)
        ensures
            r == self.is_live(l),
    {
        let i = l.0 as usize;
        i < self.blocks.len() && self.blocks[i].is_some()
    }

    /// The block under a live label.
    pub fn get(&self, l: Label) -> (b: &BasicBlock)
        requires
            self.is_live(l),
        ensures
            *b == self.block(l),
    {
        self.blocks[l.0 as usize].as_ref().unwrap()
    }
}

} // verus!
