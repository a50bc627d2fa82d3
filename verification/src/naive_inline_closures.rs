//! The pass that inlines calls of closures whose body is known.
use vstd::prelude::*;
use crate::builder::{same_edges, FunctionBuilder};
use crate::lower::{is_landing, landings_synced};
use crate::compile_pattern::{
    add_landings, copy_sources, is_fresh_landing, is_landing_block, landings_of, phis_follow_case, phis_landed_upto,
    same_phi_defs, strip_targets,
};
use crate::util::copy_labels;
use crate::ir::BasicBlock;
use crate::function::{block_arity_ok, phi_defs, Function};
use crate::ir::{Clause, FunctionIdent, Label, Op, OpKind, Pattern, Phi, Source, Value};

verus! {

/// A closure body that calls can be replaced by. The body is a graph of
/// its own. The values in `captures` stand in it for the operands that a
/// closure is bound over, in order, and the values in `params` for the
/// arguments of a call.
#[derive(Debug)]
pub struct Lambda {
    pub ident: FunctionIdent,
    pub captures: Vec<Value>,
    pub params: Vec<Value>,
    pub body: Function,
}

/// The body of `lam` binds a closure over the lambda named `ident`.
pub open spec fn binds(lam: Lambda, ident: FunctionIdent) -> bool {
    exists|i: int, k: int| binds_at(lam.body, ident, i, k)
}

/// The operation at position `k` of the block in slot `i` binds a closure
/// over the lambda named `ident`.
pub open spec fn binds_at(body: Function, ident: FunctionIdent, i: int, k: int) -> bool {
    &&& 0 <= i < body.blocks@.len()
    &&& body.blocks@[i] is Some
    &&& 0 <= k < body.blocks@[i]->Some_0.ops@.len()
    &&& body.blocks@[i]->Some_0.ops@[k].kind == (OpKind::BindClosure { ident })
}

/// The lambda at position `i` of the table reaches the one at position `j`
/// through at most `n + 1` bindings: its body binds a closure over it, or
/// over a lambda that reaches it through at most `n`.
pub open spec fn reaches(table: Seq<Lambda>, i: int, j: int, n: nat) -> bool
    decreases n,
{
    binds(table[i], table[j].ident) || (n > 0 && exists|x: int|
        0 <= x < table.len() && reaches(table, i, x, (n - 1) as nat) && binds(#[trigger] table[x], table[j].ident))
}

/// The lambda at position `i` refers to itself, directly or by a cycle of
/// bindings through other lambdas of the table. A cycle that comes back at
/// all comes back within as many bindings as the table has lambdas.
pub open spec fn self_referential(table: Seq<Lambda>, i: int) -> bool {
    reaches(table, i, i, table.len())
}

/// Whether the body of `lam` binds a closure over the lambda named
/// `ident`.
pub fn lambda_binds(lam: &Lambda, ident: FunctionIdent) -> (r: bool)
    ensures
        r == binds(*lam, ident),
{
    let body = &lam.body;
    let mut i: usize = 0;
    while i < body.blocks.len()
        invariant
            i <= body.blocks@.len(),
            *body == lam.body,
            forall|q: int, k: int| q < i ==> !binds_at(*body, ident, q, k),
        decreases body.blocks@.len() - i,
    {
        match &body.blocks[i] {
            Some(b) => {
                let mut k: usize = 0;
                while k < b.ops.len()
                    invariant
                        k <= b.ops@.len(),
                        i < body.blocks@.len(),
                        body.blocks@[i as int] == Some(*b),
                        *body == lam.body,
                        forall|q: int| 0 <= q < k ==> !binds_at(*body, ident, i as int, q),
                    decreases b.ops@.len() - k,
                {
                    match b.ops[k].kind {
                        OpKind::BindClosure { ident: other } => {
                            if other == ident {
                                assert(binds_at(*body, ident, i as int, k as int));
                                return true;
                            }
                        },
                        _ => {},
                    }
                    k += 1;
                }
            },
            None => {},
        }
        i += 1;
    }
    false
}

proof fn lemma_reaches_unfold(table: Seq<Lambda>, i: int, j: int, n: nat)
    ensures
        reaches(table, i, j, (n + 1) as nat) <==> (binds(table[i], table[j].ident) || exists|x: int|
            0 <= x < table.len() && reaches(table, i, x, n) && binds(#[trigger] table[x], table[j].ident)),
{
    let m = (n + 1) as nat;
    assert((m - 1) as nat == n);
}

/// Whether the lambda at position `i` of the table refers to itself,
/// directly or by a cycle of bindings.
pub fn is_self_referential(table: &Vec<Lambda>, i: usize) -> (r: bool)
    requires
        i < table@.len(),
    ensures
        r == self_referential(table@, i as int),
{
    let n = table.len();
    let mut reach: Vec<bool> = Vec::new();
    let mut j: usize = 0;
    while j < n
        invariant
            j <= n,
            n == table@.len(),
            i < n,
            reach@.len() == j,
            forall|q: int| 0 <= q < j ==> reach@[q] == reaches(table@, i as int, q, 0),
        decreases n - j,
    {
        reach.push(lambda_binds(&table[i], table[j].ident));
        j += 1;
    }
    let mut round: usize = 0;
    while round < n
        invariant
            round <= n,
            n == table@.len(),
            i < n,
            reach@.len() == n,
            forall|q: int| 0 <= q < n ==> reach@[q] == reaches(table@, i as int, q, round as nat),
        decreases n - round,
    {
        let mut next: Vec<bool> = Vec::new();
        let mut j: usize = 0;
        while j < n
            invariant
                j <= n,
                round < n,
                n == table@.len(),
                i < n,
                reach@.len() == n,
                forall|q: int| 0 <= q < n ==> reach@[q] == reaches(table@, i as int, q, round as nat),
                next@.len() == j,
                forall|q: int| 0 <= q < j ==> next@[q] == reaches(table@, i as int, q, (round + 1) as nat),
            decreases n - j,
        {
            let mut hit = lambda_binds(&table[i], table[j].ident);
            let mut x: usize = 0;
            proof {
                lemma_reaches_unfold(table@, i as int, j as int, round as nat);
            }
            while x < n && !hit
                invariant
                    x <= n,
                    j < n,
                    round < n,
                    n == table@.len(),
                    i < n,
                    reach@.len() == n,
                    forall|q: int| 0 <= q < n ==> reach@[q] == reaches(table@, i as int, q, round as nat),
                    hit ==> reaches(table@, i as int, j as int, (round + 1) as nat),
                    !hit ==> !binds(table@[i as int], table@[j as int].ident),
                    !hit ==> forall|q: int| 0 <= q < x ==> !(reaches(table@, i as int, q, round as nat) && binds(#[trigger] table@[q], table@[j as int].ident)),
                decreases n - x,
            {
                if reach[x] && lambda_binds(&table[x], table[j].ident) {
                    hit = true;
                    assert(reaches(table@, i as int, x as int, round as nat) && binds(table@[x as int], table@[j as int].ident));
                    proof {
                        lemma_reaches_unfold(table@, i as int, j as int, round as nat);
                    }
                }
                x += 1;
            }
            proof {
                lemma_reaches_unfold(table@, i as int, j as int, round as nat);
            }
            next.push(hit);
            j += 1;
        }
        reach = next;
        round += 1;
    }
    reach[i]
}

/// The fresh identity of a value of a body spliced in where the values
/// from `vbase` on are free: the values below `bound` move up by `vbase`.
pub open spec fn renamed_value(v: Value, vbase: u32, bound: u32) -> Value {
    if v.0 < bound {
        Value((vbase + v.0) as u32)
    } else {
        v
    }
}

/// How the operands of a body are rewritten where the body is spliced in:
/// a captured value becomes the operand that the closure was bound over, a
/// parameter the argument of the call, any other value its fresh identity.
pub struct Renaming {
    pub captures: Vec<Value>,
    pub env: Vec<Source>,
    pub params: Vec<Value>,
    pub args: Vec<Source>,
    pub vbase: u32,
    pub bound: u32,
}

/// The first position of `v` in `vs`, or the length of `vs` where it is
/// not there.
pub open spec fn position_of(vs: Seq<Value>, v: Value) -> int
    decreases vs.len(),
{
    if vs.len() == 0 {
        0
    } else if vs[0] == v {
        0
    } else {
        1 + position_of(vs.drop_first(), v)
    }
}

impl Renaming {
    pub open spec fn wf(&self) -> bool {
        &&& self.env@.len() == self.captures@.len()
        &&& self.args@.len() == self.params@.len()
        &&& self.vbase + self.bound <= u32::MAX
    }

    /// The operand that stands for `s` where the body is spliced in.
    pub open spec fn source(&self, s: Source) -> Source {
        match s {
            Source::Constant(_) => s,
            Source::Variable(v) => {
                let c = position_of(self.captures@, v);
                let p = position_of(self.params@, v);
                if c < self.captures@.len() {
                    self.env@[c]
                } else if p < self.params@.len() {
                    self.args@[p]
                } else {
                    Source::Variable(renamed_value(v, self.vbase, self.bound))
                }
            },
        }
    }

    pub fn rename_value(&self, v: Value) -> (r: Value)
        requires
            self.wf(),
        ensures
            r == renamed_value(v, self.vbase, self.bound),
    {
        if v.0 < self.bound {
            Value(self.vbase + v.0)
        } else {
            v
        }
    }

    pub fn rename_source(&self, s: Source) -> (r: Source)
        requires
            self.wf(),
        ensures
            r == self.source(s),
    {
        match s {
            Source::Constant(_) => s,
            Source::Variable(v) => {
                let c = find_value(&self.captures, v);
                if c < self.captures.len() {
                    return self.env[c];
                }
                let p = find_value(&self.params, v);
                if p < self.params.len() {
                    return self.args[p];
                }
                Source::Variable(self.rename_value(v))
            },
        }
    }

    /// The operands of an operation, rewritten.
    pub fn rename_reads(&self, reads: &Vec<Source>) -> (r: Vec<Source>)
        requires
            self.wf(),
        ensures
            r@.len() == reads@.len(),
            forall|i: int| 0 <= i < reads@.len() ==> r@[i] == self.source(#[trigger] reads@[i]),
    {
        let mut r: Vec<Source> = Vec::new();
        let mut i: usize = 0;
        while i < reads.len()
            invariant
                i <= reads@.len(),
                self.wf(),
                r@.len() == i,
                forall|q: int| 0 <= q < i ==> r@[q] == self.source(#[trigger] reads@[q]),
            decreases reads@.len() - i,
        {
            r.push(self.rename_source(reads[i]));
            i += 1;
        }
        r
    }

    /// The values that an operation defines, each with its fresh identity.
    pub fn rename_writes(&self, writes: &Vec<Value>) -> (r: Vec<Value>)
        requires
            self.wf(),
        ensures
            r@.len() == writes@.len(),
            forall|i: int| 0 <= i < writes@.len() ==> r@[i] == renamed_value(#[trigger] writes@[i], self.vbase, self.bound),
    {
        let mut r: Vec<Value> = Vec::new();
        let mut i: usize = 0;
        while i < writes.len()
            invariant
                i <= writes@.len(),
                self.wf(),
                r@.len() == i,
                forall|q: int| 0 <= q < i ==> r@[q] == renamed_value(#[trigger] writes@[q], self.vbase, self.bound),
            decreases writes@.len() - i,
        {
            r.push(self.rename_value(writes[i]));
            i += 1;
        }
        r
    }
}

/// The first position of `v` in `vs`, or the length of `vs`.
fn find_value(vs: &Vec<Value>, v: Value) -> (r: usize)
    ensures
        r == position_of(vs@, v),
        r <= vs@.len(),
{
    let mut i: usize = 0;
    assert(vs@.skip(0) == vs@);
    while i < vs.len()
        invariant
            i <= vs@.len(),
            position_of(vs@, v) == i + position_of(vs@.skip(i as int), v),
        decreases vs@.len() - i,
    {
        proof {
            assert(vs@.skip(i as int)[0] == vs@[i as int]);
            assert(vs@.skip(i as int).drop_first() == vs@.skip(i + 1));
        }
        if vs[i] == v {
            return i;
        }
        i += 1;
    }
    assert(vs@.skip(i as int).len() == 0);
    i
}

/// Pattern `q` is pattern `p` with each variable given its fresh
/// identity.
pub open spec fn pattern_renamed(p: Pattern, q: Pattern, vbase: u32, bound: u32) -> bool
    decreases p,
{
    match p {
        Pattern::Wildcard => q is Wildcard,
        Pattern::Variable(v) => q == Pattern::Variable(renamed_value(v, vbase, bound)),
        Pattern::Literal(l) => q == Pattern::Literal(l),
        Pattern::Tuple(ps) => q is Tuple && q->Tuple_0@.len() == ps@.len() && forall|i: int|
            0 <= i < ps@.len() ==> pattern_renamed(#[trigger] ps@[i], q->Tuple_0@[i], vbase, bound),
    }
}

/// The clauses `qs` are the clauses `ps` with each pattern variable given
/// its fresh identity.
pub open spec fn clauses_renamed(ps: Seq<Clause>, qs: Seq<Clause>, vbase: u32, bound: u32) -> bool {
    &&& qs.len() == ps.len()
    &&& forall|i: int| 0 <= i < ps.len() ==> {
        &&& (#[trigger] qs[i]).patterns@.len() == ps[i].patterns@.len()
        &&& forall|j: int| 0 <= j < ps[i].patterns@.len() ==> pattern_renamed(#[trigger] ps[i].patterns@[j], qs[i].patterns@[j], vbase, bound)
    }
}

/// Kind `r` is kind `kind` with each pattern variable given its fresh
/// identity.
pub open spec fn kind_renamed(kind: OpKind, r: OpKind, vbase: u32, bound: u32) -> bool {
    if kind is Case {
        r is Case && clauses_renamed(kind->Case_clauses@, r->Case_clauses@, vbase, bound)
    } else {
        r == kind
    }
}

/// A copy of a pattern with a fresh identity for each variable.
pub fn rename_pattern(p: &Pattern, ren: &Renaming) -> (q: Pattern)
    requires
        ren.wf(),
    ensures
        pattern_renamed(*p, q, ren.vbase, ren.bound),
    decreases *p,
{
    match p {
        Pattern::Wildcard => Pattern::Wildcard,
        Pattern::Variable(v) => Pattern::Variable(ren.rename_value(*v)),
        Pattern::Literal(l) => Pattern::Literal(*l),
        Pattern::Tuple(ps) => {
            let mut qs: Vec<Pattern> = Vec::new();
            let mut i: usize = 0;
            while i < ps.len()
                invariant
                    i <= ps@.len(),
                    ren.wf(),
                    *p is Tuple,
                    p->Tuple_0 == *ps,
                    qs@.len() == i,
                    forall|k: int| 0 <= k < i ==> pattern_renamed(#[trigger] ps@[k], qs@[k], ren.vbase, ren.bound),
                decreases ps@.len() - i,
            {
                let q = rename_pattern(&ps[i], ren);
                qs.push(q);
                i += 1;
            }
            Pattern::Tuple(qs)
        },
    }
}

/// A copy of the kind of an operation with a fresh identity for each
/// variable of its patterns.
pub fn rename_kind(kind: &OpKind, ren: &Renaming) -> (r: OpKind)
    requires
        ren.wf(),
    ensures
        r.jump_count() == kind.jump_count(),
        kind_renamed(*kind, r, ren.vbase, ren.bound),
{
    match kind {
        OpKind::Move => OpKind::Move,
        OpKind::Call => OpKind::Call,
        OpKind::Apply => OpKind::Apply,
        OpKind::CaptureNamedFunction(f) => OpKind::CaptureNamedFunction(*f),
        OpKind::MakeTuple => OpKind::MakeTuple,
        OpKind::MakeList => OpKind::MakeList,
        OpKind::MakeClosureEnv { env_idx } => OpKind::MakeClosureEnv { env_idx: *env_idx },
        OpKind::BindClosure { ident } => OpKind::BindClosure { ident: *ident },
        OpKind::Case { clauses } => {
            let mut out: Vec<Clause> = Vec::new();
            let mut i: usize = 0;
            while i < clauses.len()
                invariant
                    i <= clauses@.len(),
                    ren.wf(),
                    out@.len() == i,
                    forall|q: int| 0 <= q < i ==> {
                        &&& (#[trigger] out@[q]).patterns@.len() == clauses@[q].patterns@.len()
                        &&& forall|j: int| 0 <= j < clauses@[q].patterns@.len() ==> pattern_renamed(#[trigger] clauses@[q].patterns@[j], out@[q].patterns@[j], ren.vbase, ren.bound)
                    },
                decreases clauses@.len() - i,
            {
                let ps = &clauses[i].patterns;
                let mut qs: Vec<Pattern> = Vec::new();
                let mut j: usize = 0;
                while j < ps.len()
                    invariant
                        j <= ps@.len(),
                        ren.wf(),
                        qs@.len() == j,
                        forall|q: int| 0 <= q < j ==> pattern_renamed(#[trigger] ps@[q], qs@[q], ren.vbase, ren.bound),
                    decreases ps@.len() - j,
                {
                    qs.push(rename_pattern(&ps[j], ren));
                    j += 1;
                }
                out.push(Clause { patterns: qs });
                i += 1;
            }
            OpKind::Case { clauses: out }
        },
        OpKind::IsLiteral(l) => OpKind::IsLiteral(*l),
        OpKind::UnpackTuple { arity } => OpKind::UnpackTuple { arity: *arity },
        OpKind::MatchFail => OpKind::MatchFail,
        OpKind::Jump => OpKind::Jump,
        OpKind::PrimOp(a) => OpKind::PrimOp(*a),
        OpKind::ReturnOk => OpKind::ReturnOk,
        OpKind::ReturnThrow => OpKind::ReturnThrow,
    }
}

/// Operation `dst` is the copy of `src`: the same kind, but for the
/// identities of pattern variables, with the operands rewritten and the
/// values defined given their fresh identities.
pub open spec fn op_renamed(src: Op, dst: Op, ren: Renaming) -> bool {
    &&& dst.kind.jump_count() == src.kind.jump_count()
    &&& kind_renamed(src.kind, dst.kind, ren.vbase, ren.bound)
    &&& dst.reads@.len() == src.reads@.len()
    &&& forall|i: int| 0 <= i < src.reads@.len() ==> dst.reads@[i] == ren.source(#[trigger] src.reads@[i])
    &&& dst.writes@.len() == src.writes@.len()
    &&& forall|i: int| 0 <= i < src.writes@.len() ==> dst.writes@[i] == renamed_value(#[trigger] src.writes@[i], ren.vbase, ren.bound)
}

/// Phi node `dst` is the copy of `src`: it defines the fresh identity of
/// the value, and has for the copy of each predecessor the rewritten
/// operand.
pub open spec fn phi_copied(src: Phi, dst: Phi, ren: Renaming, map: Seq<Label>) -> bool {
    &&& dst.ssa == renamed_value(src.ssa, ren.vbase, ren.bound)
    &&& dst.entries@.len() == src.entries@.len()
    &&& forall|i: int| 0 <= i < src.entries@.len() ==> dst.entries@[i] == (map[(#[trigger] src.entries@[i]).0.0 as int], ren.source(src.entries@[i].1))
}

/// The phi nodes `dst` are the copies of the phi nodes `src`.
pub open spec fn phis_copied(src: Seq<Phi>, dst: Seq<Phi>, ren: Renaming, map: Seq<Label>) -> bool {
    &&& dst.len() == src.len()
    &&& forall|j: int| 0 <= j < src.len() ==> phi_copied(#[trigger] src[j], dst[j], ren, map)
}

/// The operand that the copy of a return hands to its landing block.
pub open spec fn returned_source(op: Op, ren: Renaming) -> Source {
    if op.reads@.len() > 0 {
        ren.source(op.reads@[0])
    } else {
        Source::Constant(crate::ir::AtomicLiteral::Nil)
    }
}

/// Block `nl` of `g` ends as the copy of a block that ended in the return
/// `op`: in a jump to the landing block `e`, whose phi node for the value
/// `w` of the call has the returned operand for `nl`.
pub open spec fn return_copied(g: Function, nl: Label, e: Label, op: Op, ren: Renaming, w: Value) -> bool {
    &&& g.block(nl).ops@.last().kind == OpKind::Jump
    &&& g.block(nl).ops@.last().writes@.len() == 0
    &&& g.block(nl).jumps@ == seq![e]
    &&& forall|j: int| 0 <= j < g.block(e).phi_nodes@.len() && (#[trigger] g.block(e).phi_nodes@[j]).ssa == w ==> g.block(e).phi_nodes@[j].entries@.contains((nl, returned_source(op, ren)))
}

/// The operations and successors of block `nl` of `g` are the copies of
/// those of the body block `src`.
pub open spec fn ops_copied(src: BasicBlock, g: Function, nl: Label, ren: Renaming, map: Seq<Label>, landing: nat, w_ok: Value, w_exc: Value) -> bool {
    let dst = g.block(nl);
    &&& dst.ops@.len() == src.ops@.len()
    &&& forall|k: int| 0 <= k < src.ops@.len() - 1 ==> op_renamed(#[trigger] src.ops@[k], dst.ops@[k], ren)
    &&& if src.ops@.last().kind is ReturnOk {
        return_copied(g, nl, Label(landing as u32), src.ops@.last(), ren, w_ok)
    } else if src.ops@.last().kind is ReturnThrow {
        return_copied(g, nl, Label((landing + 1) as u32), src.ops@.last(), ren, w_exc)
    } else {
        &&& op_renamed(src.ops@.last(), dst.ops@.last(), ren)
        &&& dst.jumps@.len() == src.jumps@.len()
        &&& forall|k: int| 0 <= k < src.jumps@.len() ==> dst.jumps@[k] == map[(#[trigger] src.jumps@[k]).0 as int]
    }
}

/// Block `nl` of `g` is the copy of the body block `src`: its phi nodes
/// and its operations are the copies of those of `src`. Where `src`
/// returns, the copy jumps to a landing block: `landing` for a result,
/// `landing + 1` for an exception. Otherwise its successors are the copies
/// of the successors of `src`.
pub open spec fn block_copied(src: BasicBlock, g: Function, nl: Label, ren: Renaming, map: Seq<Label>, landing: nat, w_ok: Value, w_exc: Value) -> bool {
    &&& g.is_live(nl)
    &&& phis_copied(src.phi_nodes@, g.block(nl).phi_nodes@, ren, map)
    &&& ops_copied(src, g, nl, ren, map, landing, w_ok, w_exc)
}

/// What the copying of a body block into block `nl` leaves alone: the
/// arena and its live blocks, and of every other block the code and the
/// successors; the phi nodes too, but for the landing blocks.
pub open spec fn copy_frame(f: Function, g: Function, nl: Label, landing: nat) -> bool {
    &&& g.blocks@.len() == f.blocks@.len()
    &&& g.entry == f.entry
    &&& g.next_value == f.next_value
    &&& forall|l: Label| #[trigger] g.is_live(l) == f.is_live(l)
    &&& forall|l: Label| #[trigger]
        f.is_live(l) ==> {
            &&& g.block(l).label == f.block(l).label
            &&& l != nl ==> g.block(l).ops == f.block(l).ops && g.block(l).jumps == f.block(l).jumps
            &&& l != nl && !is_landing(l, landing, 2) ==> g.block(l).phi_nodes == f.block(l).phi_nodes
            &&& is_landing(l, landing, 2) ==> same_phi_defs(f, g, l) && crate::lower::phis_grown_at(f, g, l)
        }
}

proof fn lemma_copy_frame_trans(f: Function, g: Function, h: Function, nl: Label, landing: nat)
    requires
        copy_frame(f, g, nl, landing),
        copy_frame(g, h, nl, landing),
    ensures
        copy_frame(f, h, nl, landing),
{
    assert forall|l: Label| #[trigger] h.is_live(l) == f.is_live(l) by {
        assert(g.is_live(l) == f.is_live(l));
    }
    assert forall|l: Label| #[trigger] f.is_live(l) implies {
        &&& h.block(l).label == f.block(l).label
        &&& l != nl ==> h.block(l).ops == f.block(l).ops && h.block(l).jumps == f.block(l).jumps
        &&& l != nl && !is_landing(l, landing, 2) ==> h.block(l).phi_nodes == f.block(l).phi_nodes
        &&& is_landing(l, landing, 2) ==> same_phi_defs(f, h, l) && crate::lower::phis_grown_at(f, h, l)
    } by {
        assert(g.is_live(l));
        if is_landing(l, landing, 2) {
            crate::lower::lemma_phis_grown_trans(f, g, h, l);
        }
    }
}

/// Landing blocks that keep their phi nodes and back-references stay in
/// step.
proof fn lemma_landings_kept(f: Function, g: Function, landing: nat)
    requires
        landings_synced(f, landing, 2),
        forall|l: Label| #[trigger] is_landing(l, landing, 2) ==> g.is_live(l) && g.block(l).phi_nodes == f.block(l).phi_nodes && g.block(l).back_refs == f.block(l).back_refs,
    ensures
        landings_synced(g, landing, 2),
{
    assert forall|l: Label| #[trigger] is_landing(l, landing, 2) implies {
        &&& g.is_live(l)
        &&& forall|j: int| 0 <= j < g.block(l).phi_nodes@.len() ==> (#[trigger] g.block(l).phi_nodes@[j]).preds() == g.block(l).back_refs@
    } by {
        assert(f.is_live(l));
        assert forall|j: int| 0 <= j < g.block(l).phi_nodes@.len() implies (#[trigger] g.block(l).phi_nodes@[j]).preds() == g.block(l).back_refs@ by {
            assert(f.block(l).phi_nodes@[j].preds() == f.block(l).back_refs@);
        }
    }
}

/// Every successor of the body block has a live copy that is no landing
/// block.
pub open spec fn targets_mapped(g: Function, src: BasicBlock, map: Seq<Label>, landing: nat) -> bool {
    forall|k: int| 0 <= k < src.jumps@.len() ==> {
        &&& (#[trigger] src.jumps@[k]).0 < map.len()
        &&& g.is_live(map[src.jumps@[k].0 as int])
        &&& !is_landing(map[src.jumps@[k].0 as int], landing, 2)
    }
}

/// Copies the phi nodes of a body block into block `nl`, which has none.
fn copy_phis(b: &mut FunctionBuilder, src: &BasicBlock, nl: Label, map: &Vec<Label>, ren: &Renaming, Ghost(landing): Ghost<nat>)
    requires
        old(b)@.inv(),
        ren.wf(),
        old(b)@.is_live(nl),
        old(b)@.block(nl).phi_nodes@.len() == 0,
        !is_landing(nl, landing, 2),
        landings_synced(old(b)@, landing, 2),
        forall|j: int, i: int| 0 <= j < src.phi_nodes@.len() && 0 <= i < src.phi_nodes@[j].entries@.len() ==> (#[trigger] src.phi_nodes@[j].entries@[i]).0.0 < map@.len(),
    ensures
        final(b)@.inv(),
        landings_synced(final(b)@, landing, 2),
        copy_frame(old(b)@, final(b)@, nl, landing),
        same_edges(old(b)@, final(b)@),
        final(b)@.block(nl).ops == old(b)@.block(nl).ops,
        final(b)@.block(nl).jumps == old(b)@.block(nl).jumps,
        phis_copied(src.phi_nodes@, final(b)@.block(nl).phi_nodes@, *ren, map@),
{
    let ghost o = b@;
    let mut i: usize = 0;
    while i < src.phi_nodes.len()
        invariant
            i <= src.phi_nodes@.len(),
            ren.wf(),
            o.is_live(nl),
            !is_landing(nl, landing, 2),
            b@.inv(),
            landings_synced(b@, landing, 2),
            copy_frame(o, b@, nl, landing),
            same_edges(o, b@),
            b@.block(nl).ops == o.block(nl).ops,
            b@.block(nl).jumps == o.block(nl).jumps,
            b@.block(nl).phi_nodes@.len() == i,
            forall|j: int| 0 <= j < i ==> phi_copied(#[trigger] src.phi_nodes@[j], b@.block(nl).phi_nodes@[j], *ren, map@),
            forall|j: int, q: int| 0 <= j < src.phi_nodes@.len() && 0 <= q < src.phi_nodes@[j].entries@.len() ==> (#[trigger] src.phi_nodes@[j].entries@[q]).0.0 < map@.len(),
        decreases src.phi_nodes@.len() - i,
    {
        let phi = &src.phi_nodes[i];
        let ghost pre = b@;
        assert(pre.is_live(nl));
        let k = b.add_phi(nl, ren.rename_value(phi.ssa));
        proof {
            lemma_step_keeps(o, pre, b@, nl, landing);
            assert forall|j: int| 0 <= j < i implies b@.block(nl).phi_nodes@[j] == pre.block(nl).phi_nodes@[j] by {
                assert(b@.block(nl).phi_nodes@.take(k as int)[j] == b@.block(nl).phi_nodes@[j]);
            }
        }
        let ghost mid = b@;
        let mut j: usize = 0;
        while j < phi.entries.len()
            invariant
                j <= phi.entries@.len(),
                ren.wf(),
                o.is_live(nl),
                !is_landing(nl, landing, 2),
                b@.inv(),
                landings_synced(b@, landing, 2),
                copy_frame(o, b@, nl, landing),
                same_edges(o, b@),
                b@.block(nl).ops == o.block(nl).ops,
                b@.block(nl).jumps == o.block(nl).jumps,
                k == i,
                i < src.phi_nodes@.len(),
                *phi == src.phi_nodes@[i as int],
                b@.block(nl).phi_nodes@.len() == i + 1,
                forall|q: int| 0 <= q < i ==> #[trigger] b@.block(nl).phi_nodes@[q] == mid.block(nl).phi_nodes@[q],
                b@.block(nl).phi_nodes@[k as int].ssa == renamed_value(phi.ssa, ren.vbase, ren.bound),
                b@.block(nl).phi_nodes@[k as int].entries@.len() == j,
                forall|q: int| 0 <= q < j ==> b@.block(nl).phi_nodes@[k as int].entries@[q] == (map@[(#[trigger] phi.entries@[q]).0.0 as int], ren.source(phi.entries@[q].1)),
                forall|q: int| 0 <= q < phi.entries@.len() ==> (#[trigger] phi.entries@[q]).0.0 < map@.len(),
            decreases phi.entries@.len() - j,
        {
            let (p, s) = phi.entries[j];
            let ghost pre2 = b@;
            assert(pre2.is_live(nl));
            assert(phi.entries@[j as int].0.0 < map@.len());
            b.add_phi_entry(nl, k, map[p.0 as usize], ren.rename_source(s));
            proof {
                lemma_step_keeps(o, pre2, b@, nl, landing);
            }
            j += 1;
        }
        i += 1;
    }
}

/// A change to the phi nodes of block `nl` alone keeps what the copying
/// keeps.
proof fn lemma_step_keeps(o: Function, pre: Function, g: Function, nl: Label, landing: nat)
    requires
        copy_frame(o, pre, nl, landing),
        same_edges(o, pre),
        landings_synced(pre, landing, 2),
        !is_landing(nl, landing, 2),
        crate::builder::only_block_changed(pre, g, nl),
        same_edges(pre, g),
        g.block(nl).ops == pre.block(nl).ops,
        pre.block(nl).ops == o.block(nl).ops,
        pre.block(nl).jumps == o.block(nl).jumps,
    ensures
        copy_frame(o, g, nl, landing),
        same_edges(o, g),
        landings_synced(g, landing, 2),
        g.block(nl).ops == o.block(nl).ops,
        g.block(nl).jumps == o.block(nl).jumps,
{
    assert forall|l: Label| #[trigger] g.is_live(l) == o.is_live(l) by {
        assert(pre.is_live(l) == o.is_live(l));
        assert(pre.is_live(l) == g.is_live(l));
    }
    assert forall|l: Label| #[trigger] o.is_live(l) implies {
        &&& g.block(l).label == o.block(l).label
        &&& g.block(l).jumps == o.block(l).jumps
        &&& g.block(l).back_refs == o.block(l).back_refs
        &&& l != nl ==> g.block(l).ops == o.block(l).ops
        &&& l != nl && !is_landing(l, landing, 2) ==> g.block(l).phi_nodes == o.block(l).phi_nodes
        &&& is_landing(l, landing, 2) ==> same_phi_defs(o, g, l) && crate::lower::phis_grown_at(o, g, l)
    } by {
        assert(pre.is_live(l));
        if l != nl {
            assert(g.blocks@[l.0 as int] == pre.blocks@[l.0 as int]);
        }
    }
    assert forall|l: Label| #[trigger] is_landing(l, landing, 2) implies g.is_live(l) && g.block(l).phi_nodes == pre.block(l).phi_nodes
        && g.block(l).back_refs == pre.block(l).back_refs by {
        assert(pre.is_live(l));
        assert(g.blocks@[l.0 as int] == pre.blocks@[l.0 as int]);
    }
    lemma_landings_kept(pre, g, landing);
}

/// Copies the operations of a body block into block `nl`, which has none
/// and no successors yet. A return becomes a jump to the landing block of
/// the call's continuation, which gets the returned operand as a phi
/// entry: `landing` for a result, `landing + 1` for an exception. Any
/// other successor is the copy of the body's successor.
fn copy_ops(b: &mut FunctionBuilder, src: &BasicBlock, nl: Label, map: &Vec<Label>, ren: &Renaming, landing: u32, w_ok: Value, w_exc: Value)
    requires
        old(b)@.inv(),
        ren.wf(),
        old(b)@.is_live(nl),
        !is_landing(nl, landing as nat, 2),
        old(b)@.block(nl).jumps@.len() == 0,
        old(b)@.block(nl).ops@.len() == 0,
        landings_synced(old(b)@, landing as nat, 2),
        landing + 2 <= old(b)@.blocks@.len(),
        block_arity_ok(*src),
        targets_mapped(old(b)@, *src, map@, landing as nat),
    ensures
        final(b)@.inv(),
        landings_synced(final(b)@, landing as nat, 2),
        copy_frame(old(b)@, final(b)@, nl, landing as nat),
        final(b)@.block(nl).phi_nodes == old(b)@.block(nl).phi_nodes,
        ops_copied(*src, final(b)@, nl, *ren, map@, landing as nat, w_ok, w_exc),
{
    let ghost o = b@;
    let ghost lb = landing as nat;
    let n = src.ops.len();
    let mut k: usize = 0;
    while k < n - 1
        invariant
            k <= n - 1,
            n == src.ops@.len(),
            block_arity_ok(*src),
            ren.wf(),
            o.is_live(nl),
            !is_landing(nl, lb, 2),
            b@.inv(),
            b@.block(nl).jumps@.len() == 0,
            landings_synced(b@, lb, 2),
            copy_frame(o, b@, nl, lb),
            b@.block(nl).phi_nodes == o.block(nl).phi_nodes,
            b@.block(nl).ops@.len() == k,
            forall|q: int| 0 <= q < k ==> op_renamed(#[trigger] src.ops@[q], b@.block(nl).ops@[q], *ren),
        decreases n - k,
    {
        let op = &src.ops[k];
        let ghost pre = b@;
        assert(pre.is_live(nl));
        let new_op = Op { kind: rename_kind(&op.kind, ren), reads: ren.rename_reads(&op.reads), writes: ren.rename_writes(&op.writes) };
        b.append_op(nl, new_op, Vec::new());
        proof {
            let g = b@;
            assert(g.block(nl).ops@[k as int] == new_op);
            assert forall|q: int| 0 <= q < k + 1 implies op_renamed(#[trigger] src.ops@[q], g.block(nl).ops@[q], *ren) by {
                if q < k {
                    assert(g.block(nl).ops@[q] == pre.block(nl).ops@[q]);
                }
            }
            assert forall|l: Label| #[trigger] is_landing(l, lb, 2) implies g.is_live(l) && g.block(l).phi_nodes == pre.block(l).phi_nodes
                && g.block(l).back_refs == pre.block(l).back_refs by {
                assert(pre.is_live(l));
            }
            lemma_landings_kept(pre, g, lb);
            assert(copy_frame(pre, g, nl, lb));
            lemma_copy_frame_trans(o, pre, g, nl, lb);
        }
        k += 1;
    }
    let op = &src.ops[n - 1];
    let ghost pre = b@;
    assert(pre.is_live(nl));
    let ret_ok = match op.kind {
        OpKind::ReturnOk => true,
        _ => false,
    };
    let ret_throw = match op.kind {
        OpKind::ReturnThrow => true,
        _ => false,
    };
    if ret_ok || ret_throw {
        let cols = ren.rename_reads(&op.reads);
        let mut bindings: Vec<(Value, usize)> = Vec::new();
        if cols.len() > 0 {
            bindings.push((if ret_ok { w_ok } else { w_exc }, 0));
        }
        let e = if ret_ok {
            Label(landing)
        } else {
            Label(landing + 1)
        };
        crate::lower::emit_leaf(b, nl, e, &bindings, &cols, Ghost(lb), Ghost(2));
        proof {
            let g = b@;
            let w = if ret_ok { w_ok } else { w_exc };
            assert(g.block(nl).ops@.len() == n) by {
                assert(g.block(nl).ops@.drop_last().len() == n - 1);
            }
            assert forall|q: int| 0 <= q < n - 1 implies op_renamed(#[trigger] src.ops@[q], g.block(nl).ops@[q], *ren) by {
                assert(g.block(nl).ops@[q] == g.block(nl).ops@.drop_last()[q]);
            }
            assert forall|j: int| 0 <= j < g.block(e).phi_nodes@.len() && (#[trigger] g.block(e).phi_nodes@[j]).ssa == w implies g.block(e).phi_nodes@[j].entries@.contains(
                (nl, returned_source(*op, *ren)),
            ) by {
                if cols@.len() > 0 {
                    assert(bindings@[0] == (w, 0usize));
                    assert(crate::lower::leaf_source(bindings@, cols@, w) == cols@[0]);
                } else {
                    assert(bindings@.len() == 0);
                }
            }
            assert forall|l: Label| #[trigger] g.is_live(l) == pre.is_live(l) by {}
            assert forall|l: Label| #[trigger] pre.is_live(l) && is_landing(l, lb, 2) implies same_phi_defs(pre, g, l) by {
                assert(crate::lower::phis_grown_at(pre, g, l));
                assert(phi_defs(g.block(l).phi_nodes@) =~= phi_defs(pre.block(l).phi_nodes@));
            }
            assert(copy_frame(pre, g, nl, lb));
            lemma_copy_frame_trans(o, pre, g, nl, lb);
        }
    } else {
        let mut targets: Vec<Label> = Vec::new();
        let mut j: usize = 0;
        while j < src.jumps.len()
            invariant
                j <= src.jumps@.len(),
                targets@.len() == j,
                targets_mapped(o, *src, map@, lb),
                forall|q: int| 0 <= q < j ==> o.is_live(#[trigger] targets@[q]) && !is_landing(targets@[q], lb, 2),
                forall|q: int| 0 <= q < j ==> targets@[q] == map@[(#[trigger] src.jumps@[q]).0 as int],
            decreases src.jumps@.len() - j,
        {
            let t = src.jumps[j];
            assert(src.jumps@[j as int].0 < map@.len());
            targets.push(map[t.0 as usize]);
            j += 1;
        }
        let new_op = Op { kind: rename_kind(&op.kind, ren), reads: ren.rename_reads(&op.reads), writes: ren.rename_writes(&op.writes) };
        proof {
            assert forall|q: int| 0 <= q < targets@.len() implies pre.is_live(#[trigger] targets@[q]) by {
                assert(o.is_live(targets@[q]));
            }
            assert forall|l: Label| !pre.block(l).back_refs@.contains(nl) || !pre.is_live(l) by {
                if pre.is_live(l) {
                    assert(pre.back_refs_exact_at(l));
                    assert(pre.block(l).back_refs@.contains(nl) <==> pre.edge(nl, l));
                }
            }
        }
        b.append_op(nl, new_op, targets);
        proof {
            let g = b@;
            assert(g.block(nl).ops@.last() == new_op);
            assert forall|q: int| 0 <= q < n - 1 implies op_renamed(#[trigger] src.ops@[q], g.block(nl).ops@[q], *ren) by {
                assert(g.block(nl).ops@[q] == pre.block(nl).ops@[q]);
            }
            assert forall|l: Label| #[trigger] is_landing(l, lb, 2) implies g.is_live(l) && g.block(l).phi_nodes == pre.block(l).phi_nodes
                && g.block(l).back_refs == pre.block(l).back_refs by {
                assert(pre.is_live(l));
                if targets@.contains(l) {
                    let q = choose|q: int| 0 <= q < targets@.len() && targets@[q] == l;
                    assert(!is_landing(targets@[q], lb, 2));
                }
            }
            lemma_landings_kept(pre, g, lb);
            assert(copy_frame(pre, g, nl, lb));
            lemma_copy_frame_trans(o, pre, g, nl, lb);
        }
    }
}

/// The operation at position `k` of block `l` binds the closure value
/// `cv`.
pub open spec fn is_binding(f: Function, cv: Value, l: Label, k: int) -> bool {
    &&& f.is_live(l)
    &&& 0 <= k < f.block(l).ops@.len()
    &&& f.block(l).ops@[k].kind is BindClosure
    &&& f.block(l).ops@[k].writes@.len() == 1
    &&& f.block(l).ops@[k].writes@[0] == cv
}

/// The first operation of the function, in label order and then in
/// operation order, that binds the closure value `cv`.
pub open spec fn is_first_binding(f: Function, cv: Value, l: Label, k: int) -> bool {
    &&& is_binding(f, cv, l, k)
    &&& forall|l2: Label, k2: int| (l2.0 < l.0 || (l2 == l && k2 < k)) ==> !is_binding(f, cv, l2, k2)
}

/// The first lambda of the table that is named `ident`.
pub open spec fn is_first_lambda(table: Seq<Lambda>, ident: FunctionIdent, i: int) -> bool {
    &&& 0 <= i < table.len()
    &&& table[i].ident == ident
    &&& forall|j: int| 0 <= j < i ==> (#[trigger] table[j]).ident != ident
}

fn find_binding(f: &Function, cv: Value) -> (r: Option<(Label, usize)>)
    requires
        f.blocks@.len() <= u32::MAX,
    ensures
        match r {
            Some((l, k)) => is_first_binding(*f, cv, l, k as int),
            None => forall|l: Label, k: int| !is_binding(*f, cv, l, k),
        },
{
    let mut i: usize = 0;
    while i < f.blocks.len()
        invariant
            i <= f.blocks@.len() <= u32::MAX,
            forall|l: Label, k: int| l.0 < i ==> !is_binding(*f, cv, l, k),
        decreases f.blocks@.len() - i,
    {
        match &f.blocks[i] {
            Some(b) => {
                let l = Label(i as u32);
                let mut k: usize = 0;
                while k < b.ops.len()
                    invariant
                        k <= b.ops@.len(),
                        f.is_live(l),
                        l.0 == i,
                        *b == f.block(l),
                        forall|l2: Label, k2: int| l2.0 < i ==> !is_binding(*f, cv, l2, k2),
                        forall|q: int| 0 <= q < k ==> !is_binding(*f, cv, l, q),
                    decreases b.ops@.len() - k,
                {
                    let op = &b.ops[k];
                    let is_bind = match op.kind {
                        OpKind::BindClosure { .. } => true,
                        _ => false,
                    };
                    if is_bind && op.writes.len() == 1 && op.writes[0] == cv {
                        return Some((l, k));
                    }
                    k += 1;
                }
                assert forall|l2: Label, k2: int| l2.0 < i + 1 implies !is_binding(*f, cv, l2, k2) by {
                    if l2.0 == i {
                        assert(l2 == l);
                    }
                }
            },
            None => {},
        }
        i += 1;
    }
    None
}

fn find_lambda(table: &Vec<Lambda>, ident: FunctionIdent) -> (r: Option<usize>)
    ensures
        match r {
            Some(i) => is_first_lambda(table@, ident, i as int),
            None => forall|j: int| 0 <= j < table@.len() ==> (#[trigger] table@[j]).ident != ident,
        },
{
    let mut i: usize = 0;
    while i < table.len()
        invariant
            i <= table@.len(),
            forall|j: int| 0 <= j < i ==> (#[trigger] table@[j]).ident != ident,
        decreases table@.len() - i,
    {
        if table[i].ident == ident {
            return Some(i);
        }
        i += 1;
    }
    None
}

fn copy_values(v: &Vec<Value>) -> (r: Vec<Value>)
    ensures
        r@ == v@,
{
    let mut r: Vec<Value> = Vec::new();
    let mut i: usize = 0;
    while i < v.len()
        invariant
            i <= v@.len(),
            r@ == v@.take(i as int),
        decreases v@.len() - i,
    {
        r.push(v[i]);
        assert(v@.take(i + 1) == v@.take(i as int).push(v@[i as int]));
        i += 1;
    }
    assert(v@.take(i as int) == v@);
    r
}

/// Block `c` ends in a call of a closure value, with a value for the
/// result and one for the exception, and a continuation for each.
pub open spec fn is_call_site(f: Function, c: Label) -> bool {
    let b = f.block(c);
    &&& f.is_live(c)
    &&& b.ops@.len() > 0
    &&& b.ops@.last().kind is Apply
    &&& b.ops@.last().reads@.len() > 0
    &&& b.ops@.last().reads@[0] is Variable
    &&& b.ops@.last().writes@.len() == 2
    &&& b.jumps@.len() == 2
}

/// The closure value that the call at the end of block `c` calls.
pub open spec fn callee(f: Function, c: Label) -> Value {
    f.block(c).ops@.last().reads@[0]->Variable_0
}

/// The call at the end of block `c` calls a closure that is bound by the
/// operation at position `k` of block `l` over the lambda at position `i`
/// of the table.
pub open spec fn resolves_to(f: Function, table: Seq<Lambda>, c: Label, l: Label, k: int, i: int) -> bool {
    &&& is_call_site(f, c)
    &&& is_first_binding(f, callee(f, c), l, k)
    &&& is_first_lambda(table, f.block(l).ops@[k].kind->BindClosure_ident, i)
}

/// The call at the end of block `c` calls a closure whose body is not
/// known: nothing binds the value in this function, or the table has no
/// lambda of the name.
pub open spec fn unresolved(f: Function, table: Seq<Lambda>, c: Label) -> bool {
    &&& is_call_site(f, c)
    &&& forall|l: Label, k: int, i: int| !resolves_to(f, table, c, l, k, i)
}

/// The lambda fits the binding and the call: as many captured values as
/// the closure is bound over, as many parameters as the call has
/// arguments, a sound body that defines no value beyond its counter of
/// fresh values, and no phi nodes where the body is entered.
pub open spec fn fits(f: Function, lam: Lambda, c: Label, l: Label, k: int) -> bool {
    &&& lam.captures@.len() == f.block(l).ops@[k].reads@.len()
    &&& lam.params@.len() == f.block(c).ops@.last().reads@.len() - 1
    &&& lam.body.valid()
    &&& crate::ssa::defs_below(lam.body)
    &&& lam.body.block(lam.body.entry).phi_nodes@.len() == 0
}

/// The graph has room for the body: two landing blocks and a block for
/// each slot of the body's arena, and as many values as the body has
/// taken.
pub open spec fn has_inline_room(f: Function, lam: Lambda) -> bool {
    f.blocks@.len() + 2 + lam.body.blocks@.len() <= u32::MAX && f.next_value + lam.body.next_value <= u32::MAX
}

/// Where a call was resolved: the operation that binds the closure, and
/// the position in the table of the lambda it is bound over.
#[derive(Debug, Clone, Copy, PartialEq, Eq, Structural, Hash)]
pub struct Resolution {
    pub block: Label,
    pub op: usize,
    pub lambda: usize,
}

/// What became of a block whose call was to be inlined.
#[derive(Debug, Clone, Copy, PartialEq, Eq, Structural, Hash)]
pub enum InlineOutcome {
    /// The block does not end in a call of a closure value.
    NotACall,
    /// The body of the closure is not known.
    UnknownClosure,
    /// The lambda refers to itself. Nothing was changed.
    SelfReferential(Resolution),
    /// The lambda does not fit the binding or the call, or its body is not
    /// sound. Nothing was changed.
    Unfit(Resolution),
    /// The graph has no room for the body. Nothing was changed.
    TooLarge(Resolution),
    /// The call was replaced by the body, which is entered at this block.
    Inlined(Resolution, Label),
}

/// From `f` to `g` the call that ended block `c` has been replaced by a
/// jump into a copy of `body`, entered at `entry`, with operands rewritten
/// by `ren`. The first
/// two new blocks are the landing blocks of the call's continuations: the
/// first has the phi node for the call's result and jumps on to the
/// continuation for a result, the second the same for an exception. The
/// values of the body have the fresh identities from the next value of `f`
/// on. What else was there has kept its code.
pub open spec fn call_inlined(f: Function, g: Function, c: Label, body: Function, entry: Label, ren: Renaming) -> bool {
    let landing = f.blocks@.len() as nat;
    let call = f.block(c).ops@.last();
    &&& g.blocks@.len() == landing + 2 + live_before(body, body.blocks@.len() as int)
    &&& g.next_value == f.next_value + body.next_value
    &&& g.entry == f.entry
    &&& crate::lower::none_revived(f, g)
    &&& g.is_live(entry)
    &&& entry == copy_label(body, landing, body.entry.0 as int)
    &&& body_copied(g, body, ren, landing, call.writes@[0], call.writes@[1])
    &&& g.block(c).ops@.len() == f.block(c).ops@.len()
    &&& g.block(c).ops@.drop_last() == f.block(c).ops@.drop_last()
    &&& g.block(c).ops@.last().kind == OpKind::Jump
    &&& g.block(c).ops@.last().writes@.len() == 0
    &&& g.block(c).jumps@ == seq![entry]
    &&& forall|l: Label| #[trigger]
        f.is_live(l) ==> {
            &&& g.is_live(l)
            &&& g.block(l).label == f.block(l).label
            &&& phis_follow_case(f, g, c, l)
            &&& l != c ==> g.block(l).ops == f.block(l).ops && g.block(l).jumps == f.block(l).jumps
        }
    &&& is_landing_block(g, Label(landing as u32), f.block(c).jumps@[0], seq![call.writes@[0]])
    &&& is_landing_block(g, Label((landing + 1) as u32), f.block(c).jumps@[1], seq![call.writes@[1]])
    &&& landings_synced(g, landing, 2)
}

/// What one call of `inline_call` does to the graph, outcome by outcome.
pub open spec fn inline_result(f: Function, g: Function, table: Seq<Lambda>, c: Label, r: InlineOutcome) -> bool {
    match r {
        InlineOutcome::NotACall => !is_call_site(f, c) && g == f,
        InlineOutcome::UnknownClosure => unresolved(f, table, c) && g == f,
        InlineOutcome::SelfReferential(at) => {
            &&& resolves_to(f, table, c, at.block, at.op as int, at.lambda as int)
            &&& self_referential(table, at.lambda as int)
            &&& g == f
        },
        InlineOutcome::Unfit(at) => {
            &&& resolves_to(f, table, c, at.block, at.op as int, at.lambda as int)
            &&& !self_referential(table, at.lambda as int)
            &&& !fits(f, table[at.lambda as int], c, at.block, at.op as int)
            &&& g == f
        },
        InlineOutcome::TooLarge(at) => {
            &&& resolves_to(f, table, c, at.block, at.op as int, at.lambda as int)
            &&& !self_referential(table, at.lambda as int)
            &&& fits(f, table[at.lambda as int], c, at.block, at.op as int)
            &&& !has_inline_room(f, table[at.lambda as int])
            &&& g == f
        },
        InlineOutcome::Inlined(at, entry) => {
            &&& resolves_to(f, table, c, at.block, at.op as int, at.lambda as int)
            &&& !self_referential(table, at.lambda as int)
            &&& fits(f, table[at.lambda as int], c, at.block, at.op as int)
            &&& has_inline_room(f, table[at.lambda as int])
            &&& exists|ren: Renaming| #[trigger] renaming_of(ren, f, table[at.lambda as int], c, at) && call_inlined(f, g, c, table[at.lambda as int].body, entry, ren)
        },
    }
}

/// A closure value has at most one first binding.
proof fn lemma_first_binding_unique(f: Function, cv: Value, l1: Label, k1: int, l2: Label, k2: int)
    requires
        is_first_binding(f, cv, l1, k1),
        is_first_binding(f, cv, l2, k2),
    ensures
        l1 == l2 && k1 == k2,
{
    if l1.0 < l2.0 || (l1 == l2 && k1 < k2) {
        assert(!is_binding(f, cv, l1, k1));
    }
    if l2.0 < l1.0 || (l2 == l1 && k2 < k1) {
        assert(!is_binding(f, cv, l2, k2));
    }
}

/// The number of live blocks of the body in the slots before `q`.
pub open spec fn live_before(body: Function, q: int) -> nat
    decreases q,
{
    if q <= 0 {
        0
    } else {
        live_before(body, q - 1) + if body.blocks@[q - 1] is Some {
            1nat
        } else {
            0nat
        }
    }
}

/// The label of the copy of the body block in slot `q`: the copies follow
/// the two landing blocks in the order of the body's blocks.
pub open spec fn copy_label(body: Function, landing: nat, q: int) -> Label {
    Label((landing + 2 + live_before(body, q)) as u32)
}

/// For each slot of the body, the label of the copy of its block.
pub open spec fn copy_map(body: Function, landing: nat) -> Seq<Label> {
    Seq::new(body.blocks@.len(), |q: int| copy_label(body, landing, q))
}

/// Every live block of the body has its copy in `g`.
pub open spec fn body_copied(g: Function, body: Function, ren: Renaming, landing: nat, w_ok: Value, w_exc: Value) -> bool {
    forall|q: int| 0 <= q < body.blocks@.len() && (#[trigger] body.blocks@[q]) is Some ==> block_copied(
        body.blocks@[q]->Some_0,
        g,
        copy_label(body, landing, q),
        ren,
        copy_map(body, landing),
        landing,
        w_ok,
        w_exc,
    )
}

/// The renaming for the call at the end of block `c` of the closure that
/// the operation at `at` binds over `lam`.
pub open spec fn renaming_of(ren: Renaming, f: Function, lam: Lambda, c: Label, at: Resolution) -> bool {
    &&& ren.captures@ == lam.captures@
    &&& ren.env@ == f.block(at.block).ops@[at.op as int].reads@
    &&& ren.params@ == lam.params@
    &&& ren.args@ == f.block(c).ops@.last().reads@.skip(1)
    &&& ren.vbase == f.next_value
    &&& ren.bound == lam.body.next_value
}

pub proof fn lemma_live_before_bound(body: Function, q: int)
    requires
        0 <= q <= body.blocks@.len(),
    ensures
        live_before(body, q) <= q,
        forall|p: int| 0 <= p <= q ==> live_before(body, p) <= #[trigger] live_before(body, q),
        forall|p: int| 0 <= p < q && body.blocks@[p] is Some ==> #[trigger] live_before(body, p) < live_before(body, q),
    decreases q,
{
    if q > 0 {
        lemma_live_before_bound(body, q - 1);
        assert forall|p: int| 0 <= p < q && body.blocks@[p] is Some implies #[trigger] live_before(body, p) < live_before(body, q) by {
            if p < q - 1 {
                assert(live_before(body, p) < live_before(body, q - 1));
            }
        }
    }
}

/// The copies of the live blocks of a body: each is live, beyond the
/// landing blocks, and the copies stand in the order of the body's blocks.
pub open spec fn copies_made(g: Function, body: Function, map: Seq<Label>, upto: int, landing: nat) -> bool {
    &&& forall|q: int| 0 <= q < upto && body.blocks@[q] is Some ==> {
        &&& g.is_live(#[trigger] map[q])
        &&& map[q].0 >= landing + 2
    }
    &&& forall|q1: int, q2: int| 0 <= q1 < q2 < upto && body.blocks@[q1] is Some && body.blocks@[q2] is Some ==> (#[trigger] map[q1]).0 < (#[trigger] map[q2]).0
}

/// A copy stays a copy while another block is filled.
proof fn lemma_block_copied_frame(src: BasicBlock, f: Function, g: Function, l: Label, nl: Label, ren: Renaming, map: Seq<Label>, landing: nat, w_ok: Value, w_exc: Value)
    requires
        block_copied(src, f, l, ren, map, landing, w_ok, w_exc),
        copy_frame(f, g, nl, landing),
        landings_synced(f, landing, 2),
        landing + 2 <= u32::MAX,
        l != nl,
        !is_landing(l, landing, 2),
    ensures
        block_copied(src, g, l, ren, map, landing, w_ok, w_exc),
{
    assert(f.is_live(l));
    assert(g.is_live(l));
    let e0 = Label(landing as u32);
    let e1 = Label((landing + 1) as u32);
    assert(is_landing(e0, landing, 2) && is_landing(e1, landing, 2));
    assert(f.is_live(e0) && f.is_live(e1));
    assert(crate::lower::phis_grown_at(f, g, e0));
    assert(crate::lower::phis_grown_at(f, g, e1));
}

/// Replaces the call at the end of block `c` by a copy of `body`.
fn splice_body(b: &mut FunctionBuilder, c: Label, body: &Function, ren: &Renaming) -> (entry: Label)
    requires
        old(b)@.inv(),
        is_call_site(old(b)@, c),
        body.valid(),
        ren.wf(),
        ren.vbase == old(b)@.next_value,
        ren.bound == body.next_value,
        old(b)@.blocks@.len() + 2 + body.blocks@.len() <= u32::MAX,
    ensures
        final(b)@.inv(),
        call_inlined(old(b)@, final(b)@, c, *body, entry, *ren),
{
    let ghost o = b@;
    let ghost lb = o.blocks@.len() as nat;
    let landing = b.fun().blocks.len() as u32;
    let k_ok = b.fun().get(c).jumps[0];
    let k_throw = b.fun().get(c).jumps[1];
    let nops = b.fun().get(c).ops.len();
    let w_ok = b.fun().get(c).ops[nops - 1].writes[0];
    let w_exc = b.fun().get(c).ops[nops - 1].writes[1];
    proof {
        assert(o.jumps_live_at(c));
        assert(o.is_live(o.block(c).jumps@[0]));
        assert(o.is_live(o.block(c).jumps@[1]));
    }
    let targets = copy_labels(&b.fun().get(c).jumps);
    let popped = b.pop_op(c);
    b.reserve_values(body.next_value);
    let ghost m1 = b@;
    proof {
        assert forall|l: Label| #[trigger] o.is_live(l) implies m1.is_live(l) && m1.block(l).label == o.block(l).label && m1.block(l).phi_nodes
            == o.block(l).phi_nodes && (l != c ==> m1.block(l).ops == o.block(l).ops && m1.block(l).jumps == o.block(l).jumps) by {}
        assert(m1.is_live(k_ok) && m1.is_live(k_throw));
        assert forall|q: int| 0 <= q < targets@.len() implies m1.is_live(#[trigger] targets@[q]) by {
            assert(o.is_live(o.block(c).jumps@[q]));
        }
    }
    let mut v_ok: Vec<Value> = Vec::new();
    v_ok.push(w_ok);
    let mut v_exc: Vec<Value> = Vec::new();
    v_exc.push(w_exc);
    let mut vars: Vec<Vec<Value>> = Vec::new();
    vars.push(v_ok);
    vars.push(v_exc);
    add_landings(b, c, &targets, &vars);
    let ghost m2 = b@;
    proof {
        assert forall|q: int| 0 <= q < targets@.len() implies m2.is_live(#[trigger] targets@[q]) by {
            assert(m1.is_live(targets@[q]));
        }
    }
    strip_targets(b, c, &targets);
    let ghost m3 = b@;
    let ghost e_ok = Label(lb as u32);
    let ghost e_throw = Label((lb + 1) as u32);
    proof {
        assert(targets@[0] == k_ok && targets@[1] == k_throw);
        assert(vars@[0]@ =~= seq![w_ok]);
        assert(vars@[1]@ =~= seq![w_exc]);
        assert(is_fresh_landing(m2, lb, 0, targets@[0], vars@[0]@));
        assert(is_fresh_landing(m2, lb, 1, targets@[1], vars@[1]@));
        assert(m2.is_live(e_ok) && m2.is_live(e_throw));
        assert(!targets@.contains(e_ok) && !targets@.contains(e_throw)) by {
            if targets@.contains(e_ok) {
                let w = choose|w: int| 0 <= w < targets@.len() && targets@[w] == e_ok;
                assert(m1.is_live(targets@[w]));
            }
            if targets@.contains(e_throw) {
                let w = choose|w: int| 0 <= w < targets@.len() && targets@[w] == e_throw;
                assert(m1.is_live(targets@[w]));
            }
        }
        assert(m3.is_live(e_ok) && m3.is_live(e_throw));
        assert(m3.block(e_ok).phi_nodes == m2.block(e_ok).phi_nodes);
        assert(m3.block(e_throw).phi_nodes == m2.block(e_throw).phi_nodes);
        assert(m3.block(e_ok).jumps == m2.block(e_ok).jumps);
        assert(m3.block(e_throw).jumps == m2.block(e_throw).jumps);
        assert forall|l: Label| #[trigger] is_landing(l, lb, 2) implies {
            &&& m3.is_live(l)
            &&& forall|j: int| 0 <= j < m3.block(l).phi_nodes@.len() ==> (#[trigger] m3.block(l).phi_nodes@[j]).preds() == m3.block(l).back_refs@
        } by {
            assert(l == e_ok || l == e_throw);
            assert forall|j: int| 0 <= j < m3.block(l).phi_nodes@.len() implies (#[trigger] m3.block(l).phi_nodes@[j]).preds() == m3.block(
                l,
            ).back_refs@ by {
                assert(m2.block(l).phi_nodes@[j].entries@.len() == 0);
                assert(m3.block(l).phi_nodes@[j].preds() =~= m3.block(l).back_refs@);
            }
        }
        assert forall|l: Label| #[trigger] o.is_live(l) implies m3.is_live(l) && m3.block(l).label == o.block(l).label && m3.block(
            l,
        ).ops == m1.block(l).ops && m3.block(l).jumps == m1.block(l).jumps && phis_follow_case(o, m3, c, l) by {
            assert(m1.is_live(l) && m2.is_live(l));
            assert(m3.block(l).jumps == m2.block(l).jumps);
            assert(phis_landed_upto(m1, m2, c, l, targets@, 2));
            let lands = landings_of(targets@, l, lb, 2);
            crate::compile_pattern::lemma_landings_of_range(targets@, l, lb, 2);
            assert(targets@.take(2) == targets@);
            if targets@.contains(l) {
                assert(crate::builder::phis_stripped(m2.block(l).phi_nodes@, m3.block(l).phi_nodes@, c));
                assert forall|j: int| 0 <= j < o.block(l).phi_nodes@.len() implies {
                    &&& (#[trigger] m3.block(l).phi_nodes@[j]).ssa == o.block(l).phi_nodes@[j].ssa
                    &&& m3.block(l).phi_nodes@[j].entries@ == crate::compile_pattern::rekeyed_to_landings(o.block(l).phi_nodes@[j].entries@, c, lands)
                } by {
                    assert(crate::builder::phi_stripped(m2.block(l).phi_nodes@[j], m3.block(l).phi_nodes@[j], c));
                    assert(m2.block(l).phi_nodes@[j].ssa == m1.block(l).phi_nodes@[j].ssa);
                    assert forall|q: int| 0 <= q < lands.len() implies (#[trigger] lands[q]) != c by {}
                    crate::compile_pattern::lemma_rekeyed(o.block(l).phi_nodes@[j].entries@, lands, c);
                }
            } else {
                assert(m3.block(l).phi_nodes == m2.block(l).phi_nodes);
                assert(m2.block(l).phi_nodes == m1.block(l).phi_nodes);
            }
        }
        assert(is_landing_block(m3, e_ok, k_ok, seq![w_ok]));
        assert(is_landing_block(m3, e_throw, k_throw, seq![w_exc]));
    }
    // one new block for each live block of the body
    let blen = body.blocks.len();
    let mut map: Vec<Label> = Vec::new();
    let mut i: usize = 0;
    while i < blen
        invariant
            i <= blen,
            blen == body.blocks@.len(),
            lb + 2 + blen <= u32::MAX,
            map@.len() == i,
            b@.inv(),
            b@.entry == m3.entry,
            b@.next_value == m3.next_value,
            b@.blocks@.len() == lb + 2 + live_before(*body, i as int),
            m3.blocks@.len() == lb + 2,
            b@.blocks@.take((lb + 2) as int) == m3.blocks@,
            forall|q: int| 0 <= q < i ==> #[trigger] map@[q] == copy_label(*body, lb, q),
            forall|q: int| 0 <= q < i && body.blocks@[q] is Some ==> crate::lower::is_empty_block(b@, #[trigger] map@[q]),
        decreases blen - i,
    {
        proof {
            lemma_live_before_bound(*body, i as int);
        }
        if body.blocks[i].is_some() {
            let ghost pre = b@;
            let ghost pmap = map@;
            let nl = b.create_block();
            map.push(nl);
            proof {
                let g = b@;
                assert(g.blocks@.take((lb + 2) as int) =~= pre.blocks@.take((lb + 2) as int)) by {
                    assert(g.blocks@.take(nl.0 as int) == pre.blocks@);
                }
                assert forall|q: int| 0 <= q < i + 1 && body.blocks@[q] is Some implies crate::lower::is_empty_block(g, #[trigger] map@[q]) by {
                    if q < i {
                        assert(map@[q] == pmap[q]);
                        assert(crate::lower::is_empty_block(pre, pmap[q]));
                        assert(g.blocks@.take(nl.0 as int)[pmap[q].0 as int] == g.blocks@[pmap[q].0 as int]);
                    }
                }
                assert forall|q: int| 0 <= q < i + 1 implies #[trigger] map@[q] == copy_label(*body, lb, q) by {
                    if q < i {
                        assert(map@[q] == pmap[q]);
                    }
                }
            }
        } else {
            let ghost pmap = map@;
            map.push(Label(b.fun().blocks.len() as u32));
            proof {
                assert forall|q: int| 0 <= q < i + 1 && body.blocks@[q] is Some implies crate::lower::is_empty_block(b@, #[trigger] map@[q]) by {
                    assert(map@[q] == pmap[q]);
                }
                assert forall|q: int| 0 <= q < i + 1 implies #[trigger] map@[q] == copy_label(*body, lb, q) by {
                    if q < i {
                        assert(map@[q] == pmap[q]);
                    }
                }
            }
        }
        i += 1;
    }
    proof {
        lemma_live_before_bound(*body, blen as int);
        assert(map@ =~= copy_map(*body, lb));
        assert forall|q: int| 0 <= q < blen && body.blocks@[q] is Some implies {
            &&& b@.is_live(#[trigger] map@[q])
            &&& map@[q].0 >= lb + 2
        } by {
            assert(crate::lower::is_empty_block(b@, map@[q]));
        }
        assert forall|q1: int, q2: int| 0 <= q1 < q2 < blen && body.blocks@[q1] is Some && body.blocks@[q2] is Some implies (#[trigger] map@[q1]).0 < (#[trigger] map@[q2]).0 by {
            lemma_live_before_bound(*body, q2);
            assert(live_before(*body, q1) < live_before(*body, q2));
            assert(live_before(*body, q2) <= live_before(*body, blen as int));
        }
    }
    let ghost m4 = b@;
    let entry = map[body.entry.0 as usize];
    proof {
        assert(body.is_live(body.entry));
        assert(m4.is_live(map@[body.entry.0 as int]));
        assert forall|l: Label| l.0 < lb + 2 implies m4.blocks@[l.0 as int] == m3.blocks@[l.0 as int] by {
            assert(m4.blocks@.take((lb + 2) as int)[l.0 as int] == m4.blocks@[l.0 as int]);
        }
        assert(m4.is_live(c)) by {
            assert(m3.is_live(c));
        }
        assert forall|l: Label| !m4.block(l).back_refs@.contains(c) || !m4.is_live(l) by {
            if m4.is_live(l) {
                assert(m4.back_refs_exact_at(l));
                assert(m4.block(l).back_refs@.contains(c) <==> m4.edge(c, l));
                assert(m4.blocks@[c.0 as int] == m3.blocks@[c.0 as int]);
                assert(m3.block(c).jumps == m1.block(c).jumps);
            }
        }
    }
    let mut targets: Vec<Label> = Vec::new();
    targets.push(entry);
    assert(targets@[0] == entry);
    b.append_op(c, Op { kind: OpKind::Jump, reads: Vec::new(), writes: Vec::new() }, targets);
    let ghost m5 = b@;
    proof {
        assert(m5.block(c).jumps@ =~= seq![entry]);
        assert(m5.block(c).ops@.drop_last() == o.block(c).ops@.drop_last()) by {
            assert(m4.blocks@[c.0 as int] == m3.blocks@[c.0 as int]);
            assert(m3.block(c).ops == m1.block(c).ops);
        }
        assert forall|l: Label| #[trigger] is_landing(l, lb, 2) implies m5.is_live(l) && m5.block(l).phi_nodes == m4.block(l).phi_nodes
            && m5.block(l).back_refs == m4.block(l).back_refs by {
            assert(m4.blocks@[l.0 as int] == m3.blocks@[l.0 as int]);
            assert(m3.is_live(l));
            assert(m4.is_live(l));
            if targets@.contains(l) {
                let q = choose|q: int| 0 <= q < targets@.len() && targets@[q] == l;
            }
        }
        assert(landings_synced(m4, lb, 2)) by {
            assert forall|l: Label| #[trigger] is_landing(l, lb, 2) implies m4.is_live(l) && m4.block(l).phi_nodes == m3.block(l).phi_nodes
                && m4.block(l).back_refs == m3.block(l).back_refs by {
                assert(m4.blocks@[l.0 as int] == m3.blocks@[l.0 as int]);
                assert(m3.is_live(l));
            }
            lemma_landings_kept(m3, m4, lb);
        }
        lemma_landings_kept(m4, m5, lb);
        assert forall|q: int| 0 <= q < blen && body.blocks@[q] is Some implies crate::lower::is_empty_block(m5, #[trigger] map@[q]) by {
            assert(crate::lower::is_empty_block(m4, map@[q]));
            assert(map@[q] != c);
        }
        assert forall|l: Label| #[trigger] m5.is_live(l) && is_landing(l, lb, 2) implies crate::lower::phis_grown_at(m5, m5, l) by {}
    }
    // the copies
    let mut i: usize = 0;
    while i < blen
        invariant
            i <= blen,
            blen == body.blocks@.len(),
            blen == map@.len(),
            body.valid(),
            ren.wf(),
            landing == lb,
            lb + 2 <= m5.blocks@.len() <= u32::MAX,
            b@.inv(),
            landings_synced(b@, lb, 2),
            b@.blocks@.len() == m5.blocks@.len(),
            b@.entry == m5.entry,
            b@.next_value == m5.next_value,
            forall|l: Label| #[trigger] b@.is_live(l) == m5.is_live(l),
            forall|l: Label| #[trigger]
                m5.is_live(l) ==> {
                    &&& b@.block(l).label == m5.block(l).label
                    &&& l.0 < lb + 2 ==> b@.block(l).ops == m5.block(l).ops && b@.block(l).jumps == m5.block(l).jumps
                    &&& l.0 < lb ==> b@.block(l).phi_nodes == m5.block(l).phi_nodes
                    &&& is_landing(l, lb, 2) ==> same_phi_defs(m5, b@, l)
                },
            copies_made(m5, *body, map@, blen as int, lb),
            forall|q: int| i <= q < blen && body.blocks@[q] is Some ==> crate::lower::is_empty_block(b@, #[trigger] map@[q]),
            forall|q: int| 0 <= q < i && (#[trigger] body.blocks@[q]) is Some ==> block_copied(body.blocks@[q]->Some_0, b@, map@[q], *ren, map@, lb, w_ok, w_exc),
            forall|l: Label| #[trigger] m5.is_live(l) && is_landing(l, lb, 2) ==> crate::lower::phis_grown_at(m5, b@, l),
        decreases blen - i,
    {
        match &body.blocks[i] {
            Some(src) => {
                let nl = map[i];
                let ghost pre = b@;
                let ghost bl = Label(i as u32);
                proof {
                    assert(body.is_live(bl));
                    assert(body.block(bl) == *src);
                    assert(m5.is_live(map@[i as int]));
                    assert(pre.is_live(nl));
                    assert(!is_landing(nl, lb, 2));
                    assert(crate::lower::is_empty_block(pre, map@[i as int]));
                    assert(body.phis_complete_at(bl));
                    assert(body.back_refs_exact_at(bl));
                    assert forall|j: int, q: int| 0 <= j < src.phi_nodes@.len() && 0 <= q < src.phi_nodes@[j].entries@.len() implies (#[trigger] src.phi_nodes@[j].entries@[q]).0.0 < map@.len() by {
                        let phi = src.phi_nodes@[j];
                        let a = phi.entries@[q].0;
                        assert(crate::function::phi_complete(body.block(bl), body.block(bl).phi_nodes@[j]));
                        assert(phi.preds()[q] == a);
                        assert(phi.preds().contains(a));
                        assert(body.block(bl).back_refs@.contains(a));
                        assert(body.edge(a, bl));
                    }
                }
                copy_phis(b, src, nl, &map, ren, Ghost(lb));
                let ghost mid = b@;
                proof {
                    assert(body.jumps_live_at(bl));
                    assert forall|k: int| 0 <= k < src.jumps@.len() implies {
                        &&& (#[trigger] src.jumps@[k]).0 < map@.len()
                        &&& mid.is_live(map@[src.jumps@[k].0 as int])
                        &&& !is_landing(map@[src.jumps@[k].0 as int], lb, 2)
                    } by {
                        let t = src.jumps@[k];
                        assert(body.is_live(body.block(bl).jumps@[k]));
                        assert(body.blocks@[t.0 as int] is Some);
                        assert(m5.is_live(map@[t.0 as int]));
                        assert(pre.is_live(map@[t.0 as int]));
                    }
                    assert(mid.is_live(nl));
                }
                copy_ops(b, src, nl, &map, ren, landing, w_ok, w_exc);
                proof {
                    let g = b@;
                    lemma_copy_frame_trans(pre, mid, g, nl, lb);
                    assert forall|l: Label| #[trigger] g.is_live(l) == m5.is_live(l) by {
                        assert(pre.is_live(l) == m5.is_live(l));
                    }
                    assert forall|l: Label| #[trigger] m5.is_live(l) implies {
                        &&& g.block(l).label == m5.block(l).label
                        &&& l.0 < lb + 2 ==> g.block(l).ops == m5.block(l).ops && g.block(l).jumps == m5.block(l).jumps
                        &&& l.0 < lb ==> g.block(l).phi_nodes == m5.block(l).phi_nodes
                        &&& is_landing(l, lb, 2) ==> same_phi_defs(m5, g, l)
                    } by {
                        assert(pre.is_live(l));
                    }
                    assert forall|q: int| i + 1 <= q < blen && body.blocks@[q] is Some implies crate::lower::is_empty_block(g, #[trigger] map@[q]) by {
                        assert(map@[i as int].0 < map@[q].0);
                        assert(m5.is_live(map@[q]));
                        assert(pre.is_live(map@[q]));
                        assert(crate::lower::is_empty_block(pre, map@[q]));
                    }
                    assert forall|l: Label| #[trigger] m5.is_live(l) && is_landing(l, lb, 2) implies crate::lower::phis_grown_at(m5, g, l) by {
                        assert(pre.is_live(l));
                        crate::lower::lemma_phis_grown_trans(m5, pre, g, l);
                    }
                    assert(g.block(nl).phi_nodes == mid.block(nl).phi_nodes);
                    assert(block_copied(*src, g, nl, *ren, map@, lb, w_ok, w_exc));
                    assert forall|q: int| 0 <= q < i + 1 && (#[trigger] body.blocks@[q]) is Some implies block_copied(
                        body.blocks@[q]->Some_0,
                        g,
                        map@[q],
                        *ren,
                        map@,
                        lb,
                        w_ok,
                        w_exc,
                    ) by {
                        if q < i {
                            let sq = body.blocks@[q]->Some_0;
                            let lq = map@[q];
                            assert(block_copied(sq, pre, lq, *ren, map@, lb, w_ok, w_exc));
                            assert(lq.0 < map@[i as int].0);
                            assert(m5.is_live(lq) && pre.is_live(lq));
                            assert(!is_landing(lq, lb, 2));
                            lemma_block_copied_frame(sq, pre, g, lq, nl, *ren, map@, lb, w_ok, w_exc);
                        }
                    }
                }
            },
            None => {},
        }
        i += 1;
    }
    proof {
        let g = b@;
        assert forall|l: Label| l.0 < o.blocks@.len() && #[trigger] g.is_live(l) implies o.is_live(l) by {
            assert(m5.is_live(l));
            assert(m4.is_live(l));
            assert(m4.blocks@[l.0 as int] == m3.blocks@[l.0 as int]);
            assert(m3.is_live(l));
            assert(m2.is_live(l));
            assert(m1.is_live(l));
        }
        assert forall|l: Label| #[trigger] o.is_live(l) implies {
            &&& g.is_live(l)
            &&& g.block(l).label == o.block(l).label
            &&& phis_follow_case(o, g, c, l)
            &&& l != c ==> g.block(l).ops == o.block(l).ops && g.block(l).jumps == o.block(l).jumps
        } by {
            assert(m3.is_live(l));
            assert(m4.blocks@[l.0 as int] == m3.blocks@[l.0 as int]);
            assert(m4.is_live(l));
            assert(m5.is_live(l));
            assert(m5.block(l).phi_nodes == m4.block(l).phi_nodes);
            assert(g.block(l).phi_nodes == m5.block(l).phi_nodes);
            assert(phis_follow_case(o, m3, c, l));
        }
        assert(m5.is_live(c) && m5.is_live(entry));
        assert(m4.blocks@[e_ok.0 as int] == m3.blocks@[e_ok.0 as int]);
        assert(m4.blocks@[e_throw.0 as int] == m3.blocks@[e_throw.0 as int]);
        assert(m3.is_live(e_ok) && m3.is_live(e_throw));
        assert(m4.is_live(e_ok) && m4.is_live(e_throw));
        assert(m5.is_live(e_ok) && m5.is_live(e_throw));
        assert(is_landing(e_ok, lb, 2) && is_landing(e_throw, lb, 2));
        assert(is_landing_block(m3, e_ok, k_ok, seq![w_ok]));
        assert(is_landing_block(m3, e_throw, k_throw, seq![w_exc]));
        assert(is_landing_block(g, e_ok, k_ok, seq![w_ok]));
        assert(is_landing_block(g, e_throw, k_throw, seq![w_exc]));
    }
    entry
}

/// Whether every value that the function defines is below its counter of
/// fresh values.
pub fn defines_below_counter(f: &Function) -> (r: bool)
    ensures
        r == crate::ssa::defs_below(*f),
{
    let defs = f.collect_defs();
    let mut i: usize = 0;
    while i < defs.len()
        invariant
            i <= defs@.len(),
            defs@ == f.defs(),
            forall|k: int| 0 <= k < i ==> defs@[k].0 < f.next_value,
        decreases defs@.len() - i,
    {
        if defs[i].0 >= f.next_value {
            proof {
                let v = defs@[i as int];
                assert(f.defs().contains(v));
                crate::ssa::lemma_arena_contains(f.blocks@, v);
            }
            return false;
        }
        i += 1;
    }
    proof {
        assert forall|k: int, v: Value| 0 <= k < f.blocks@.len() && #[trigger] crate::ssa::slot_defs(f.blocks@[k]).contains(v) implies v.0
            < f.next_value by {
            crate::ssa::lemma_arena_contains(f.blocks@, v);
            assert(f.defs().contains(v));
            let q = choose|q: int| 0 <= q < defs@.len() && defs@[q] == v;
        }
    }
    true
}

/// Inlines the call that ends block `c`, if it is a call of a closure
/// whose body the table knows, that does not refer to itself and that
/// fits. In every other case the graph stays as it is.
pub fn inline_call(b: &mut FunctionBuilder, table: &Vec<Lambda>, c: Label) -> (r: InlineOutcome)
    requires
        old(b)@.inv(),
    ensures
        final(b)@.inv(),
        inline_result(old(b)@, final(b)@, table@, c, r),
        old(b)@.valid() && crate::ssa::defs_below(old(b)@) ==> final(b)@.valid() && crate::ssa::defs_below(final(b)@),
{
    let ghost o = b@;
    let f = b.fun();
    if !f.live(c) {
        return InlineOutcome::NotACall;
    }
    let blk = f.get(c);
    let n = blk.ops.len();
    if n == 0 {
        return InlineOutcome::NotACall;
    }
    let op = &blk.ops[n - 1];
    let is_apply = match op.kind {
        OpKind::Apply => true,
        _ => false,
    };
    if !is_apply || op.reads.len() == 0 || op.writes.len() != 2 || blk.jumps.len() != 2 {
        return InlineOutcome::NotACall;
    }
    let cv = match op.reads[0] {
        Source::Variable(v) => v,
        Source::Constant(_) => {
            return InlineOutcome::NotACall;
        },
    };
    let (bl, bk) = match find_binding(f, cv) {
        Some(x) => x,
        None => {
            return InlineOutcome::UnknownClosure;
        },
    };
    let bop = &f.get(bl).ops[bk];
    let ident = match bop.kind {
        OpKind::BindClosure { ident } => ident,
        _ => {
            return InlineOutcome::UnknownClosure;
        },
    };
    let li = match find_lambda(table, ident) {
        Some(i) => i,
        None => {
            proof {
                assert forall|l: Label, k: int, i: int| !resolves_to(o, table@, c, l, k, i) by {
                    if is_first_binding(o, cv, l, k) {
                        lemma_first_binding_unique(o, cv, l, k, bl, bk as int);
                        if 0 <= i < table@.len() {
                            assert(table@[i].ident != ident);
                        }
                    }
                }
            }
            return InlineOutcome::UnknownClosure;
        },
    };
    let at = Resolution { block: bl, op: bk, lambda: li };
    if is_self_referential(table, li) {
        return InlineOutcome::SelfReferential(at);
    }
    let lam = &table[li];
    if lam.captures.len() != bop.reads.len() || lam.params.len() != op.reads.len() - 1 {
        return InlineOutcome::Unfit(at);
    }
    if lam.body.graph_validate_global().is_err() || !defines_below_counter(&lam.body) {
        return InlineOutcome::Unfit(at);
    }
    assert(lam.body.is_live(lam.body.entry));
    if lam.body.get(lam.body.entry).phi_nodes.len() != 0 {
        return InlineOutcome::Unfit(at);
    }
    let len = f.blocks.len();
    let blen = lam.body.blocks.len();
    if len > 0xffff_ffff - 2 || blen > 0xffff_ffff - 2 - len || lam.body.next_value > 0xffff_ffff - f.next_value {
        return InlineOutcome::TooLarge(at);
    }
    let mut args: Vec<Source> = Vec::new();
    let mut i: usize = 1;
    while i < op.reads.len()
        invariant
            1 <= i <= op.reads@.len(),
            args@.len() == i - 1,
            forall|q: int| 0 <= q < i - 1 ==> args@[q] == op.reads@[q + 1],
        decreases op.reads@.len() - i,
    {
        args.push(op.reads[i]);
        i += 1;
    }
    assert(args@ =~= op.reads@.skip(1));
    let ren = Renaming {
        captures: copy_values(&lam.captures),
        env: copy_sources(&bop.reads),
        params: copy_values(&lam.params),
        args,
        vbase: f.next_value,
        bound: lam.body.next_value,
    };
    assert(renaming_of(ren, o, table@[li as int], c, at));
    let entry = splice_body(b, c, &lam.body, &ren);
    assert(call_inlined(o, b@, c, table@[li as int].body, entry, ren));
    proof {
        if o.valid() && crate::ssa::defs_below(o) {
            crate::inline_soundness::lemma_inline_keeps_arity(o, b@, c, lam.body, entry, ren);
            crate::inline_soundness::lemma_inline_keeps_phis(o, b@, c, lam.body, entry, ren);
            crate::inline_soundness::lemma_inline_keeps_ssa(o, b@, c, lam.body, entry, ren);
        }
    }
    InlineOutcome::Inlined(at, entry)
}

/// The pass that inlines the calls of closures whose bodies it has been
/// given. It looks once at every block that the function has when it
/// starts, so a call that a spliced body brings in is left for the next
/// run. A lambda that refers to itself, directly or through others, is
/// never inlined.
#[derive(Debug)]
pub struct NaiveInlineClosuresPass {
    /// The closure bodies that calls can be replaced by.
    pub lambdas: Vec<Lambda>,
    /// The number of calls that the last run inlined.
    pub inlined: usize,
    /// What the last run made of each block that the function had when
    /// the run started, in label order.
    pub outcomes: Vec<InlineOutcome>,
}

impl NaiveInlineClosuresPass {
    /// A pass that knows no closure body.
    pub fn new() -> (p: NaiveInlineClosuresPass)
        ensures
            p.lambdas@.len() == 0,
            p.inlined == 0,
            p.outcomes@.len() == 0,
    {
        NaiveInlineClosuresPass { lambdas: Vec::new(), inlined: 0, outcomes: Vec::new() }
    }

    /// A pass that knows the given closure bodies.
    pub fn with_lambdas(lambdas: Vec<Lambda>) -> (p: NaiveInlineClosuresPass)
        ensures
            p.lambdas == lambdas,
            p.inlined == 0,
            p.outcomes@.len() == 0,
    {
        NaiveInlineClosuresPass { lambdas, inlined: 0, outcomes: Vec::new() }
    }
}

/// `states` are the graphs that a run of the pass over the first `n`
/// blocks goes through, from `f` on: the call at the end of block `i` is
/// inlined, or left, in the graph that the blocks before it have left, with
/// the outcome logged at position `i`.
pub open spec fn inlines(f: Function, states: Seq<Function>, table: Seq<Lambda>, log: Seq<InlineOutcome>, n: nat) -> bool {
    &&& states.len() == n + 1
    &&& log.len() == n
    &&& states[0] == f
    &&& forall|i: int| 0 <= i < n ==> inline_result(#[trigger] states[i], states[i + 1], table, Label(i as u32), log[i])
}

/// Every lambda of the table refers to itself; so does every lambda of an
/// empty table.
pub open spec fn all_self_referential(table: Seq<Lambda>) -> bool {
    forall|i: int| 0 <= i < table.len() ==> #[trigger] self_referential(table, i)
}

/// What a run of the pass leaves of block `l`: the block with its label,
/// and, unless it ended in a call of a closure, its code and successors.
pub open spec fn block_survives(f: Function, g: Function, l: Label) -> bool {
    &&& g.is_live(l)
    &&& g.block(l).label == f.block(l).label
    &&& !is_call_site(f, l) ==> g.block(l).ops == f.block(l).ops && g.block(l).jumps == f.block(l).jumps
}

/// What closure inlining over the lambdas of `table` makes of a graph:
/// `g` is the last of the graphs that a run over the blocks of `f` goes
/// through, block by block; the blocks of `f` survive; where no lambda can
/// be inlined the graph stays as it is; a sound graph whose definitions lie
/// below its counter stays so.
pub open spec fn inline_effect(table: Seq<Lambda>, f: Function, g: Function) -> bool {
    &&& g.inv()
    &&& g.entry == f.entry
    &&& forall|l: Label| #[trigger] f.is_live(l) ==> block_survives(f, g, l)
    &&& all_self_referential(table) ==> g == f
    &&& f.valid() && crate::ssa::defs_below(f) ==> g.valid() && crate::ssa::defs_below(g)
    &&& exists|states: Seq<Function>, log: Seq<InlineOutcome>|
        #[trigger] inlines(f, states, table, log, f.blocks@.len()) && states.last() == g
}

impl crate::pass::FunctionPass for NaiveInlineClosuresPass {
    open spec fn effect(&self, f: Function, g: Function) -> bool {
        inline_effect(self.lambdas@, f, g)
    }

    /// Inlines the calls of known closures at the ends of the blocks that
    /// the function has when the pass starts. Where every lambda refers to
    /// itself, and so where none is known, the graph stays as it is.
    fn run_function_pass(&mut self, b: &mut FunctionBuilder)
        ensures
            final(self).lambdas == old(self).lambdas,
            forall|l: Label| #[trigger] old(b)@.is_live(l) ==> block_survives(old(b)@, final(b)@, l),
            final(b)@.entry == old(b)@.entry,
            final(self).inlined == 0 ==> final(b)@ == old(b)@,
            all_self_referential(old(self).lambdas@) ==> final(self).inlined == 0,
            old(b)@.valid() && crate::ssa::defs_below(old(b)@) ==> final(b)@.valid() && crate::ssa::defs_below(final(b)@),
            exists|states: Seq<Function>|
                inlines(old(b)@, states, old(self).lambdas@, final(self).outcomes@, old(b)@.blocks@.len()) && states.last() == final(b)@,
    {
        let ghost o = b@;
        let ghost mut states = seq![b@];
        self.inlined = 0;
        self.outcomes = Vec::new();
        let n = b.fun().blocks.len();
        let mut i: usize = 0;
        while i < n
            invariant
                i <= n,
                n == o.blocks@.len(),
                n <= u32::MAX,
                self.lambdas == old(self).lambdas,
                b@.inv(),
                b@.entry == o.entry,
                self.inlined == 0 ==> b@ == o,
                all_self_referential(self.lambdas@) ==> self.inlined == 0,
                o.valid() && crate::ssa::defs_below(o) ==> b@.valid() && crate::ssa::defs_below(b@),
                inlines(o, states, self.lambdas@, self.outcomes@, i as nat),
                states.last() == b@,
                forall|l: Label| #[trigger]
                    o.is_live(l) ==> {
                        &&& b@.is_live(l)
                        &&& b@.block(l).label == o.block(l).label
                        &&& (l.0 >= i || !is_call_site(o, l)) ==> b@.block(l).ops == o.block(l).ops && b@.block(l).jumps == o.block(l).jumps
                    },
            decreases n - i,
        {
            let ghost pre = b@;
            let ghost before = states;
            let ghost log0 = self.outcomes@;
            let c = Label(i as u32);
            let r = inline_call(b, &self.lambdas, c);
            self.outcomes.push(r);
            proof {
                states = before.push(b@);
                assert forall|k: int| 0 <= k < i + 1 implies inline_result(
                    #[trigger] states[k],
                    states[k + 1],
                    self.lambdas@,
                    Label(k as u32),
                    self.outcomes@[k],
                ) by {
                    if k < i {
                        assert(states[k] == before[k] && states[k + 1] == before[k + 1]);
                        assert(self.outcomes@[k] == log0[k]);
                    } else {
                        assert(states[k] == pre);
                    }
                }
            }
            match r {
                InlineOutcome::Inlined(_, _) => {
                    if self.inlined < usize::MAX {
                        self.inlined = self.inlined + 1;
                    } else {
                        self.inlined = 1;
                    }
                    proof {
                        let g = b@;
                        assert forall|l: Label| #[trigger] o.is_live(l) implies {
                            &&& g.is_live(l)
                            &&& g.block(l).label == o.block(l).label
                            &&& (l.0 >= i + 1 || !is_call_site(o, l)) ==> g.block(l).ops == o.block(l).ops && g.block(l).jumps == o.block(l).jumps
                        } by {
                            assert(pre.is_live(l));
                            if l == c {
                                assert(is_call_site(pre, c));
                                assert(is_call_site(o, c));
                            }
                        }
                    }
                },
                _ => {},
            }
            i += 1;
        }
    }
}

} // verus!
