//! The data model: labels, values, operands, phi nodes, operations and blocks.
use vstd::prelude::*;

verus! {

/// The identity of a basic block, stable within one function: its index in
/// the function's block arena.
#[derive(Debug, Clone, Copy, PartialEq, Eq, Structural, Hash)]
pub struct Label(pub u32);

/// The identity of a single-static-assignment value.
#[derive(Debug, Clone, Copy, PartialEq, Eq, Structural, Hash)]
pub struct Value(pub u32);

/// An interned symbol.
#[derive(Debug, Clone, Copy, PartialEq, Eq, Structural, Hash)]
pub struct Atom(pub u32);

/// The name of a function: module, name and arity.
#[derive(Debug, Clone, Copy, PartialEq, Eq, Structural, Hash)]
pub struct FunctionIdent {
    pub module: Atom,
    pub name: Atom,
    pub arity: u32,
}

/// The index of a closure environment layout.
#[derive(Debug, Clone, Copy, PartialEq, Eq, Structural, Hash)]
pub struct LambdaEnvIdx(pub u32);

/// A literal constant that fits in an operand position.
#[derive(Debug, Clone, Copy, PartialEq, Eq, Structural, Hash)]
pub enum AtomicLiteral {
    Integer(i64),
    Atom(Atom),
    Nil,
}

/// An operand: a value defined elsewhere, or an inline constant.
#[derive(Debug, Clone, Copy, PartialEq, Eq, Structural, Hash)]
pub enum Source {
    Variable(Value),
    Constant(AtomicLiteral),
}

/// A pattern in canonical form.
#[derive(Debug)]
pub enum Pattern {
    /// Matches anything and binds nothing.
    Wildcard,
    /// Matches anything and binds the matched term to the value.
    Variable(Value),
    /// Matches exactly this literal.
    Literal(AtomicLiteral),
    /// Matches a tuple of this many elements whose elements match in turn.
    Tuple(Vec<Pattern>),
}

/// One clause of a case split: one pattern per scrutinee. The body of the
/// clause at position `i` is the `i`-th successor of the block that the case
/// split terminates.
#[derive(Debug)]
pub struct Clause {
    pub patterns: Vec<Pattern>,
}

/// A phi node: one entry per predecessor, and the value that it defines.
#[derive(Debug, Clone)]
pub struct Phi {
    pub entries: Vec<(Label, Source)>,
    pub ssa: Value,
}

/// An operation: its kind, the operands it reads and the values it defines.
#[derive(Debug)]
pub struct Op {
    pub kind: OpKind,
    pub reads: Vec<Source>,
    pub writes: Vec<Value>,
}

#[derive(Debug)]
pub enum OpKind {
    /// Move r[0] into w[0]
    Move,
    /// Calls r[0]:r[1] with args r[2..]; w[0] is the result on the first
    /// successor, w[1] the exception on the second
    Call,
    /// Calls r[0] with args r[1..]; writes and successors as for `Call`
    Apply,
    CaptureNamedFunction(FunctionIdent),
    MakeTuple,
    MakeList,
    MakeClosureEnv { env_idx: LambdaEnvIdx },
    /// Binds the closure `ident` over the captured operands r[..] into w[0]
    BindClosure { ident: FunctionIdent },
    /// Splits on the scrutinees r[..]: the first clause whose patterns all
    /// match selects the successor at its position
    Case { clauses: Vec<Clause> },
    /// Continues at the first successor if r[0] is this literal, at the
    /// second otherwise
    IsLiteral(AtomicLiteral),
    /// Continues at the first successor with the elements of r[0] in w[..] if
    /// r[0] is a tuple of `arity` elements, at the second otherwise
    UnpackTuple { arity: usize },
    /// No clause of a case split matched
    MatchFail,
    Jump,
    PrimOp(Atom),
    ReturnOk,
    ReturnThrow,
}

#[derive(Debug)]
pub struct BasicBlock {
    pub label: Label,
    /// The blocks that jump to this one, each once
    pub back_refs: Vec<Label>,
    pub phi_nodes: Vec<Phi>,
    pub ops: Vec<Op>,
    pub jumps: Vec<Label>,
}

impl OpKind {
    /// The number of successors that a block ending in an operation of this
    /// kind has, or `None` for a kind that does not end a block.
    pub open spec fn jump_count(&self) -> Option<nat> {
        match *self {
            OpKind::Call => Some(2),
            OpKind::Apply => Some(2),
            OpKind::Jump => Some(1),
            OpKind::Case { clauses } => Some(clauses@.len()),
            OpKind::IsLiteral(_) => Some(2),
            OpKind::UnpackTuple { .. } => Some(2),
            OpKind::MatchFail => Some(0),
            OpKind::ReturnOk => Some(0),
            OpKind::ReturnThrow => Some(0),
            _ => None,
        }
    }

    pub fn num_jumps(&self) -> (n: Option<usize>)
        ensures
            n is Some <==> self.jump_count() is Some,
            n is Some ==> n->Some_0 == self.jump_count()->Some_0,
    {
        match self {
            OpKind::Call => Some(2),
            OpKind::Apply => Some(2),
            OpKind::Jump => Some(1),
            OpKind::Case { clauses } => Some(clauses.len()),
            OpKind::IsLiteral(_) => Some(2),
            OpKind::UnpackTuple { .. } => Some(2),
            OpKind::MatchFail => Some(0),
            OpKind::ReturnOk => Some(0),
            OpKind::ReturnThrow => Some(0),
            _ => None,
        }
    }

    /// Whether an operation of this kind ends its block.
    pub open spec fn is_terminator(&self) -> bool {
        self.jump_count() is Some
    }
}

/// The predecessors that phi entries are for, in entry order.
pub open spec fn entry_preds(entries: Seq<(Label, Source)>) -> Seq<Label> {
    Seq::new(entries.len(), |i: int| entries[i].0)
}

impl Phi {
    /// The predecessors that the entries cover, in entry order.
    pub open spec fn preds(&self) -> Seq<Label> {
        entry_preds(self.entries@)
    }
}

} // verus!
