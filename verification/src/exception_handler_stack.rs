//! The stack of exception handlers that are in scope while a function body
//! is lowered into the graph.
use vstd::prelude::*;
use crate::ir::{Label, Value};
use crate::builder::{call_emitted, FunctionBuilder};

verus! {

/// One operation on the handler stack.
#[derive(Debug, Clone, Copy, PartialEq, Eq, Structural, Hash)]
pub enum HandlerOp {
    /// Enter the scope of a handler that takes the error's type, reason and
    /// trace.
    Push(Value),
    /// Enter the scope of a handler that takes no arguments.
    PushAnon(Value),
    /// Leave the innermost scope.
    Pop,
}

/// The handlers in scope, innermost last, each with whether it takes
/// arguments; and whether a scope was ever left that had not been entered.
pub struct HandlerStackView {
    pub handlers: Seq<(Value, bool)>,
    pub underflowed: bool,
}

impl HandlerStackView {
    pub open spec fn empty() -> HandlerStackView {
        HandlerStackView { handlers: Seq::empty(), underflowed: false }
    }

    /// The stack after one operation.
    pub open spec fn step(self, op: HandlerOp) -> HandlerStackView {
        match op {
            HandlerOp::Push(h) => HandlerStackView { handlers: self.handlers.push((h, true)), ..self },
            HandlerOp::PushAnon(h) => HandlerStackView { handlers: self.handlers.push((h, false)), ..self },
            HandlerOp::Pop => if self.handlers.len() > 0 {
                HandlerStackView { handlers: self.handlers.drop_last(), ..self }
            } else {
                HandlerStackView { underflowed: true, ..self }
            },
        }
    }

    /// The stack after a sequence of operations.
    pub open spec fn run(self, ops: Seq<HandlerOp>) -> HandlerStackView
        decreases ops.len(),
    {
        if ops.len() == 0 {
            self
        } else {
            self.run(ops.drop_last()).step(ops.last())
        }
    }

    /// Every scope that was entered has been left, and no other.
    pub open spec fn balanced(self) -> bool {
        self.handlers.len() == 0 && !self.underflowed
    }
}

/// The number of scopes entered less the number of scopes left.
pub open spec fn depth(ops: Seq<HandlerOp>) -> int
    decreases ops.len(),
{
    if ops.len() == 0 {
        0
    } else {
        depth(ops.drop_last()) + if ops.last() is Pop {
            -1int
        } else {
            1int
        }
    }
}

/// At no point have more scopes been left than entered.
pub open spec fn well_nested(ops: Seq<HandlerOp>) -> bool {
    forall|k: int| 0 <= k <= ops.len() ==> depth(#[trigger] ops.take(k)) >= 0
}

/// A sequence of operations from the empty stack leaves a scope that it
/// has not entered exactly if it is not well nested; a well-nested sequence
/// ends with as many handlers in scope as its depth.
pub proof fn lemma_run_depth(ops: Seq<HandlerOp>)
    ensures
        HandlerStackView::empty().run(ops).underflowed <==> !well_nested(ops),
        well_nested(ops) ==> HandlerStackView::empty().run(ops).handlers.len() == depth(ops),
    decreases ops.len(),
{
    if ops.len() == 0 {
        assert forall|k: int| 0 <= k <= ops.len() implies depth(#[trigger] ops.take(k)) >= 0 by {
            assert(ops.take(k).len() == 0);
        }
    } else {
        let front = ops.drop_last();
        lemma_run_depth(front);
        assert(ops.take(ops.len() as int) == ops);
        assert forall|k: int| 0 <= k <= front.len() implies #[trigger] ops.take(k) == front.take(k) by {}
        if well_nested(ops) {
            assert forall|k: int| 0 <= k <= front.len() implies depth(#[trigger] front.take(k)) >= 0 by {
                assert(ops.take(k) == front.take(k));
            }
            assert(front.take(front.len() as int) == front);
        }
        if well_nested(front) {
            assert(front.take(front.len() as int) == front);
            if depth(ops) >= 0 {
                assert forall|k: int| 0 <= k <= ops.len() implies depth(#[trigger] ops.take(k)) >= 0 by {
                    if k <= front.len() {
                        assert(ops.take(k) == front.take(k));
                    }
                }
            }
        }
    }
}

/// A sequence of operations from the empty stack ends balanced exactly if
/// it never leaves a scope that it has not entered and leaves every scope
/// that it enters.
pub proof fn lemma_balanced_sequences(ops: Seq<HandlerOp>)
    ensures
        HandlerStackView::empty().run(ops).balanced() <==> (well_nested(ops) && depth(ops) == 0),
{
    lemma_run_depth(ops);
}

/// The handler scopes left open, or left without having been entered.
#[derive(Debug, Clone, Copy, PartialEq, Eq, Structural, Hash)]
pub enum HandlerStackError {
    /// This many scopes were entered and not left.
    Unclosed(usize),
    /// A scope was left that had not been entered.
    Underflow,
}

pub struct ExceptionHandlerStack {
    stack: Vec<(Value, bool)>,
    underflowed: bool,
}

impl View for ExceptionHandlerStack {
    type V = HandlerStackView;

    closed spec fn view(&self) -> HandlerStackView {
        HandlerStackView { handlers: self.stack@, underflowed: self.underflowed }
    }
}

impl ExceptionHandlerStack {
    pub fn new() -> (s: ExceptionHandlerStack)
        ensures
            s@ == HandlerStackView::empty(),
    {
        ExceptionHandlerStack { stack: Vec::new(), underflowed: false }
    }

    /// Enters the scope of a handler that takes the error's type, reason
    /// and trace.
    pub fn push_handler(&mut self, handler: Value)
        ensures
            final(self)@ == old(self)@.step(HandlerOp::Push(handler)),
    {
        self.stack.push((handler, true));
    }

    /// Enters the scope of a handler that takes no arguments.
    pub fn push_anon_handler(&mut self, handler: Value)
        ensures
            final(self)@ == old(self)@.step(HandlerOp::PushAnon(handler)),
    {
        self.stack.push((handler, false));
    }

    /// Leaves the innermost scope. Without a scope to leave the stack stays
    /// empty and remembers the underflow.
    pub fn pop_handler(&mut self)
        ensures
            final(self)@ == old(self)@.step(HandlerOp::Pop),
    {
        if self.stack.len() > 0 {
            self.stack.pop();
        } else {
            self.underflowed = true;
        }
    }

    /// Ends `block` with a call of the innermost handler: with the error's
    /// type, reason and trace if the handler takes arguments, without
    /// arguments if it does not.
    pub fn make_error_jump(&self, b: &mut FunctionBuilder, block: Label, typ: Value, error: Value, trace: Value)
        requires
            self@.handlers.len() > 0,
            old(b)@.inv(),
            old(b)@.is_live(block),
            old(b)@.blocks@.len() + 2 <= u32::MAX,
            old(b)@.next_value + 2 <= u32::MAX,
        ensures
            call_emitted(
                old(b)@,
                final(b)@,
                block,
                self@.handlers.last().0,
                if self@.handlers.last().1 {
                    seq![typ, error, trace]
                } else {
                    Seq::<Value>::empty()
                },
            ),
    {
        let (handler, has_arg) = self.stack[self.stack.len() - 1];
        let mut args: Vec<Value> = Vec::new();
        if has_arg {
            args.push(typ);
            args.push(error);
            args.push(trace);
        }
        assert(args@ =~= if has_arg {
            seq![typ, error, trace]
        } else {
            Seq::<Value>::empty()
        });
        assert((handler, has_arg) == self@.handlers.last());
        b.op_call(block, handler, args.as_slice());
    }

    /// Ends the lowering of a construct. Every scope that was entered has
    /// been left by then, and no other: `balance` tells whether that holds.
    pub fn finish(&self)
        requires
            self@.balanced(),
    {
    }

    /// Whether every scope that was entered has been left, and no other;
    /// if not, what is amiss.
    pub fn balance(&self) -> (r: Result<(), HandlerStackError>)
        ensures
            r is Ok <==> self@.balanced(),
            r == Err::<(), HandlerStackError>(HandlerStackError::Underflow) <==> self@.underflowed,
            forall|n: usize| r == Err::<(), HandlerStackError>(HandlerStackError::Unclosed(n)) <==> !self@.underflowed && n > 0 && self@.handlers.len() == n,
    {
        if self.underflowed {
            Err(HandlerStackError::Underflow)
        } else if self.stack.len() > 0 {
            Err(HandlerStackError::Unclosed(self.stack.len()))
        } else {
            Ok(())
        }
    }

    /// The number of handlers in scope.
    pub fn len(&self) -> (n: usize)
        ensures
            n == self@.handlers.len(),
    {
        self.stack.len()
    }
}

} // verus!
