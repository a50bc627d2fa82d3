//! What it means for a term to match a pattern, decision trees over the
//! columns of a clause list, and what a decision tree decides.
use vstd::prelude::*;
use crate::ir::{AtomicLiteral, Clause, Pattern, Value};

verus! {

/// A term that a scrutinee may hold when a case split runs.
pub enum Term {
    Literal(AtomicLiteral),
    Tuple(Seq<Term>),
}

/// The outermost form of a pattern that tests something: a given literal,
/// or a tuple of a given number of elements.
#[derive(Debug, Clone, Copy, PartialEq, Eq, Structural, Hash)]
pub enum Shape {
    Literal(AtomicLiteral),
    Tuple(usize),
}

/// A decision tree. A test looks at one column: where the term there has
/// the shape, the elements of the term are appended as new columns and
/// `yes` goes on; where it has not, `no` goes on with the columns as they
/// are.
#[derive(Debug)]
pub enum Decision {
    /// No clause matches.
    Fail,
    /// The clause at this position is selected; each of its variables is
    /// bound to the term in a column.
    Leaf { clause: usize, bindings: Vec<(Value, usize)> },
    Test { column: usize, shape: Shape, yes: Box<Decision>, no: Box<Decision> },
}

/// Whether term `t` matches pattern `p`.
pub open spec fn pattern_matches(p: Pattern, t: Term) -> bool
    decreases p,
{
    match p {
        Pattern::Wildcard => true,
        Pattern::Variable(_) => true,
        Pattern::Literal(l) => t == Term::Literal(l),
        Pattern::Tuple(subs) => t is Tuple && t->Tuple_0.len() == subs@.len() && forall|i: int|
            0 <= i < subs@.len() ==> pattern_matches(#[trigger] subs@[i], t->Tuple_0[i]),
    }
}

/// Whether the terms match the patterns, position by position.
pub open spec fn row_matches(pats: Seq<Pattern>, vals: Seq<Term>) -> bool {
    pats.len() == vals.len() && forall|j: int| 0 <= j < pats.len() ==> pattern_matches(#[trigger] pats[j], vals[j])
}

/// The position of the first clause from `from` on whose patterns all
/// match: what a scan of the clauses in order selects.
pub open spec fn first_match_from(clauses: Seq<Clause>, vals: Seq<Term>, from: nat) -> Option<nat>
    decreases clauses.len() - from,
{
    if from >= clauses.len() {
        None
    } else if row_matches(clauses[from as int].patterns@, vals) {
        Some(from)
    } else {
        first_match_from(clauses, vals, from + 1)
    }
}

/// The position of the first clause whose patterns all match.
pub open spec fn first_match(clauses: Seq<Clause>, vals: Seq<Term>) -> Option<nat> {
    first_match_from(clauses, vals, 0)
}

pub open spec fn term_has_shape(t: Term, s: Shape) -> bool {
    match s {
        Shape::Literal(l) => t == Term::Literal(l),
        Shape::Tuple(n) => t is Tuple && t->Tuple_0.len() == n,
    }
}

/// The elements of a tuple; nothing for a literal.
pub open spec fn subterms(t: Term) -> Seq<Term> {
    match t {
        Term::Literal(_) => Seq::empty(),
        Term::Tuple(ts) => ts,
    }
}

/// The number of columns that a passed test of the shape appends.
pub open spec fn shape_arity(s: Shape) -> nat {
    match s {
        Shape::Literal(_) => 0,
        Shape::Tuple(n) => n as nat,
    }
}

/// Whether the test at the root of a tree passes on the terms.
pub open spec fn test_passes(column: usize, shape: Shape, vals: Seq<Term>) -> bool {
    column < vals.len() && term_has_shape(vals[column as int], shape)
}

/// The clause that the tree selects for the terms in the columns, or
/// `None` where it ends in failure.
pub open spec fn decide(d: Decision, vals: Seq<Term>) -> Option<nat>
    decreases d,
{
    match d {
        Decision::Fail => None,
        Decision::Leaf { clause, .. } => Some(clause as nat),
        Decision::Test { column, shape, yes, no } => if test_passes(column, shape, vals) {
            decide(*yes, vals + subterms(vals[column as int]))
        } else {
            decide(*no, vals)
        },
    }
}

/// The way through the tree that the terms take: for each test on it,
/// whether it passed.
pub open spec fn path_taken(d: Decision, vals: Seq<Term>) -> Seq<bool>
    decreases d,
{
    match d {
        Decision::Fail => Seq::empty(),
        Decision::Leaf { .. } => Seq::empty(),
        Decision::Test { column, shape, yes, no } => if test_passes(column, shape, vals) {
            seq![true] + path_taken(*yes, vals + subterms(vals[column as int]))
        } else {
            seq![false] + path_taken(*no, vals)
        },
    }
}

/// Whether `path` leads from the root of the tree to a leaf or a failure,
/// taking at each test the side that the terms select.
pub open spec fn follows(d: Decision, vals: Seq<Term>, path: Seq<bool>) -> bool
    decreases d,
{
    match d {
        Decision::Fail => path.len() == 0,
        Decision::Leaf { .. } => path.len() == 0,
        Decision::Test { column, shape, yes, no } => path.len() > 0 && path[0] == test_passes(column, shape, vals) && if path[0] {
            follows(*yes, vals + subterms(vals[column as int]), path.drop_first())
        } else {
            follows(*no, vals, path.drop_first())
        },
    }
}

/// Whatever the scrutinees hold, exactly one way leads through the tree:
/// the terms follow `path_taken` and no other path.
pub proof fn lemma_one_path(d: Decision, vals: Seq<Term>, path: Seq<bool>)
    ensures
        follows(d, vals, path) <==> path == path_taken(d, vals),
    decreases d,
{
    match d {
        Decision::Fail => {
            if path.len() == 0 {
                assert(path =~= Seq::<bool>::empty());
            }
        },
        Decision::Leaf { .. } => {
            if path.len() == 0 {
                assert(path =~= Seq::<bool>::empty());
            }
        },
        Decision::Test { column, shape, yes, no } => {
            if test_passes(column, shape, vals) {
                let rest = path_taken(*yes, vals + subterms(vals[column as int]));
                if path.len() > 0 {
                    lemma_one_path(*yes, vals + subterms(vals[column as int]), path.drop_first());
                    assert(path == seq![path[0]] + path.drop_first());
                }
                assert((seq![true] + rest).drop_first() == rest);
            } else {
                let rest = path_taken(*no, vals);
                if path.len() > 0 {
                    lemma_one_path(*no, vals, path.drop_first());
                    assert(path == seq![path[0]] + path.drop_first());
                }
                assert((seq![false] + rest).drop_first() == rest);
            }
        },
    }
}

/// A tree is well formed over `ncols` columns where every test and every
/// binding names a column that exists when it is reached.
pub open spec fn decision_wf(d: Decision, ncols: nat) -> bool
    decreases d,
{
    match d {
        Decision::Fail => true,
        Decision::Leaf { clause, bindings } => forall|k: int| 0 <= k < bindings@.len() ==> (#[trigger] bindings@[k]).1 < ncols,
        Decision::Test { column, shape, yes, no } => column < ncols && decision_wf(*yes, ncols + shape_arity(shape))
            && decision_wf(*no, ncols),
    }
}

/// Every leaf of the tree selects a clause below `n`.
pub open spec fn leaves_below(d: Decision, n: nat) -> bool
    decreases d,
{
    match d {
        Decision::Fail => true,
        Decision::Leaf { clause, .. } => clause < n,
        Decision::Test { yes, no, .. } => leaves_below(*yes, n) && leaves_below(*no, n),
    }
}

/// Matching term `t` against pattern `p` binds variable `x` to term `v`:
/// the pattern has the variable at a place where the term has `v`.
pub open spec fn binds_to(p: Pattern, t: Term, x: Value, v: Term) -> bool
    decreases p,
{
    match p {
        Pattern::Variable(y) => y == x && v == t,
        Pattern::Tuple(subs) => t is Tuple && t->Tuple_0.len() == subs@.len() && exists|i: int|
            0 <= i < subs@.len() && binds_to(#[trigger] subs@[i], t->Tuple_0[i], x, v),
        _ => false,
    }
}

/// Matching the terms against the patterns, position by position, binds
/// variable `x` to term `v`.
pub open spec fn row_binds(pats: Seq<Pattern>, vals: Seq<Term>, x: Value, v: Term) -> bool {
    exists|j: int| 0 <= j < pats.len() && j < vals.len() && binds_to(#[trigger] pats[j], vals[j], x, v)
}

/// The first clause that the terms match binds variable `x` to term `v`.
pub open spec fn first_match_binds(clauses: Seq<Clause>, vals: Seq<Term>, x: Value, v: Term) -> bool {
    match first_match(clauses, vals) {
        Some(i) => row_binds(clauses[i as int].patterns@, vals, x, v),
        None => false,
    }
}

/// The leaf that the terms reach binds variable `x` to term `v`: it has a
/// binding of `x` to a column, and the column holds `v`.
pub open spec fn bound_at_leaf(d: Decision, vals: Seq<Term>, x: Value, v: Term) -> bool
    decreases d,
{
    match d {
        Decision::Fail => false,
        Decision::Leaf { bindings, .. } => exists|k: int|
            0 <= k < bindings@.len() && (#[trigger] bindings@[k]).0 == x && bindings@[k].1 < vals.len() && vals[bindings@[k].1 as int] == v,
        Decision::Test { column, shape, yes, no } => if test_passes(column, shape, vals) {
            bound_at_leaf(*yes, vals + subterms(vals[column as int]), x, v)
        } else {
            bound_at_leaf(*no, vals, x, v)
        },
    }
}

} // verus!
