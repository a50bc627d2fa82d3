//! The compilation of a clause list into a decision tree.
//!
//! The tree is built from the top. At each node the matrix holds the
//! clauses still in play. If its first row tests nothing, that clause is
//! selected. Otherwise one column is tested for the shape that the first
//! row asks for there: among the columns where the first row asks for
//! something, the one where the most rows ask for that same shape, and the
//! leftmost of several.
use vstd::prelude::*;
use crate::ir::{Clause, Pattern, Value};
use crate::matrix::{
    has_shape, is_concrete, lemma_residual_first_binds, lemma_residual_first_match, lemma_residual_weight,
    lemma_specialize_first_binds, lemma_specialize_first_match, lemma_rows_stay_below, lemma_specialize_weight,
    pattern_shape, residual, rows_below, rows_first_binds, rows_first_match, rows_have_width, rows_view, rows_weight,
    specialize, specialize_row, Row, SpecRow,
};
use crate::pattern::{
    binds_to, bound_at_leaf, decide, decision_wf, first_match_binds, leaves_below, first_match, row_binds, shape_arity,
    first_match_from, pattern_matches, row_matches, subterms, test_passes, Decision, Shape, Term,
};

verus! {

/// The shape that a pattern asks for, if it asks for one.
pub fn shape_of(p: &Pattern) -> (r: Option<Shape>)
    ensures
        r is Some <==> is_concrete(*p),
        r is Some ==> r->Some_0 == pattern_shape(*p),
{
    match p {
        Pattern::Literal(l) => Some(Shape::Literal(*l)),
        Pattern::Tuple(subs) => Some(Shape::Tuple(subs.len())),
        _ => None,
    }
}

/// What is left of one row once column `c` is known to have shape `s`.
fn specialize_one<'a>(row: &Row<'a>, c: usize, s: Shape, wild: &'a Pattern) -> (r: Option<Row<'a>>)
    requires
        *wild == Pattern::Wildcard,
        c < row.pats@.len(),
    ensures
        match r {
            Some(r2) => specialize_row(row@, c as int, s) == Some(r2@),
            None => specialize_row(row@, c as int, s) is None,
        },
{
    let p: &'a Pattern = row.pats[c];
    let sh = shape_of(p);
    if sh.is_some() && sh.unwrap() != s {
        return None;
    }
    let mut pats: Vec<&'a Pattern> = Vec::new();
    let mut j: usize = 0;
    while j < row.pats.len()
        invariant
            j <= row.pats@.len(),
            c < row.pats@.len(),
            *wild == Pattern::Wildcard,
            sh is Some <==> is_concrete(*p),
            pats@.len() == j,
            forall|k: int| 0 <= k < j ==> *pats@[k] == if k == c && sh is Some { Pattern::Wildcard } else { *row.pats@[k] },
        decreases row.pats@.len() - j,
    {
        if j == c && sh.is_some() {
            pats.push(wild);
        } else {
            pats.push(row.pats[j]);
        }
        j += 1;
    }
    let ghost n = row.pats@.len();
    match p {
        Pattern::Tuple(subs) => {
            let mut k: usize = 0;
            while k < subs.len()
                invariant
                    k <= subs@.len(),
                    pats@.len() == n + k,
                    forall|i: int| 0 <= i < n ==> *pats@[i] == if i == c { Pattern::Wildcard } else { *row.pats@[i] },
                    forall|i: int| n <= i < n + k ==> *pats@[i] == subs@[i - n],
                decreases subs@.len() - k,
            {
                pats.push(&subs[k]);
                k += 1;
            }
        },
        Pattern::Literal(_) => {},
        _ => {
            let extra = match s {
                Shape::Tuple(m) => m,
                Shape::Literal(_) => 0,
            };
            let mut k: usize = 0;
            while k < extra
                invariant
                    k <= extra,
                    *wild == Pattern::Wildcard,
                    pats@.len() == n + k,
                    forall|i: int| 0 <= i < n ==> *pats@[i] == *row.pats@[i],
                    forall|i: int| n <= i < n + k ==> *pats@[i] == Pattern::Wildcard,
                decreases extra - k,
            {
                pats.push(wild);
                k += 1;
            }
        },
    }
    let r2 = Row { pats, clause: row.clause };
    proof {
        let want = specialize_row(row@, c as int, s)->Some_0;
        assert(r2@.pats =~= want.pats);
    }
    Some(r2)
}

/// The matrix for the terms that have shape `s` in column `c`.
fn specialize_rows<'a>(rows: &Vec<Row<'a>>, c: usize, s: Shape, wild: &'a Pattern, Ghost(ncols): Ghost<nat>) -> (out: Vec<Row<'a>>)
    requires
        *wild == Pattern::Wildcard,
        rows_have_width(rows_view(rows@), ncols),
        c < ncols,
    ensures
        rows_view(out@) == specialize(rows_view(rows@), c as int, s),
{
    let ghost rv = rows_view(rows@);
    let mut out: Vec<Row<'a>> = Vec::new();
    let mut i: usize = 0;
    assert(rv.skip(0) == rv);
    assert(rows_view(out@) =~= Seq::<SpecRow>::empty());
    while i < rows.len()
        invariant
            i <= rows@.len(),
            *wild == Pattern::Wildcard,
            rv == rows_view(rows@),
            rows_have_width(rv, ncols),
            c < ncols,
            specialize(rv, c as int, s) == rows_view(out@) + specialize(rv.skip(i as int), c as int, s),
        decreases rows@.len() - i,
    {
        proof {
            assert(rv.skip(i as int)[0] == rv[i as int]);
            assert(rv.skip(i as int).drop_first() == rv.skip(i + 1));
            assert(rv[i as int] == rows@[i as int]@);
            assert(rv[i as int].pats.len() == ncols);
        }
        let ghost before = rows_view(out@);
        match specialize_one(&rows[i], c, s, wild) {
            Some(r2) => {
                out.push(r2);
                proof {
                    assert(rows_view(out@) =~= before.push(r2@));
                    assert(before.push(r2@) + specialize(rv.skip(i + 1), c as int, s) =~= before + (seq![r2@] + specialize(
                        rv.skip(i + 1),
                        c as int,
                        s,
                    )));
                }
            },
            None => {},
        }
        i += 1;
    }
    assert(rv.skip(i as int).len() == 0);
    assert(rows_view(out@) + Seq::<SpecRow>::empty() =~= rows_view(out@));
    out
}

/// A copy of a row.
fn copy_row<'a>(row: &Row<'a>) -> (r: Row<'a>)
    ensures
        r@ == row@,
{
    let mut pats: Vec<&'a Pattern> = Vec::new();
    let mut j: usize = 0;
    while j < row.pats.len()
        invariant
            j <= row.pats@.len(),
            pats@.len() == j,
            forall|k: int| 0 <= k < j ==> *pats@[k] == *row.pats@[k],
        decreases row.pats@.len() - j,
    {
        pats.push(row.pats[j]);
        j += 1;
    }
    let r = Row { pats, clause: row.clause };
    assert(r@.pats =~= row@.pats);
    r
}

/// The matrix for the terms that do not have shape `s` in column `c`.
fn residual_rows<'a>(rows: &Vec<Row<'a>>, c: usize, s: Shape, Ghost(ncols): Ghost<nat>) -> (out: Vec<Row<'a>>)
    requires
        rows_have_width(rows_view(rows@), ncols),
        c < ncols,
    ensures
        rows_view(out@) == residual(rows_view(rows@), c as int, s),
{
    let ghost rv = rows_view(rows@);
    let mut out: Vec<Row<'a>> = Vec::new();
    let mut i: usize = 0;
    assert(rv.skip(0) == rv);
    assert(rows_view(out@) =~= Seq::<SpecRow>::empty());
    while i < rows.len()
        invariant
            i <= rows@.len(),
            rv == rows_view(rows@),
            rows_have_width(rv, ncols),
            c < ncols,
            residual(rv, c as int, s) == rows_view(out@) + residual(rv.skip(i as int), c as int, s),
        decreases rows@.len() - i,
    {
        proof {
            assert(rv.skip(i as int)[0] == rv[i as int]);
            assert(rv.skip(i as int).drop_first() == rv.skip(i + 1));
            assert(rv[i as int] == rows@[i as int]@);
            assert(rv[i as int].pats.len() == ncols);
        }
        let ghost before = rows_view(out@);
        let row = &rows[i];
        let sh = shape_of(row.pats[c]);
        if !(sh.is_some() && sh.unwrap() == s) {
            let r2 = copy_row(row);
            out.push(r2);
            proof {
                assert(rows_view(out@) =~= before.push(r2@));
                assert(before.push(r2@) + residual(rv.skip(i + 1), c as int, s) =~= before + (seq![r2@] + residual(
                    rv.skip(i + 1),
                    c as int,
                    s,
                )));
            }
        }
        i += 1;
    }
    assert(rv.skip(i as int).len() == 0);
    assert(rows_view(out@) + Seq::<SpecRow>::empty() =~= rows_view(out@));
    out
}

/// The number of rows that ask for shape `s` in column `c`.
pub open spec fn agreement(rows: Seq<SpecRow>, c: int, s: Shape) -> nat
    decreases rows.len(),
{
    if rows.len() == 0 {
        0
    } else {
        agreement(rows.drop_last(), c, s) + if has_shape(rows.last().pats[c], s) {
            1nat
        } else {
            0nat
        }
    }
}

/// How many rows ask in column `c` for what the first row asks for there.
pub open spec fn column_score(rows: Seq<SpecRow>, c: int) -> nat {
    agreement(rows, c, pattern_shape(rows[0].pats[c]))
}

/// Column `c` is the one to test: the first row asks for something there,
/// no column where it does scores higher, and none to the left scores as
/// high.
pub open spec fn is_best_column(rows: Seq<SpecRow>, ncols: nat, c: int) -> bool {
    &&& 0 <= c < ncols
    &&& is_concrete(rows[0].pats[c])
    &&& forall|k: int| 0 <= k < ncols && is_concrete(#[trigger] rows[0].pats[k]) ==> column_score(rows, k) <= column_score(rows, c)
    &&& forall|k: int| 0 <= k < c && is_concrete(#[trigger] rows[0].pats[k]) ==> column_score(rows, k) < column_score(rows, c)
}

/// The variables of a row and the columns they stand in.
pub open spec fn row_bindings(pats: Seq<Pattern>) -> Seq<(Value, usize)>
    decreases pats.len(),
{
    if pats.len() == 0 {
        Seq::empty()
    } else {
        match pats.last() {
            Pattern::Variable(v) => row_bindings(pats.drop_last()).push((v, (pats.len() - 1) as usize)),
            _ => row_bindings(pats.drop_last()),
        }
    }
}

/// The bindings of a row name exactly the columns that hold a variable,
/// each with its variable.
proof fn lemma_row_bindings(pats: Seq<Pattern>)
    requires
        pats.len() <= usize::MAX,
    ensures
        forall|k: int| 0 <= k < row_bindings(pats).len() ==> {
            &&& (#[trigger] row_bindings(pats)[k]).1 < pats.len()
            &&& pats[row_bindings(pats)[k].1 as int] == Pattern::Variable(row_bindings(pats)[k].0)
        },
        forall|j: int| 0 <= j < pats.len() && (#[trigger] pats[j]) is Variable ==> exists|k: int|
            0 <= k < row_bindings(pats).len() && row_bindings(pats)[k] == (pats[j]->Variable_0, j as usize),
    decreases pats.len(),
{
    if pats.len() > 0 {
        let front = pats.drop_last();
        let rb0 = row_bindings(front);
        let rb = row_bindings(pats);
        lemma_row_bindings(front);
        assert forall|k: int| 0 <= k < rb.len() implies {
            &&& (#[trigger] rb[k]).1 < pats.len()
            &&& pats[rb[k].1 as int] == Pattern::Variable(rb[k].0)
        } by {
            if k < rb0.len() {
                assert(rb[k] == rb0[k]);
                assert(front[rb0[k].1 as int] == pats[rb0[k].1 as int]);
            }
        }
        assert forall|j: int| 0 <= j < pats.len() && (#[trigger] pats[j]) is Variable implies exists|k: int|
            0 <= k < rb.len() && rb[k] == (pats[j]->Variable_0, j as usize) by {
            if j < front.len() {
                assert(front[j] == pats[j]);
                let k = choose|k: int| 0 <= k < rb0.len() && rb0[k] == (front[j]->Variable_0, j as usize);
                assert(rb[k] == rb0[k]);
            } else {
                assert(rb[rb.len() - 1] == (pats[j]->Variable_0, j as usize));
            }
        }
    }
}

/// Tree `d` is the tree that compilation makes of the matrix: failure for
/// an empty matrix; a leaf for the clause of the first row where that row
/// tests nothing; and otherwise a test of the best column for the shape
/// that the first row asks for there, over the trees of the specialized
/// and of the residual matrix.
pub open spec fn is_compiled(d: Decision, rows: Seq<SpecRow>, ncols: nat) -> bool
    decreases d,
{
    match d {
        Decision::Fail => rows.len() == 0,
        Decision::Leaf { clause, bindings } => {
            &&& rows.len() > 0
            &&& clause == rows[0].clause
            &&& bindings@ == row_bindings(rows[0].pats)
            &&& forall|k: int| 0 <= k < ncols ==> !is_concrete(#[trigger] rows[0].pats[k])
        },
        Decision::Test { column, shape, yes, no } => {
            &&& rows.len() > 0
            &&& is_best_column(rows, ncols, column as int)
            &&& shape == pattern_shape(rows[0].pats[column as int])
            &&& is_compiled(*yes, specialize(rows, column as int, shape), ncols + shape_arity(shape))
            &&& is_compiled(*no, residual(rows, column as int, shape), ncols)
        },
    }
}

fn count_agreeing<'a>(rows: &Vec<Row<'a>>, c: usize, s: Shape, Ghost(ncols): Ghost<nat>) -> (n: usize)
    requires
        rows_have_width(rows_view(rows@), ncols),
        c < ncols,
    ensures
        n == agreement(rows_view(rows@), c as int, s),
{
    let ghost rv = rows_view(rows@);
    let mut n: usize = 0;
    let mut i: usize = 0;
    assert(rv.take(0).len() == 0);
    while i < rows.len()
        invariant
            i <= rows@.len(),
            rv == rows_view(rows@),
            rows_have_width(rv, ncols),
            c < ncols,
            n <= i,
            n == agreement(rv.take(i as int), c as int, s),
        decreases rows@.len() - i,
    {
        proof {
            assert(rv.take(i + 1).drop_last() == rv.take(i as int));
            assert(rv.take(i + 1).last() == rows@[i as int]@);
            assert(rv[i as int].pats.len() == ncols);
        }
        let sh = shape_of(rows[i].pats[c]);
        if sh.is_some() && sh.unwrap() == s {
            n += 1;
        }
        i += 1;
    }
    assert(rv.take(i as int) == rv);
    n
}

/// The column to test, or `None` where the first row tests nothing.
fn choose_column<'a>(rows: &Vec<Row<'a>>, ncols: usize) -> (r: Option<usize>)
    requires
        rows@.len() > 0,
        rows_have_width(rows_view(rows@), ncols as nat),
    ensures
        match r {
            Some(c) => is_best_column(rows_view(rows@), ncols as nat, c as int),
            None => forall|k: int| 0 <= k < ncols ==> !is_concrete(#[trigger] rows_view(rows@)[0].pats[k]),
        },
{
    let ghost rv = rows_view(rows@);
    let head = &rows[0];
    assert(rv[0] == head@);
    assert(rv[0].pats.len() == ncols);
    let mut best: Option<usize> = None;
    let mut best_score: usize = 0;
    let mut c: usize = 0;
    while c < ncols
        invariant
            c <= ncols,
            rows@.len() > 0,
            rv == rows_view(rows@),
            rv[0] == head@,
            head.pats@.len() == ncols,
            rows_have_width(rv, ncols as nat),
            match best {
                Some(b) => {
                    &&& b < c
                    &&& is_concrete(rv[0].pats[b as int])
                    &&& best_score == column_score(rv, b as int)
                    &&& forall|k: int| 0 <= k < c && is_concrete(#[trigger] rv[0].pats[k]) ==> column_score(rv, k) <= best_score
                    &&& forall|k: int| 0 <= k < b && is_concrete(#[trigger] rv[0].pats[k]) ==> column_score(rv, k) < best_score
                },
                None => forall|k: int| 0 <= k < c ==> !is_concrete(#[trigger] rv[0].pats[k]),
            },
        decreases ncols - c,
    {
        match shape_of(head.pats[c]) {
            Some(s) => {
                let score = count_agreeing(rows, c, s, Ghost(ncols as nat));
                if best.is_none() || score > best_score {
                    best = Some(c);
                    best_score = score;
                }
            },
            None => {},
        }
        c += 1;
    }
    best
}

/// The variables of a row and the columns they stand in.
fn leaf_bindings<'a>(row: &Row<'a>) -> (out: Vec<(Value, usize)>)
    ensures
        out@ == row_bindings(row@.pats),
        forall|k: int| 0 <= k < out@.len() ==> (#[trigger] out@[k]).1 < row@.pats.len(),
{
    let ghost rp = row@.pats;
    let mut out: Vec<(Value, usize)> = Vec::new();
    let mut j: usize = 0;
    assert(rp.take(0).len() == 0);
    while j < row.pats.len()
        invariant
            j <= row.pats@.len(),
            rp == row@.pats,
            out@ == row_bindings(rp.take(j as int)),
            forall|k: int| 0 <= k < out@.len() ==> (#[trigger] out@[k]).1 < j,
        decreases row.pats@.len() - j,
    {
        proof {
            assert(rp.take(j + 1).drop_last() == rp.take(j as int));
            assert(rp.take(j + 1).last() == *row.pats@[j as int]);
        }
        match row.pats[j] {
            Pattern::Variable(v) => {
                out.push((*v, j));
            },
            _ => {},
        }
        j += 1;
    }
    assert(rp.take(j as int) == rp);
    out
}

/// Compiles a matrix into a decision tree that selects, for whatever the
/// columns hold, the clause of the first row that matches.
pub fn compile_rows<'a>(rows: &Vec<Row<'a>>, ncols: usize, nclauses: usize, wild: &'a Pattern) -> (d: Decision)
    requires
        *wild == Pattern::Wildcard,
        rows_have_width(rows_view(rows@), ncols as nat),
        rows_below(rows_view(rows@), nclauses as nat),
    ensures
        decision_wf(d, ncols as nat),
        leaves_below(d, nclauses as nat),
        forall|vals: Seq<Term>| vals.len() == ncols ==> #[trigger] decide(d, vals) == rows_first_match(rows_view(rows@), vals),
        forall|vals: Seq<Term>, x: Value, v: Term|
            vals.len() == ncols ==> #[trigger] bound_at_leaf(d, vals, x, v) == rows_first_binds(rows_view(rows@), vals, x, v),
        is_compiled(d, rows_view(rows@), ncols as nat),
    decreases rows_weight(rows_view(rows@)),
{
    let ghost rv = rows_view(rows@);
    if rows.len() == 0 {
        return Decision::Fail;
    }
    assert(rv[0] == rows@[0]@);
    assert(rv[0].pats.len() == ncols);
    match choose_column(rows, ncols) {
        None => {
            let bindings = leaf_bindings(&rows[0]);
            let d = Decision::Leaf { clause: rows[0].clause, bindings };
            proof {
                assert forall|vals: Seq<Term>| vals.len() == ncols implies #[trigger] decide(d, vals) == rows_first_match(rv, vals) by {
                    assert forall|j: int| 0 <= j < rv[0].pats.len() implies pattern_matches(#[trigger] rv[0].pats[j], vals[j]) by {
                        assert(!is_concrete(rv[0].pats[j]));
                    }
                }
                lemma_row_bindings(rv[0].pats);
                assert forall|vals: Seq<Term>, x: Value, v: Term| vals.len() == ncols implies #[trigger] bound_at_leaf(d, vals, x, v)
                    == rows_first_binds(rv, vals, x, v) by {
                    let pats = rv[0].pats;
                    assert forall|j: int| 0 <= j < pats.len() implies pattern_matches(#[trigger] pats[j], vals[j]) by {
                        assert(!is_concrete(pats[j]));
                    }
                    assert(row_matches(pats, vals));
                    let bs = row_bindings(pats);
                    assert(d->Leaf_bindings@ == bs);
                    assert(rows_first_binds(rv, vals, x, v) == row_binds(pats, vals, x, v));
                    if bound_at_leaf(d, vals, x, v) {
                        let k = choose|k: int| 0 <= k < bs.len() && (#[trigger] bs[k]).0 == x && bs[k].1 < vals.len() && vals[bs[k].1 as int] == v;
                        let c = bs[k].1 as int;
                        assert(pats[c] == Pattern::Variable(bs[k].0));
                        assert(binds_to(pats[c], vals[c], x, v));
                        assert(row_binds(pats, vals, x, v));
                    }
                    if row_binds(pats, vals, x, v) {
                        let j = choose|j: int| 0 <= j < pats.len() && j < vals.len() && binds_to(#[trigger] pats[j], vals[j], x, v);
                        assert(!is_concrete(pats[j]));
                        assert(pats[j] is Variable);
                        let k = choose|k: int| 0 <= k < bs.len() && bs[k] == (pats[j]->Variable_0, j as usize);
                        assert(bs[k].0 == x);
                        assert(bs[k].1 == j);
                        assert(vals[bs[k].1 as int] == v);
                        assert(bound_at_leaf(d, vals, x, v));
                    }
                }
            }
            d
        },
        Some(c) => {
            let s = shape_of(rows[0].pats[c]).unwrap();
            let yes_rows = specialize_rows(rows, c, s, wild, Ghost(ncols as nat));
            let no_rows = residual_rows(rows, c, s, Ghost(ncols as nat));
            proof {
                lemma_specialize_weight(rv, c as int, s, ncols as nat);
                lemma_residual_weight(rv, c as int, s, ncols as nat);
                lemma_rows_stay_below(rv, c as int, s, nclauses as nat);
                assert(rows_view(yes_rows@)[0] == yes_rows@[0]@);
            }
            let wide = yes_rows[0].pats.len();
            let yes = compile_rows(&yes_rows, wide, nclauses, wild);
            let no = compile_rows(&no_rows, ncols, nclauses, wild);
            let d = Decision::Test { column: c, shape: s, yes: Box::new(yes), no: Box::new(no) };
            proof {
                assert forall|vals: Seq<Term>| vals.len() == ncols implies #[trigger] decide(d, vals) == rows_first_match(rv, vals) by {
                    if test_passes(c, s, vals) {
                        lemma_specialize_first_match(rv, c as int, s, vals);
                        let vals2 = vals + subterms(vals[c as int]);
                        assert(vals2.len() == wide);
                        assert(decide(yes, vals2) == rows_first_match(rows_view(yes_rows@), vals2));
                    } else {
                        lemma_residual_first_match(rv, c as int, s, vals);
                        assert(decide(no, vals) == rows_first_match(rows_view(no_rows@), vals));
                    }
                }
                assert forall|vals: Seq<Term>, x: Value, v: Term| vals.len() == ncols implies #[trigger] bound_at_leaf(d, vals, x, v)
                    == rows_first_binds(rv, vals, x, v) by {
                    if test_passes(c, s, vals) {
                        lemma_specialize_first_binds(rv, c as int, s, vals, x, v);
                        let vals2 = vals + subterms(vals[c as int]);
                        assert(vals2.len() == wide);
                        assert(bound_at_leaf(yes, vals2, x, v) == rows_first_binds(rows_view(yes_rows@), vals2, x, v));
                    } else {
                        lemma_residual_first_binds(rv, c as int, s, vals, x, v);
                        assert(bound_at_leaf(no, vals, x, v) == rows_first_binds(rows_view(no_rows@), vals, x, v));
                    }
                }
            }
            d
        },
    }
}

/// The rows that a clause list starts with: one for each clause from `from`
/// on that has a pattern for each of the `ncols` scrutinees. A clause with
/// another number of patterns matches nothing and gets no row.
pub open spec fn initial_rows(clauses: Seq<Clause>, ncols: nat, from: nat) -> Seq<SpecRow>
    decreases clauses.len() - from,
{
    if from >= clauses.len() {
        Seq::empty()
    } else if clauses[from as int].patterns@.len() == ncols {
        seq![SpecRow { pats: clauses[from as int].patterns@, clause: from as usize }] + initial_rows(clauses, ncols, from + 1)
    } else {
        initial_rows(clauses, ncols, from + 1)
    }
}

proof fn lemma_initial_rows(clauses: Seq<Clause>, vals: Seq<Term>, from: nat)
    requires
        clauses.len() <= usize::MAX,
    ensures
        rows_first_match(initial_rows(clauses, vals.len(), from), vals) == first_match_from(clauses, vals, from),
        rows_have_width(initial_rows(clauses, vals.len(), from), vals.len()),
        rows_below(initial_rows(clauses, vals.len(), from), clauses.len()),
        forall|x: Value, v: Term| #[trigger]
            rows_first_binds(initial_rows(clauses, vals.len(), from), vals, x, v) == match first_match_from(clauses, vals, from) {
                Some(i) => row_binds(clauses[i as int].patterns@, vals, x, v),
                None => false,
            },
    decreases clauses.len() - from,
{
    if from < clauses.len() {
        lemma_initial_rows(clauses, vals, from + 1);
        let rest = initial_rows(clauses, vals.len(), from + 1);
        if clauses[from as int].patterns@.len() == vals.len() {
            let r = SpecRow { pats: clauses[from as int].patterns@, clause: from as usize };
            let rows = seq![r] + rest;
            assert(rows[0] == r);
            assert(rows.drop_first() == rest);
            assert forall|i: int| 0 <= i < rows.len() implies (#[trigger] rows[i]).pats.len() == vals.len()
                && rows[i].clause < clauses.len() by {
                if i > 0 {
                    assert(rows[i] == rest[i - 1]);
                }
            }
            assert forall|x: Value, v: Term| #[trigger]
                rows_first_binds(rows, vals, x, v) == match first_match_from(clauses, vals, from) {
                    Some(i) => row_binds(clauses[i as int].patterns@, vals, x, v),
                    None => false,
                } by {
                assert(rows_first_binds(rest, vals, x, v) == match first_match_from(clauses, vals, from + 1) {
                    Some(i) => row_binds(clauses[i as int].patterns@, vals, x, v),
                    None => false,
                });
            }
        } else {
            assert forall|x: Value, v: Term| #[trigger]
                rows_first_binds(rest, vals, x, v) == match first_match_from(clauses, vals, from) {
                    Some(i) => row_binds(clauses[i as int].patterns@, vals, x, v),
                    None => false,
                } by {
                assert(rows_first_binds(rest, vals, x, v) == match first_match_from(clauses, vals, from + 1) {
                    Some(i) => row_binds(clauses[i as int].patterns@, vals, x, v),
                    None => false,
                });
            }
        }
    }
}

/// The matrix that a clause list starts with.
fn make_rows<'a>(clauses: &'a Vec<Clause>, ncols: usize) -> (out: Vec<Row<'a>>)
    ensures
        rows_view(out@) == initial_rows(clauses@, ncols as nat, 0),
{
    let mut out: Vec<Row<'a>> = Vec::new();
    let mut i: usize = 0;
    assert(rows_view(out@) =~= Seq::<SpecRow>::empty());
    while i < clauses.len()
        invariant
            i <= clauses@.len(),
            initial_rows(clauses@, ncols as nat, 0) == rows_view(out@) + initial_rows(clauses@, ncols as nat, i as nat),
        decreases clauses@.len() - i,
    {
        let cl = &clauses[i];
        let ghost before = rows_view(out@);
        if cl.patterns.len() == ncols {
            let mut pats: Vec<&'a Pattern> = Vec::new();
            let mut j: usize = 0;
            while j < cl.patterns.len()
                invariant
                    j <= cl.patterns@.len(),
                    pats@.len() == j,
                    forall|k: int| 0 <= k < j ==> *pats@[k] == cl.patterns@[k],
                decreases cl.patterns@.len() - j,
            {
                pats.push(&cl.patterns[j]);
                j += 1;
            }
            let r = Row { pats, clause: i };
            assert(r@.pats =~= cl.patterns@);
            out.push(r);
            proof {
                let rest = initial_rows(clauses@, ncols as nat, (i + 1) as nat);
                assert(rows_view(out@) =~= before.push(r@));
                assert(before.push(r@) + rest =~= before + (seq![r@] + rest));
            }
        }
        i += 1;
    }
    assert(rows_view(out@) + Seq::<SpecRow>::empty() =~= rows_view(out@));
    out
}

/// Compiles the clauses of a case split over `ncols` scrutinees into a
/// decision tree. Whatever the scrutinees hold, the tree selects the first
/// clause, in the order given, whose patterns all match, and ends in
/// failure where none does.
pub fn compile_clauses(clauses: &Vec<Clause>, ncols: usize) -> (d: Decision)
    ensures
        decision_wf(d, ncols as nat),
        forall|vals: Seq<Term>| vals.len() == ncols ==> #[trigger] decide(d, vals) == first_match(clauses@, vals),
        forall|vals: Seq<Term>, x: Value, v: Term|
            vals.len() == ncols ==> #[trigger] bound_at_leaf(d, vals, x, v) == first_match_binds(clauses@, vals, x, v),
        leaves_below(d, clauses@.len()),
        is_compiled(d, initial_rows(clauses@, ncols as nat, 0), ncols as nat),
{
    let wild = Pattern::Wildcard;
    let rows = make_rows(clauses, ncols);
    let n = clauses.len();
    proof {
        let any = Seq::new(ncols as nat, |i: int| Term::Tuple(Seq::empty()));
        lemma_initial_rows(clauses@, any, 0);
    }
    let d = compile_rows(&rows, ncols, n, &wild);
    proof {
        assert forall|vals: Seq<Term>| vals.len() == ncols implies #[trigger] decide(d, vals) == first_match(clauses@, vals) by {
            lemma_initial_rows(clauses@, vals, 0);
        }
        assert forall|vals: Seq<Term>, x: Value, v: Term| vals.len() == ncols implies #[trigger] bound_at_leaf(d, vals, x, v)
            == first_match_binds(clauses@, vals, x, v) by {
            lemma_initial_rows(clauses@, vals, 0);
            assert(rows_first_binds(initial_rows(clauses@, vals.len(), 0), vals, x, v) == first_match_binds(clauses@, vals, x, v));
        }
    }
    d
}

} // verus!
