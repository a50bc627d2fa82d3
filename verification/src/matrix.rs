//! The clause matrix that pattern compilation works on: one row per clause
//! still in play, one column per term that can be tested.
use vstd::prelude::*;
use crate::ir::{Pattern, Value};
use crate::pattern::{binds_to, pattern_matches, row_binds, row_matches, shape_arity, subterms, term_has_shape, Shape, Term};

verus! {

/// A row of the matrix as a value: the patterns of a clause, one per
/// column, and the position of the clause in the case split.
pub struct SpecRow {
    pub pats: Seq<Pattern>,
    pub clause: usize,
}

/// A row of the matrix: it borrows its patterns from the clauses.
pub struct Row<'a> {
    pub pats: Vec<&'a Pattern>,
    pub clause: usize,
}

impl<'a> View for Row<'a> {
    type V = SpecRow;

    open spec fn view(&self) -> SpecRow {
        SpecRow { pats: Seq::new(self.pats@.len(), |j: int| *self.pats@[j]), clause: self.clause }
    }
}

pub open spec fn rows_view(rows: Seq<Row>) -> Seq<SpecRow> {
    rows.map_values(|r: Row| r@)
}

/// The clause of the first row that the terms match.
pub open spec fn rows_first_match(rows: Seq<SpecRow>, vals: Seq<Term>) -> Option<nat>
    decreases rows.len(),
{
    if rows.len() == 0 {
        None
    } else if row_matches(rows[0].pats, vals) {
        Some(rows[0].clause as nat)
    } else {
        rows_first_match(rows.drop_first(), vals)
    }
}

/// A pattern is concrete where it tests the term: a literal or a tuple.
pub open spec fn is_concrete(p: Pattern) -> bool {
    p is Literal || p is Tuple
}

/// The shape that a concrete pattern tests for.
pub open spec fn pattern_shape(p: Pattern) -> Shape {
    match p {
        Pattern::Tuple(subs) => Shape::Tuple(subs.len()),
        Pattern::Literal(l) => Shape::Literal(l),
        _ => arbitrary(),
    }
}

pub open spec fn has_shape(p: Pattern, s: Shape) -> bool {
    is_concrete(p) && pattern_shape(p) == s
}

pub open spec fn sub_patterns(p: Pattern) -> Seq<Pattern> {
    match p {
        Pattern::Tuple(subs) => subs@,
        _ => Seq::empty(),
    }
}

pub open spec fn wildcards(n: nat) -> Seq<Pattern> {
    Seq::new(n, |i: int| Pattern::Wildcard)
}

/// What is left of a row once column `c` is known to have shape `s`: a row
/// that asks for another shape there is out; one that asks for `s` goes on
/// with its sub-patterns in the new columns; one that asks for nothing
/// there goes on with wildcards in the new columns.
pub open spec fn specialize_row(r: SpecRow, c: int, s: Shape) -> Option<SpecRow> {
    let p = r.pats[c];
    if has_shape(p, s) {
        Some(SpecRow { pats: r.pats.update(c, Pattern::Wildcard) + sub_patterns(p), clause: r.clause })
    } else if is_concrete(p) {
        None
    } else {
        Some(SpecRow { pats: r.pats + wildcards(shape_arity(s)), clause: r.clause })
    }
}

/// The matrix for the terms that have shape `s` in column `c`.
pub open spec fn specialize(rows: Seq<SpecRow>, c: int, s: Shape) -> Seq<SpecRow>
    decreases rows.len(),
{
    if rows.len() == 0 {
        Seq::empty()
    } else {
        match specialize_row(rows[0], c, s) {
            Some(r) => seq![r] + specialize(rows.drop_first(), c, s),
            None => specialize(rows.drop_first(), c, s),
        }
    }
}

/// The matrix for the terms that do not have shape `s` in column `c`: the
/// rows that ask for `s` there are out, the others stay as they are.
pub open spec fn residual(rows: Seq<SpecRow>, c: int, s: Shape) -> Seq<SpecRow>
    decreases rows.len(),
{
    if rows.len() == 0 {
        Seq::empty()
    } else if has_shape(rows[0].pats[c], s) {
        residual(rows.drop_first(), c, s)
    } else {
        seq![rows[0]] + residual(rows.drop_first(), c, s)
    }
}

/// Every row has `ncols` patterns.
pub open spec fn rows_have_width(rows: Seq<SpecRow>, ncols: nat) -> bool {
    forall|i: int| 0 <= i < rows.len() ==> (#[trigger] rows[i]).pats.len() == ncols
}

proof fn lemma_specialize_row_matches(r: SpecRow, c: int, s: Shape, vals: Seq<Term>)
    requires
        r.pats.len() == vals.len(),
        0 <= c < vals.len(),
        term_has_shape(vals[c], s),
    ensures
        row_matches(r.pats, vals) <==> match specialize_row(r, c, s) {
            Some(r2) => row_matches(r2.pats, vals + subterms(vals[c])),
            None => false,
        },
{
    let p = r.pats[c];
    let vals2 = vals + subterms(vals[c]);
    let n = vals.len() as int;
    if has_shape(p, s) {
        let r2 = specialize_row(r, c, s)->Some_0;
        match p {
            Pattern::Tuple(subs) => {
                assert(subs.len() == subs@.len());
                let ts = vals[c]->Tuple_0;
                if row_matches(r.pats, vals) {
                    assert(pattern_matches(r.pats[c], vals[c]));
                    assert forall|j: int| 0 <= j < r2.pats.len() implies pattern_matches(#[trigger] r2.pats[j], vals2[j]) by {
                        if j < n {
                            if j != c {
                                assert(pattern_matches(r.pats[j], vals[j]));
                            }
                        } else {
                            assert(r2.pats[j] == subs@[j - n]);
                            assert(pattern_matches(subs@[j - n], ts[j - n]));
                        }
                    }
                }
                if row_matches(r2.pats, vals2) {
                    assert forall|j: int| 0 <= j < r.pats.len() implies pattern_matches(#[trigger] r.pats[j], vals[j]) by {
                        if j != c {
                            assert(pattern_matches(r2.pats[j], vals2[j]));
                        } else {
                            assert forall|i: int| 0 <= i < subs@.len() implies pattern_matches(#[trigger] subs@[i], ts[i]) by {
                                assert(r2.pats[n + i] == subs@[i]);
                                assert(pattern_matches(r2.pats[n + i], vals2[n + i]));
                            }
                        }
                    }
                }
            },
            _ => {
                assert(r2.pats =~= r.pats.update(c, Pattern::Wildcard));
                assert(vals2 =~= vals);
                if row_matches(r.pats, vals) {
                    assert forall|j: int| 0 <= j < r2.pats.len() implies pattern_matches(#[trigger] r2.pats[j], vals2[j]) by {
                        if j != c {
                            assert(pattern_matches(r.pats[j], vals[j]));
                        }
                    }
                }
                if row_matches(r2.pats, vals2) {
                    assert forall|j: int| 0 <= j < r.pats.len() implies pattern_matches(#[trigger] r.pats[j], vals[j]) by {
                        if j != c {
                            assert(pattern_matches(r2.pats[j], vals2[j]));
                        }
                    }
                }
            },
        }
    } else if is_concrete(p) {
        match p {
            Pattern::Tuple(subs) => {
                assert(subs.len() == subs@.len());
            },
            _ => {},
        }
        if row_matches(r.pats, vals) {
            assert(pattern_matches(r.pats[c], vals[c]));
        }
    } else {
        let r2 = specialize_row(r, c, s)->Some_0;
        if row_matches(r.pats, vals) {
            assert forall|j: int| 0 <= j < r2.pats.len() implies pattern_matches(#[trigger] r2.pats[j], vals2[j]) by {
                if j < n {
                    assert(pattern_matches(r.pats[j], vals[j]));
                }
            }
        }
        if row_matches(r2.pats, vals2) {
            assert forall|j: int| 0 <= j < r.pats.len() implies pattern_matches(#[trigger] r.pats[j], vals[j]) by {
                assert(pattern_matches(r2.pats[j], vals2[j]));
            }
        }
    }
}

/// Where column `c` has shape `s`, the specialized matrix selects over the
/// extended columns what the matrix selects.
pub proof fn lemma_specialize_first_match(rows: Seq<SpecRow>, c: int, s: Shape, vals: Seq<Term>)
    requires
        rows_have_width(rows, vals.len()),
        0 <= c < vals.len(),
        term_has_shape(vals[c], s),
    ensures
        rows_first_match(rows, vals) == rows_first_match(specialize(rows, c, s), vals + subterms(vals[c])),
    decreases rows.len(),
{
    if rows.len() > 0 {
        let rest = rows.drop_first();
        assert forall|i: int| 0 <= i < rest.len() implies (#[trigger] rest[i]).pats.len() == vals.len() by {
            assert(rest[i] == rows[i + 1]);
        }
        lemma_specialize_first_match(rest, c, s, vals);
        lemma_specialize_row_matches(rows[0], c, s, vals);
        match specialize_row(rows[0], c, s) {
            Some(r) => {
                let sp = seq![r] + specialize(rest, c, s);
                assert(sp[0] == r);
                assert(sp.drop_first() == specialize(rest, c, s));
            },
            None => {},
        }
    }
}

/// Where column `c` does not have shape `s`, the residual matrix selects
/// what the matrix selects.
pub proof fn lemma_residual_first_match(rows: Seq<SpecRow>, c: int, s: Shape, vals: Seq<Term>)
    requires
        rows_have_width(rows, vals.len()),
        0 <= c < vals.len(),
        !term_has_shape(vals[c], s),
    ensures
        rows_first_match(rows, vals) == rows_first_match(residual(rows, c, s), vals),
    decreases rows.len(),
{
    if rows.len() > 0 {
        let rest = rows.drop_first();
        assert forall|i: int| 0 <= i < rest.len() implies (#[trigger] rest[i]).pats.len() == vals.len() by {
            assert(rest[i] == rows[i + 1]);
        }
        lemma_residual_first_match(rest, c, s, vals);
        let p = rows[0].pats[c];
        if has_shape(p, s) {
            match p {
                Pattern::Tuple(subs) => {
                    assert(subs.len() == subs@.len());
                },
                _ => {},
            }
            if row_matches(rows[0].pats, vals) {
                assert(pattern_matches(rows[0].pats[c], vals[c]));
            }
        } else {
            let rs = seq![rows[0]] + residual(rest, c, s);
            assert(rs[0] == rows[0]);
            assert(rs.drop_first() == residual(rest, c, s));
        }
    }
}

/// The number of tests that a pattern asks for: one for each literal and
/// each tuple in it.
pub open spec fn pattern_weight(p: Pattern) -> nat
    decreases p, 0nat,
{
    match p {
        Pattern::Tuple(subs) => 1 + prefix_weight(subs, subs@.len()),
        Pattern::Literal(_) => 1,
        _ => 0,
    }
}

/// The weight of the first `n` of the patterns.
pub open spec fn prefix_weight(subs: Vec<Pattern>, n: nat) -> nat
    decreases subs, n,
{
    if n == 0 || n > subs@.len() {
        0
    } else {
        prefix_weight(subs, (n - 1) as nat) + pattern_weight(subs@[n - 1])
    }
}

pub open spec fn seq_weight(s: Seq<Pattern>) -> nat
    decreases s.len(),
{
    if s.len() == 0 {
        0
    } else {
        seq_weight(s.drop_last()) + pattern_weight(s.last())
    }
}

/// The number of tests that the rows of a matrix ask for between them.
pub open spec fn rows_weight(rows: Seq<SpecRow>) -> nat
    decreases rows.len(),
{
    if rows.len() == 0 {
        0
    } else {
        seq_weight(rows[0].pats) + rows_weight(rows.drop_first())
    }
}

proof fn lemma_prefix_weight(subs: Vec<Pattern>, n: nat)
    requires
        n <= subs@.len(),
    ensures
        prefix_weight(subs, n) == seq_weight(subs@.take(n as int)),
    decreases n,
{
    if n > 0 {
        lemma_prefix_weight(subs, (n - 1) as nat);
        assert(subs@.take(n as int).drop_last() == subs@.take(n - 1));
    }
}

proof fn lemma_weight_concat(a: Seq<Pattern>, b: Seq<Pattern>)
    ensures
        seq_weight(a + b) == seq_weight(a) + seq_weight(b),
    decreases b.len(),
{
    if b.len() == 0 {
        assert(a + b == a);
    } else {
        lemma_weight_concat(a, b.drop_last());
        assert((a + b).drop_last() == a + b.drop_last());
    }
}

proof fn lemma_weight_wildcards(n: nat)
    ensures
        seq_weight(wildcards(n)) == 0,
    decreases n,
{
    if n > 0 {
        lemma_weight_wildcards((n - 1) as nat);
        assert(wildcards(n).drop_last() == wildcards((n - 1) as nat));
    }
}

proof fn lemma_weight_blank(s: Seq<Pattern>, c: int)
    requires
        0 <= c < s.len(),
    ensures
        seq_weight(s.update(c, Pattern::Wildcard)) + pattern_weight(s[c]) == seq_weight(s),
    decreases s.len(),
{
    let u = s.update(c, Pattern::Wildcard);
    if c == s.len() - 1 {
        assert(u.drop_last() == s.drop_last());
    } else {
        lemma_weight_blank(s.drop_last(), c);
        assert(u.drop_last() == s.drop_last().update(c, Pattern::Wildcard));
    }
}

proof fn lemma_specialize_row_weight(r: SpecRow, c: int, s: Shape)
    requires
        0 <= c < r.pats.len(),
    ensures
        match specialize_row(r, c, s) {
            Some(r2) => seq_weight(r2.pats) <= seq_weight(r.pats) && (has_shape(r.pats[c], s) ==> seq_weight(r2.pats) < seq_weight(r.pats)),
            None => has_shape(r.pats[c], s) ==> false,
        },
        has_shape(r.pats[c], s) ==> seq_weight(r.pats) > 0,
{
    let p = r.pats[c];
    lemma_weight_blank(r.pats, c);
    if has_shape(p, s) {
        lemma_weight_concat(r.pats.update(c, Pattern::Wildcard), sub_patterns(p));
        match p {
            Pattern::Tuple(subs) => {
                lemma_prefix_weight(subs, subs@.len());
                assert(subs@.take(subs@.len() as int) == subs@);
            },
            _ => {},
        }
    } else if !is_concrete(p) {
        lemma_weight_concat(r.pats, wildcards(shape_arity(s)));
        lemma_weight_wildcards(shape_arity(s));
    }
}

/// Specializing a matrix whose first row asks for the shape takes a test
/// off it.
pub proof fn lemma_specialize_weight(rows: Seq<SpecRow>, c: int, s: Shape, ncols: nat)
    requires
        rows_have_width(rows, ncols),
        0 <= c < ncols,
    ensures
        rows_weight(specialize(rows, c, s)) <= rows_weight(rows),
        rows.len() > 0 && has_shape(rows[0].pats[c], s) ==> rows_weight(specialize(rows, c, s)) < rows_weight(rows),
        rows_have_width(specialize(rows, c, s), ncols + shape_arity(s)),
        rows.len() > 0 && has_shape(rows[0].pats[c], s) ==> specialize(rows, c, s).len() > 0,
    decreases rows.len(),
{
    if rows.len() > 0 {
        let rest = rows.drop_first();
        assert forall|i: int| 0 <= i < rest.len() implies (#[trigger] rest[i]).pats.len() == ncols by {
            assert(rest[i] == rows[i + 1]);
        }
        lemma_specialize_weight(rest, c, s, ncols);
        lemma_specialize_row_weight(rows[0], c, s);
        let sp_rest = specialize(rest, c, s);
        match specialize_row(rows[0], c, s) {
            Some(r) => {
                let sp = seq![r] + sp_rest;
                assert(sp[0] == r);
                assert(sp.drop_first() == sp_rest);
                match rows[0].pats[c] {
                    Pattern::Tuple(subs) => {
                        assert(subs.len() == subs@.len());
                    },
                    _ => {},
                }
                assert forall|i: int| 0 <= i < sp.len() implies (#[trigger] sp[i]).pats.len() == ncols + shape_arity(s) by {
                    if i > 0 {
                        assert(sp[i] == sp_rest[i - 1]);
                    }
                }
            },
            None => {},
        }
    }
}

/// The residual of a matrix whose first row asks for the shape has lost
/// that row and its tests.
pub proof fn lemma_residual_weight(rows: Seq<SpecRow>, c: int, s: Shape, ncols: nat)
    requires
        rows_have_width(rows, ncols),
        0 <= c < ncols,
    ensures
        rows_weight(residual(rows, c, s)) <= rows_weight(rows),
        rows.len() > 0 && has_shape(rows[0].pats[c], s) ==> rows_weight(residual(rows, c, s)) < rows_weight(rows),
        rows_have_width(residual(rows, c, s), ncols),
    decreases rows.len(),
{
    if rows.len() > 0 {
        let rest = rows.drop_first();
        assert forall|i: int| 0 <= i < rest.len() implies (#[trigger] rest[i]).pats.len() == ncols by {
            assert(rest[i] == rows[i + 1]);
        }
        lemma_residual_weight(rest, c, s, ncols);
        lemma_specialize_row_weight(rows[0], c, s);
        let rs_rest = residual(rest, c, s);
        if !has_shape(rows[0].pats[c], s) {
            let rs = seq![rows[0]] + rs_rest;
            assert(rs[0] == rows[0]);
            assert(rs.drop_first() == rs_rest);
            assert forall|i: int| 0 <= i < rs.len() implies (#[trigger] rs[i]).pats.len() == ncols by {
                if i > 0 {
                    assert(rs[i] == rs_rest[i - 1]);
                }
            }
        }
    }
}

/// Every row stands for a clause below `n`.
pub open spec fn rows_below(rows: Seq<SpecRow>, n: nat) -> bool {
    forall|i: int| 0 <= i < rows.len() ==> (#[trigger] rows[i]).clause < n
}

/// Neither specializing nor taking the residual brings in a clause.
pub proof fn lemma_rows_stay_below(rows: Seq<SpecRow>, c: int, s: Shape, n: nat)
    requires
        rows_below(rows, n),
    ensures
        rows_below(specialize(rows, c, s), n),
        rows_below(residual(rows, c, s), n),
    decreases rows.len(),
{
    if rows.len() > 0 {
        let rest = rows.drop_first();
        assert forall|i: int| 0 <= i < rest.len() implies (#[trigger] rest[i]).clause < n by {
            assert(rest[i] == rows[i + 1]);
        }
        lemma_rows_stay_below(rest, c, s, n);
        let sp_rest = specialize(rest, c, s);
        let rs_rest = residual(rest, c, s);
        match specialize_row(rows[0], c, s) {
            Some(r) => {
                let sp = seq![r] + sp_rest;
                assert forall|i: int| 0 <= i < sp.len() implies (#[trigger] sp[i]).clause < n by {
                    if i > 0 {
                        assert(sp[i] == sp_rest[i - 1]);
                    }
                }
            },
            None => {},
        }
        if !has_shape(rows[0].pats[c], s) {
            let rs = seq![rows[0]] + rs_rest;
            assert forall|i: int| 0 <= i < rs.len() implies (#[trigger] rs[i]).clause < n by {
                if i > 0 {
                    assert(rs[i] == rs_rest[i - 1]);
                }
            }
        }
    }
}

/// The first row that the terms match binds variable `x` to term `v`.
pub open spec fn rows_first_binds(rows: Seq<SpecRow>, vals: Seq<Term>, x: Value, v: Term) -> bool
    decreases rows.len(),
{
    if rows.len() == 0 {
        false
    } else if row_matches(rows[0].pats, vals) {
        row_binds(rows[0].pats, vals, x, v)
    } else {
        rows_first_binds(rows.drop_first(), vals, x, v)
    }
}

proof fn lemma_specialize_row_binds(r: SpecRow, c: int, s: Shape, vals: Seq<Term>, x: Value, v: Term)
    requires
        r.pats.len() == vals.len(),
        0 <= c < vals.len(),
        term_has_shape(vals[c], s),
        specialize_row(r, c, s) is Some,
    ensures
        row_binds(specialize_row(r, c, s)->Some_0.pats, vals + subterms(vals[c]), x, v) <==> row_binds(r.pats, vals, x, v),
{
    let p = r.pats[c];
    let r2 = specialize_row(r, c, s)->Some_0;
    let vals2 = vals + subterms(vals[c]);
    let n = vals.len() as int;
    if row_binds(r.pats, vals, x, v) {
        let j = choose|j: int| 0 <= j < r.pats.len() && j < vals.len() && binds_to(#[trigger] r.pats[j], vals[j], x, v);
        if j != c {
            assert(r2.pats[j] == r.pats[j]);
            assert(binds_to(r2.pats[j], vals2[j], x, v));
        } else {
            match p {
                Pattern::Tuple(subs) => {
                    assert(subs.len() == subs@.len());
                    let ts = vals[c]->Tuple_0;
                    let i = choose|i: int| 0 <= i < subs@.len() && binds_to(#[trigger] subs@[i], ts[i], x, v);
                    assert(r2.pats[n + i] == subs@[i]);
                    assert(vals2[n + i] == ts[i]);
                    assert(binds_to(r2.pats[n + i], vals2[n + i], x, v));
                },
                _ => {
                    assert(r2.pats[c] == r.pats[c]);
                    assert(binds_to(r2.pats[c], vals2[c], x, v));
                },
            }
        }
    }
    if row_binds(r2.pats, vals2, x, v) {
        let j = choose|j: int| 0 <= j < r2.pats.len() && j < vals2.len() && binds_to(#[trigger] r2.pats[j], vals2[j], x, v);
        if j < n {
            if has_shape(p, s) && j == c {
                assert(r2.pats[c] == Pattern::Wildcard);
            } else {
                assert(r2.pats[j] == r.pats[j]);
                assert(binds_to(r.pats[j], vals[j], x, v));
            }
        } else {
            if has_shape(p, s) {
                match p {
                    Pattern::Tuple(subs) => {
                        assert(subs.len() == subs@.len());
                        let ts = vals[c]->Tuple_0;
                        assert(r2.pats[j] == subs@[j - n]);
                        assert(vals2[j] == ts[j - n]);
                        assert(binds_to(subs@[j - n], ts[j - n], x, v));
                        assert(binds_to(r.pats[c], vals[c], x, v));
                    },
                    _ => {},
                }
            } else {
                assert(r2.pats[j] == Pattern::Wildcard);
            }
        }
    }
}

/// Where column `c` has shape `s`, the specialized matrix binds over the
/// extended columns what the matrix binds.
pub proof fn lemma_specialize_first_binds(rows: Seq<SpecRow>, c: int, s: Shape, vals: Seq<Term>, x: Value, v: Term)
    requires
        rows_have_width(rows, vals.len()),
        0 <= c < vals.len(),
        term_has_shape(vals[c], s),
    ensures
        rows_first_binds(rows, vals, x, v) == rows_first_binds(specialize(rows, c, s), vals + subterms(vals[c]), x, v),
    decreases rows.len(),
{
    if rows.len() > 0 {
        let rest = rows.drop_first();
        assert forall|i: int| 0 <= i < rest.len() implies (#[trigger] rest[i]).pats.len() == vals.len() by {
            assert(rest[i] == rows[i + 1]);
        }
        lemma_specialize_first_binds(rest, c, s, vals, x, v);
        lemma_specialize_row_matches(rows[0], c, s, vals);
        match specialize_row(rows[0], c, s) {
            Some(r) => {
                lemma_specialize_row_binds(rows[0], c, s, vals, x, v);
                let sp = seq![r] + specialize(rest, c, s);
                assert(sp[0] == r);
                assert(sp.drop_first() == specialize(rest, c, s));
            },
            None => {},
        }
    }
}

/// Where column `c` does not have shape `s`, the residual matrix binds
/// what the matrix binds.
pub proof fn lemma_residual_first_binds(rows: Seq<SpecRow>, c: int, s: Shape, vals: Seq<Term>, x: Value, v: Term)
    requires
        rows_have_width(rows, vals.len()),
        0 <= c < vals.len(),
        !term_has_shape(vals[c], s),
    ensures
        rows_first_binds(rows, vals, x, v) == rows_first_binds(residual(rows, c, s), vals, x, v),
    decreases rows.len(),
{
    if rows.len() > 0 {
        let rest = rows.drop_first();
        assert forall|i: int| 0 <= i < rest.len() implies (#[trigger] rest[i]).pats.len() == vals.len() by {
            assert(rest[i] == rows[i + 1]);
        }
        lemma_residual_first_binds(rest, c, s, vals, x, v);
        let p = rows[0].pats[c];
        if has_shape(p, s) {
            match p {
                Pattern::Tuple(subs) => {
                    assert(subs.len() == subs@.len());
                },
                _ => {},
            }
            if row_matches(rows[0].pats, vals) {
                assert(pattern_matches(rows[0].pats[c], vals[c]));
            }
        } else {
            let rs = seq![rows[0]] + residual(rest, c, s);
            assert(rs[0] == rows[0]);
            assert(rs.drop_first() == residual(rest, c, s));
        }
    }
}

} // verus!
