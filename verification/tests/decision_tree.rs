use eir::decision::{compile_clauses, shape_of};
use eir::ir::{AtomicLiteral, Clause, Pattern, Value};
use eir::lower::tree_size;
use eir::pattern::{Decision, Shape};

#[derive(Debug, Clone, PartialEq)]
enum Term {
    Lit(AtomicLiteral),
    Tuple(Vec<Term>),
}

fn num(i: i64) -> Term {
    Term::Lit(AtomicLiteral::Integer(i))
}

fn lit(i: i64) -> Pattern {
    Pattern::Literal(AtomicLiteral::Integer(i))
}

fn matches(p: &Pattern, t: &Term) -> bool {
    match p {
        Pattern::Wildcard => true,
        Pattern::Variable(_) => true,
        Pattern::Literal(l) => *t == Term::Lit(*l),
        Pattern::Tuple(ps) => match t {
            Term::Tuple(ts) => ts.len() == ps.len() && ps.iter().zip(ts).all(|(p, t)| matches(p, t)),
            _ => false,
        },
    }
}

/// The reference: a scan of the clauses in order.
fn linear_scan(clauses: &[Clause], vals: &[Term]) -> Option<usize> {
    clauses.iter().position(|c| c.patterns.len() == vals.len() && c.patterns.iter().zip(vals).all(|(p, t)| matches(p, t)))
}

fn has_shape(t: &Term, s: &Shape) -> bool {
    match (s, t) {
        (Shape::Literal(l), Term::Lit(m)) => l == m,
        (Shape::Tuple(n), Term::Tuple(ts)) => ts.len() == *n,
        _ => false,
    }
}

/// Runs a tree on terms: the clause selected, the path taken, and the terms bound.
fn run(d: &Decision, vals: &[Term]) -> (Option<usize>, Vec<bool>, Vec<(Value, Term)>) {
    let mut cols: Vec<Term> = vals.to_vec();
    let mut path = Vec::new();
    let mut node = d;
    loop {
        match node {
            Decision::Fail => return (None, path, vec![]),
            Decision::Leaf { clause, bindings } => {
                let env = bindings.iter().map(|(v, c)| (*v, cols[*c].clone())).collect();
                return (Some(*clause), path, env);
            }
            Decision::Test { column, shape, yes, no } => {
                let t = cols[*column].clone();
                if has_shape(&t, shape) {
                    if let Term::Tuple(ts) = t {
                        cols.extend(ts);
                    }
                    path.push(true);
                    node = yes;
                } else {
                    path.push(false);
                    node = no;
                }
            }
        }
    }
}

fn universe() -> Vec<Term> {
    let atoms = vec![num(0), num(1), num(2), Term::Lit(AtomicLiteral::Nil)];
    let mut all = atoms.clone();
    all.push(Term::Tuple(vec![]));
    for a in &atoms {
        all.push(Term::Tuple(vec![a.clone()]));
        for b in &atoms {
            all.push(Term::Tuple(vec![a.clone(), b.clone()]));
        }
    }
    all.push(Term::Tuple(vec![Term::Tuple(vec![num(0), num(1)]), num(2)]));
    all.push(Term::Tuple(vec![num(0), Term::Tuple(vec![num(1)])]));
    all
}

fn check_against_scan(clauses: &Vec<Clause>, ncols: usize) {
    let d = compile_clauses(clauses, ncols);
    let u = universe();
    if ncols == 1 {
        for a in &u {
            let vals = vec![a.clone()];
            assert_eq!(run(&d, &vals).0, linear_scan(clauses, &vals), "on {:?}", vals);
        }
    } else {
        for a in &u {
            for b in &u {
                let vals = vec![a.clone(), b.clone()];
                assert_eq!(run(&d, &vals).0, linear_scan(clauses, &vals), "on {:?}", vals);
            }
        }
    }
}

#[test]
fn three_clauses_over_two_scrutinees_select_as_a_scan_does() {
    let clauses = vec![
        Clause { patterns: vec![lit(0), Pattern::Tuple(vec![Pattern::Wildcard, lit(1)])] },
        Clause { patterns: vec![Pattern::Wildcard, Pattern::Tuple(vec![lit(0), Pattern::Variable(Value(1))])] },
        Clause { patterns: vec![Pattern::Tuple(vec![Pattern::Variable(Value(2)), Pattern::Wildcard]), lit(2)] },
    ];
    check_against_scan(&clauses, 2);
}

#[test]
fn same_scrutinee_tested_in_different_orders_keeps_first_match() {
    let clauses = vec![
        Clause { patterns: vec![Pattern::Wildcard, lit(1)] },
        Clause { patterns: vec![lit(0), Pattern::Wildcard] },
        Clause { patterns: vec![lit(0), lit(1)] },
        Clause { patterns: vec![Pattern::Tuple(vec![lit(0), lit(1)]), Pattern::Wildcard] },
        Clause { patterns: vec![Pattern::Tuple(vec![Pattern::Wildcard, lit(1)]), lit(2)] },
    ];
    check_against_scan(&clauses, 2);
    let d = compile_clauses(&clauses, 2);
    assert_eq!(run(&d, &[num(0), num(1)]).0, Some(0));
    assert_eq!(run(&d, &[num(0), num(2)]).0, Some(1));
    assert_eq!(run(&d, &[num(1), num(2)]).0, None);
}

#[test]
fn nested_tuples_select_as_a_scan_does() {
    let clauses = vec![
        Clause { patterns: vec![Pattern::Tuple(vec![Pattern::Tuple(vec![lit(0), Pattern::Variable(Value(3))]), lit(2)])] },
        Clause { patterns: vec![Pattern::Tuple(vec![lit(0), Pattern::Tuple(vec![Pattern::Variable(Value(4))])])] },
        Clause { patterns: vec![Pattern::Tuple(vec![Pattern::Wildcard])] },
        Clause { patterns: vec![Pattern::Literal(AtomicLiteral::Nil)] },
    ];
    check_against_scan(&clauses, 1);
}

#[test]
fn clause_with_wrong_pattern_count_never_matches() {
    let clauses = vec![
        Clause { patterns: vec![Pattern::Wildcard, Pattern::Wildcard] },
        Clause { patterns: vec![lit(1)] },
    ];
    let d = compile_clauses(&clauses, 1);
    assert_eq!(run(&d, &[num(1)]).0, Some(1));
    assert_eq!(run(&d, &[num(0)]).0, None);
    check_against_scan(&clauses, 1);
}

#[test]
fn no_clauses_compile_to_failure() {
    let d = compile_clauses(&vec![], 1);
    assert!(matches!(d, Decision::Fail));
    assert_eq!(run(&d, &[num(0)]).0, None);
}

#[test]
fn wildcard_first_clause_is_a_leaf_and_hides_the_rest() {
    let clauses = vec![Clause { patterns: vec![Pattern::Wildcard] }, Clause { patterns: vec![lit(0)] }];
    let d = compile_clauses(&clauses, 1);
    match &d {
        Decision::Leaf { clause, bindings } => {
            assert_eq!(*clause, 0);
            assert!(bindings.is_empty());
        }
        _ => panic!("expected a leaf"),
    }
}

#[test]
fn literal_variable_wildcard_tree_shape() {
    let clauses = vec![
        Clause { patterns: vec![lit(0)] },
        Clause { patterns: vec![Pattern::Variable(Value(7))] },
        Clause { patterns: vec![Pattern::Wildcard] },
    ];
    let d = compile_clauses(&clauses, 1);
    match &d {
        Decision::Test { column, shape, yes, no } => {
            assert_eq!(*column, 0);
            assert_eq!(*shape, Shape::Literal(AtomicLiteral::Integer(0)));
            assert!(matches!(**yes, Decision::Leaf { clause: 0, .. }));
            match &**no {
                Decision::Leaf { clause, bindings } => {
                    assert_eq!(*clause, 1);
                    assert_eq!(bindings, &vec![(Value(7), 0)]);
                }
                _ => panic!("expected a leaf"),
            }
        }
        _ => panic!("expected a test"),
    }
    assert_eq!(tree_size(&d), Some((2, 0)));
    // the variable is bound to the scrutinee
    assert_eq!(run(&d, &[num(5)]), (Some(1), vec![false], vec![(Value(7), num(5))]));
    assert_eq!(run(&d, &[num(0)]), (Some(0), vec![true], vec![]));
}

#[test]
fn column_where_most_rows_agree_is_tested_first() {
    // the first row asks for something in both columns; two rows agree with it in column 1, one in column 0
    let clauses = vec![
        Clause { patterns: vec![lit(0), lit(1)] },
        Clause { patterns: vec![lit(2), lit(1)] },
        Clause { patterns: vec![Pattern::Wildcard, Pattern::Wildcard] },
    ];
    match compile_clauses(&clauses, 2) {
        Decision::Test { column, shape, .. } => {
            assert_eq!(column, 1);
            assert_eq!(shape, Shape::Literal(AtomicLiteral::Integer(1)));
        }
        _ => panic!("expected a test"),
    }
    // on a tie the leftmost column is taken
    let tie = vec![Clause { patterns: vec![lit(0), lit(1)] }, Clause { patterns: vec![Pattern::Wildcard, Pattern::Wildcard] }];
    match compile_clauses(&tie, 2) {
        Decision::Test { column, .. } => assert_eq!(column, 0),
        _ => panic!("expected a test"),
    }
}

#[test]
fn tuple_test_appends_the_elements_as_columns() {
    let clauses = vec![Clause { patterns: vec![Pattern::Tuple(vec![Pattern::Variable(Value(1)), Pattern::Variable(Value(2))])] }];
    let d = compile_clauses(&clauses, 1);
    match &d {
        Decision::Test { column, shape, yes, no } => {
            assert_eq!((*column, *shape), (0, Shape::Tuple(2)));
            match &**yes {
                Decision::Leaf { clause, bindings } => {
                    assert_eq!(*clause, 0);
                    assert_eq!(bindings, &vec![(Value(1), 1), (Value(2), 2)]);
                }
                _ => panic!("expected a leaf"),
            }
            assert!(matches!(**no, Decision::Fail));
        }
        _ => panic!("expected a test"),
    }
    assert_eq!(tree_size(&d), Some((2, 2)));
    let t = Term::Tuple(vec![num(4), num(5)]);
    assert_eq!(run(&d, &[t]).2, vec![(Value(1), num(4)), (Value(2), num(5))]);
}

#[test]
fn every_term_takes_one_path_to_a_leaf_or_to_failure() {
    let clauses = vec![
        Clause { patterns: vec![lit(0), Pattern::Tuple(vec![Pattern::Wildcard, lit(1)])] },
        Clause { patterns: vec![Pattern::Tuple(vec![lit(1)]), Pattern::Wildcard] },
    ];
    let d = compile_clauses(&clauses, 2);
    let u = universe();
    let mut failed = 0;
    for a in &u {
        for b in &u {
            let vals = vec![a.clone(), b.clone()];
            let (first, path, _) = run(&d, &vals);
            let (second, again, _) = run(&d, &vals);
            assert_eq!((first, &path), (second, &again));
            if first.is_none() {
                failed += 1;
            }
        }
    }
    // the clauses are not exhaustive: the failure leaf is reached
    assert!(failed > 0);
}

#[test]
fn shape_of_patterns() {
    assert_eq!(shape_of(&Pattern::Wildcard), None);
    assert_eq!(shape_of(&Pattern::Variable(Value(0))), None);
    assert_eq!(shape_of(&lit(3)), Some(Shape::Literal(AtomicLiteral::Integer(3))));
    assert_eq!(shape_of(&Pattern::Tuple(vec![lit(3), Pattern::Wildcard])), Some(Shape::Tuple(2)));
}
