use std::collections::HashMap;

use esatto::{Clause, Formula, Lit, Truth};

#[test]
fn lit_accessors_and_eval() {
    let lit = Lit::new(7, false);
    assert_eq!(lit.var(), 7);
    assert!(!lit.sign());
    let mut assignment = HashMap::new();
    assert_eq!(lit.eval(&assignment), Truth::Unknown);
    assignment.insert(7, false);
    assert_eq!(lit.eval(&assignment), Truth::True);
    assignment.insert(7, true);
    assert_eq!(lit.eval(&assignment), Truth::False);
}

#[test]
fn lit_from_dimacs_integer() {
    let pos = Lit::from_dimacs(5);
    assert_eq!((pos.var(), pos.sign()), (5, true));
    let neg = Lit::from_dimacs(-5);
    assert_eq!((neg.var(), neg.sign()), (5, false));
    let min = Lit::from_dimacs(i32::MIN);
    assert_eq!((min.var(), min.sign()), (2147483648, false));
}

#[test]
fn clause_eval_three_values() {
    let clause = Clause::from_lits(vec![1, -2]);
    let mut assignment = HashMap::new();
    assert_eq!(clause.eval(&assignment), Truth::Unknown);
    assignment.insert(1, false);
    assert_eq!(clause.eval(&assignment), Truth::Unknown);
    assignment.insert(2, true);
    assert_eq!(clause.eval(&assignment), Truth::False);
    assignment.insert(2, false);
    assert_eq!(clause.eval(&assignment), Truth::True);
    assert_eq!(Clause::new().eval(&assignment), Truth::False);
}

#[test]
fn add_literal_appends() {
    let mut clause = Clause::new();
    clause.add_literal(Lit::new(3, true));
    clause.add_literal(Lit::new(4, false));
    assert_eq!(clause.lits, vec![Lit::new(3, true), Lit::new(4, false)]);
}

#[test]
fn formula_eval_conflict_dominates() {
    let formula = Formula::from_clauses(vec![
        Clause::from_lits(vec![1, 2]),
        Clause::from_lits(vec![-1]),
    ]);
    let mut assignment = HashMap::new();
    assert_eq!(formula.eval(&assignment), Truth::Unknown);
    assignment.insert(1, true);
    assert_eq!(formula.eval(&assignment), Truth::False);
    assignment.insert(1, false);
    assert_eq!(formula.eval(&assignment), Truth::Unknown);
    assignment.insert(2, true);
    assert_eq!(formula.eval(&assignment), Truth::True);
    assert_eq!(Formula::new().eval(&HashMap::new()), Truth::True);
}

#[test]
fn formula_eval_is_repeatable() {
    let formula = Formula::from_clauses(vec![
        Clause::from_lits(vec![1, -3]),
        Clause::from_lits(vec![2, 3]),
    ]);
    let mut assignment = HashMap::new();
    assignment.insert(3, true);
    let first = formula.eval(&assignment);
    let second = formula.eval(&assignment);
    assert_eq!(first, second);
    assert_eq!(first, Truth::Unknown);
}

#[test]
fn add_clause_appends() {
    let mut formula = Formula::new();
    formula.add_clause(Clause::from_lits(vec![1]));
    formula.add_clause(Clause::from_lits(vec![-2, 3]));
    assert_eq!(formula.clauses.len(), 2);
    assert_eq!(formula.clauses[1].lits, vec![Lit::new(2, false), Lit::new(3, true)]);
}
