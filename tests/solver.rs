use std::collections::HashMap;

use esatto::{solve, Clause, Formula, Lit, SatResult};

fn is_model(formula: &Formula, assignment: &HashMap<u32, bool>) -> bool {
    formula.clauses.iter().all(|clause| {
        clause
            .lits
            .iter()
            .any(|lit| assignment.get(&lit.var()) == Some(&lit.sign()))
    })
}

#[test]
fn test_sat() {
    let formula = Formula::from_clauses(vec![
        Clause::from_lits(vec![1, -2]),
        Clause::from_lits(vec![-1, 2]),
    ]);

    assert!(matches!(solve(&formula), SatResult::Sat(_)));
}

#[test]
fn test_unsat() {
    let formula = Formula::from_clauses(vec![
        Clause::from_lits(vec![1]),
        Clause::from_lits(vec![-1]),
    ]);

    assert!(matches!(solve(&formula), SatResult::Unsat));
}

#[test]
fn test_pigeonhole_unsat() {
    // 3 pigeons (A, B, C), 2 holes (X, Y)
    // 1 = A in X, 2 = A in Y, 3 = B in X, 4 = B in Y, 5 = C in X, 6 = C in Y
    let formula = Formula::from_clauses(vec![
        Clause::from_lits(vec![1, 2]),
        Clause::from_lits(vec![3, 4]),
        Clause::from_lits(vec![5, 6]),
        Clause::from_lits(vec![-1, -3]),
        Clause::from_lits(vec![-3, -5]),
        Clause::from_lits(vec![-1, -5]),
        Clause::from_lits(vec![-2, -4]),
        Clause::from_lits(vec![-4, -6]),
        Clause::from_lits(vec![-2, -6]),
    ]);

    assert!(matches!(solve(&formula), SatResult::Unsat));
}

#[test]
fn test_graph_coloring_sat() {
    // Nodes A and B joined by an edge, colors Red and Black.
    // 1 = A Red, 2 = A Black, 3 = B Red, 4 = B Black
    let formula = Formula::from_clauses(vec![
        Clause::from_lits(vec![1, 2]),
        Clause::from_lits(vec![3, 4]),
        Clause::from_lits(vec![-1, -2]),
        Clause::from_lits(vec![-3, -4]),
        Clause::from_lits(vec![-1, -3]),
        Clause::from_lits(vec![-2, -4]),
    ]);

    assert!(matches!(solve(&formula), SatResult::Sat(_)));
}

#[test]
fn test_graph_coloring_unsat() {
    // A triangle A, B, C with two colors.
    // 1 = A Red, 2 = A Black, 3 = B Red, 4 = B Black, 5 = C Red, 6 = C Black
    let formula = Formula::from_clauses(vec![
        Clause::from_lits(vec![1, 2]),
        Clause::from_lits(vec![3, 4]),
        Clause::from_lits(vec![5, 6]),
        Clause::from_lits(vec![-1, -2]),
        Clause::from_lits(vec![-3, -4]),
        Clause::from_lits(vec![-5, -6]),
        Clause::from_lits(vec![-1, -3]),
        Clause::from_lits(vec![-1, -5]),
        Clause::from_lits(vec![-3, -5]),
        Clause::from_lits(vec![-2, -4]),
        Clause::from_lits(vec![-2, -6]),
        Clause::from_lits(vec![-4, -6]),
    ]);

    assert!(matches!(solve(&formula), SatResult::Unsat));
}

#[test]
fn equivalence_model_binds_both_equal() {
    let formula = Formula::from_clauses(vec![
        Clause::from_lits(vec![1, -2]),
        Clause::from_lits(vec![-1, 2]),
    ]);
    match solve(&formula) {
        SatResult::Sat(assignment) => {
            assert!(is_model(&formula, &assignment));
            assert_eq!(assignment.get(&1), assignment.get(&2));
        }
        SatResult::Unsat => panic!("expected a model"),
    }
}

#[test]
fn empty_formula_is_sat_with_empty_assignment() {
    let formula = Formula::new();
    match solve(&formula) {
        SatResult::Sat(assignment) => assert!(assignment.is_empty()),
        SatResult::Unsat => panic!("expected a model"),
    }
}

#[test]
fn empty_clause_is_unsat() {
    let mut formula = Formula::new();
    formula.add_clause(Clause::from_lits(vec![1, 2]));
    formula.add_clause(Clause::new());
    assert!(matches!(solve(&formula), SatResult::Unsat));
}

fn encode(i: u32, j: u32, n: u32) -> u32 {
    (i << 4) | (j << 2) | n
}

#[test]
fn sudoku_four_by_four() {
    let mut formula = Formula::new();
    let givens = [(0, 2, 2), (1, 2, 0), (2, 3, 0), (3, 0, 2), (3, 2, 1)];
    for &(i, j, n) in givens.iter() {
        let mut clause = Clause::new();
        clause.add_literal(Lit::new(encode(i, j, n), true));
        formula.add_clause(clause);
    }
    for i in 0..4 {
        for n in 0..4 {
            let mut clause = Clause::new();
            for j in 0..4 {
                clause.add_literal(Lit::new(encode(i, j, n), true));
            }
            formula.add_clause(clause);
        }
    }
    for j in 0..4 {
        for n in 0..4 {
            let mut clause = Clause::new();
            for i in 0..4 {
                clause.add_literal(Lit::new(encode(i, j, n), true));
            }
            formula.add_clause(clause);
        }
    }
    for i in 0..4 {
        for j in 0..4 {
            for a in 0..4 {
                for b in 0..4 {
                    if a != b {
                        let mut clause = Clause::new();
                        clause.add_literal(Lit::new(encode(i, j, a), false));
                        clause.add_literal(Lit::new(encode(i, j, b), false));
                        formula.add_clause(clause);
                    }
                }
            }
        }
    }

    let assignment = match solve(&formula) {
        SatResult::Sat(assignment) => assignment,
        SatResult::Unsat => panic!("the puzzle has a solution"),
    };
    assert!(is_model(&formula, &assignment));
    let mut grid = [[4u32; 4]; 4];
    for i in 0..4 {
        for j in 0..4 {
            let digits: Vec<u32> = (0..4)
                .filter(|&n| assignment.get(&encode(i, j, n)) == Some(&true))
                .collect();
            assert_eq!(digits.len(), 1);
            grid[i as usize][j as usize] = digits[0];
        }
    }
    for k in 0..4 {
        let mut row: Vec<u32> = grid[k].to_vec();
        row.sort();
        assert_eq!(row, vec![0, 1, 2, 3]);
        let mut col: Vec<u32> = (0..4).map(|r| grid[r][k]).collect();
        col.sort();
        assert_eq!(col, vec![0, 1, 2, 3]);
    }
    for &(i, j, n) in givens.iter() {
        assert_eq!(grid[i as usize][j as usize], n);
    }
}

#[test]
fn clause_order_does_not_change_verdict() {
    let clauses = vec![vec![1, 2], vec![-1, 3], vec![-3, -2], vec![2, 3], vec![-2, 1]];
    let forward = Formula::from_clauses(clauses.iter().map(|c| Clause::from_lits(c.clone())).collect());
    let backward = Formula::from_clauses(clauses.iter().rev().map(|c| Clause::from_lits(c.clone())).collect());
    let a = matches!(solve(&forward), SatResult::Sat(_));
    let b = matches!(solve(&backward), SatResult::Sat(_));
    assert_eq!(a, b);

    let pigeons = vec![vec![1, 2], vec![3, 4], vec![5, 6], vec![-1, -3], vec![-3, -5], vec![-1, -5], vec![-2, -4], vec![-4, -6], vec![-2, -6]];
    let shuffled = [4, 0, 8, 2, 6, 1, 7, 3, 5];
    let f1 = Formula::from_clauses(pigeons.iter().map(|c| Clause::from_lits(c.clone())).collect());
    let f2 = Formula::from_clauses(shuffled.iter().map(|&k| Clause::from_lits(pigeons[k].clone())).collect());
    assert!(matches!(solve(&f1), SatResult::Unsat));
    assert!(matches!(solve(&f2), SatResult::Unsat));
}

fn brute_force_sat(formula: &Formula, vars: &[u32]) -> bool {
    for bits in 0u32..(1 << vars.len()) {
        let mut assignment = HashMap::new();
        for (k, &v) in vars.iter().enumerate() {
            assignment.insert(v, bits & (1 << k) != 0);
        }
        if is_model(formula, &assignment) {
            return true;
        }
    }
    false
}

#[test]
fn unsat_agrees_with_brute_force() {
    let cases: Vec<Vec<Vec<i32>>> = vec![
        vec![vec![1], vec![-1]],
        vec![vec![1, 2], vec![-1, 2], vec![1, -2], vec![-1, -2]],
        vec![vec![1, 2, 3], vec![-1, -2], vec![-2, -3], vec![-1, -3], vec![2]],
        vec![vec![1, 2], vec![3, 4], vec![5, 6], vec![-1, -3], vec![-3, -5], vec![-1, -5], vec![-2, -4], vec![-4, -6], vec![-2, -6]],
    ];
    for case in cases {
        let formula = Formula::from_clauses(case.iter().map(|c| Clause::from_lits(c.clone())).collect());
        let mut vars: Vec<u32> = case.iter().flatten().map(|n| n.unsigned_abs()).collect();
        vars.sort();
        vars.dedup();
        match solve(&formula) {
            SatResult::Sat(assignment) => assert!(is_model(&formula, &assignment)),
            SatResult::Unsat => assert!(!brute_force_sat(&formula, &vars)),
        }
    }
}

#[test]
fn equivalence_returns_reference_model() {
    let formula = Formula::from_clauses(vec![
        Clause::from_lits(vec![1, -2]),
        Clause::from_lits(vec![-1, 2]),
    ]);
    let mut expected = HashMap::new();
    expected.insert(1, true);
    expected.insert(2, true);
    match solve(&formula) {
        SatResult::Sat(assignment) => assert_eq!(assignment, expected),
        SatResult::Unsat => panic!("expected a model"),
    }
}

#[test]
fn edge_coloring_returns_reference_model() {
    let formula = Formula::from_clauses(vec![
        Clause::from_lits(vec![1, 2]),
        Clause::from_lits(vec![3, 4]),
        Clause::from_lits(vec![-1, -2]),
        Clause::from_lits(vec![-3, -4]),
        Clause::from_lits(vec![-1, -3]),
        Clause::from_lits(vec![-2, -4]),
    ]);
    let mut expected = HashMap::new();
    expected.insert(1, true);
    expected.insert(2, false);
    expected.insert(3, false);
    expected.insert(4, true);
    match solve(&formula) {
        SatResult::Sat(assignment) => assert_eq!(assignment, expected),
        SatResult::Unsat => panic!("expected a model"),
    }
}

#[test]
fn model_binds_only_formula_variables() {
    let formula = Formula::from_clauses(vec![
        Clause::from_lits(vec![5, 9]),
        Clause::from_lits(vec![-5, 12]),
    ]);
    match solve(&formula) {
        SatResult::Sat(assignment) => {
            assert!(is_model(&formula, &assignment));
            assert!(assignment.keys().all(|v| [5, 9, 12].contains(v)));
        }
        SatResult::Unsat => panic!("expected a model"),
    }
}

#[test]
fn same_input_same_model() {
    let formula = Formula::from_clauses(vec![
        Clause::from_lits(vec![1, 2, 3]),
        Clause::from_lits(vec![-1, -2]),
        Clause::from_lits(vec![-3, 2]),
    ]);
    let first = match solve(&formula) {
        SatResult::Sat(assignment) => assignment,
        SatResult::Unsat => panic!("expected a model"),
    };
    let second = match solve(&formula) {
        SatResult::Sat(assignment) => assignment,
        SatResult::Unsat => panic!("expected a model"),
    };
    assert_eq!(first, second);
}
