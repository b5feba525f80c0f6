use std::collections::HashMap;
use vstd::prelude::*;

use crate::clause::{clause_value, has_true, is_unit, unassigned};
use crate::formula::{
    formula_value, lemma_false_blocks_extensions, lemma_satisfies_extend, lemma_submap_trans,
    lemma_value_true_iff_satisfies, satisfiable, satisfies, Formula,
};
use crate::search::{
    branch_candidate, branch_from, branch_var, first_free, first_unit, free_count, free_var_from,
    lemma_free_count_shrinks, lemma_insert_submap, lemma_unit_step, occurs, propagate, search, unit_from,
};
use crate::lit::{lit_value, Lit};
use crate::truth::Truth;

verus! {

broadcast use {
    vstd::std_specs::hash::axiom_contains_deref_key,
    vstd::std_specs::hash::axiom_maps_deref_key_to_value,
    vstd::std_specs::hash::axiom_u32_obeys_hash_table_key_model,
    vstd::std_specs::hash::axiom_random_state_builds_valid_hashers,
};

/// The outcome of a search: a satisfying assignment, or none exists.
#[derive(Debug)]
pub enum SatResult {
    Sat(HashMap<u32, bool>),
    Unsat,
}

/// Finds the first clause, in order, that forces a literal, and returns that
/// literal.
fn get_unit_lit(formula: &Formula, assignment: &HashMap<u32, bool>) -> (r: Option<Lit>)
    ensures
        r matches Some(l) ==> exists|i: int|
            0 <= i < formula@.len() && #[trigger] is_unit(formula@[i], assignment@) && l
                == unassigned(formula@[i], assignment@)[0] && forall|k: int|
                0 <= k < i ==> !is_unit(#[trigger] formula@[k], assignment@),
        r is None ==> forall|i: int|
            0 <= i < formula@.len() ==> !is_unit(#[trigger] formula@[i], assignment@),
        r == first_unit(formula@, assignment@),
{
    let mut i: usize = 0;
    while i < formula.clauses.len()
        invariant
            i <= formula@.len(),
            forall|k: int| 0 <= k < i ==> !is_unit(#[trigger] formula@[k], assignment@),
            unit_from(formula@, assignment@, i as int) == first_unit(formula@, assignment@),
        decreases formula@.len() - i,
    {
        let clause = &formula.clauses[i];
        assert(clause@ == formula@[i as int]);
        if clause.eval(assignment) != Truth::True {
            let mut unassigned_lits: Vec<Lit> = Vec::new();
            let mut j: usize = 0;
            while j < clause.lits.len()
                invariant
                    j <= clause@.len(),
                    unassigned_lits@ == unassigned(clause@.subrange(0, j as int), assignment@),
                decreases clause@.len() - j,
            {
                let lit = clause.lits[j];
                assert(clause@.subrange(0, j + 1).drop_last() =~= clause@.subrange(0, j as int));
                if !assignment.contains_key(&lit.var) {
                    unassigned_lits.push(lit);
                }
                j = j + 1;
            }
            assert(clause@.subrange(0, j as int) =~= clause@);
            if unassigned_lits.len() == 1 {
                assert(is_unit(formula@[i as int], assignment@));
                return Some(unassigned_lits[0]);
            }
        }
        i = i + 1;
    }
    None
}

/// Picks the branch variable: the first unbound variable, in clause order, of
/// the first clause that is not yet true.
fn choose_unassigned_var(formula: &Formula, assignment: &HashMap<u32, bool>) -> (r: Option<u32>)
    ensures
        r matches Some(v) ==> exists|i: int, j: int|
            0 <= i < formula@.len() && branch_candidate(formula@[i], assignment@)
                && (forall|k: int| 0 <= k < i ==> !branch_candidate(#[trigger] formula@[k], assignment@))
                && #[trigger] first_free(formula@[i], assignment@, j) && formula@[i][j].var == v,
        r is None ==> forall|i: int|
            0 <= i < formula@.len() ==> !branch_candidate(#[trigger] formula@[i], assignment@),
        r == branch_var(formula@, assignment@),
{
    let mut i: usize = 0;
    while i < formula.clauses.len()
        invariant
            i <= formula@.len(),
            forall|k: int| 0 <= k < i ==> !branch_candidate(#[trigger] formula@[k], assignment@),
            branch_from(formula@, assignment@, i as int) == branch_var(formula@, assignment@),
        decreases formula@.len() - i,
    {
        let clause = &formula.clauses[i];
        assert(clause@ == formula@[i as int]);
        if clause.eval(assignment) != Truth::True {
            let mut j: usize = 0;
            while j < clause.lits.len()
                invariant
                    j <= clause@.len(),
                    i < formula@.len(),
                    clause@ == formula@[i as int],
                    clause_value(clause@, assignment@) != Truth::True,
                    forall|k: int|
                        0 <= k < i ==> !branch_candidate(#[trigger] formula@[k], assignment@),
                    forall|k: int| 0 <= k < j ==> assignment@.contains_key(#[trigger] clause@[k].var),
                    branch_from(formula@, assignment@, i as int) == branch_var(formula@, assignment@),
                    free_var_from(clause@, assignment@, j as int) == free_var_from(clause@, assignment@, 0),
                decreases clause@.len() - j,
            {
                let var = clause.lits[j].var;
                if !assignment.contains_key(&var) {
                    assert(formula@[i as int][j as int].var == var);
                    assert(first_free(formula@[i as int], assignment@, j as int));
                    assert(branch_candidate(formula@[i as int], assignment@));
                    return Some(var);
                }
                j = j + 1;
            }
        }
        i = i + 1;
    }
    None
}

/// Decides whether some extension of `assignment` satisfies `formula`: unit
/// propagation, then a case split on the branch variable, `true` first. The
/// answer is exactly `search(formula@, assignment@)`.
fn dpll(formula: &Formula, assignment: HashMap<u32, bool>) -> (r: SatResult)
    ensures
        r matches SatResult::Sat(m) ==> satisfies(formula@, m@) && assignment@.submap_of(m@),
        r is Unsat ==> forall|b: Map<u32, bool>|
            #[trigger] assignment@.submap_of(b) ==> !satisfies(formula@, b),
        match search(formula@, assignment@) {
            Some(m) => r matches SatResult::Sat(x) && x@ == m,
            None => r is Unsat,
        },
        r matches SatResult::Sat(m) ==> forall|v: u32|
            #[trigger] m@.dom().contains(v) ==> assignment@.dom().contains(v) || occurs(formula@, v),
        formula_value(formula@, assignment@) == Truth::True ==> (r matches SatResult::Sat(m) && m@
            == assignment@),
    decreases free_count(formula@, assignment@),
{
    let ghost a0 = assignment@;
    let mut assignment = assignment;
    loop
        invariant
            a0.submap_of(assignment@),
            forall|b: Map<u32, bool>|
                #[trigger] a0.submap_of(b) && satisfies(formula@, b) ==> assignment@.submap_of(b),
            free_count(formula@, assignment@) <= free_count(formula@, a0),
            propagate(formula@, assignment@) == propagate(formula@, a0),
            forall|v: u32|
                #[trigger] assignment@.dom().contains(v) ==> a0.dom().contains(v) || occurs(
                    formula@,
                    v,
                ),
            formula_value(formula@, a0) == Truth::True ==> assignment@ == a0,
        ensures
            a0.submap_of(assignment@),
            forall|b: Map<u32, bool>|
                #[trigger] a0.submap_of(b) && satisfies(formula@, b) ==> assignment@.submap_of(b),
            free_count(formula@, assignment@) <= free_count(formula@, a0),
            propagate(formula@, assignment@) == propagate(formula@, a0),
            forall|v: u32|
                #[trigger] assignment@.dom().contains(v) ==> a0.dom().contains(v) || occurs(
                    formula@,
                    v,
                ),
            formula_value(formula@, a0) == Truth::True ==> assignment@ == a0,
            first_unit(formula@, assignment@) is None,
        decreases free_count(formula@, assignment@),
    {
        match get_unit_lit(formula, &assignment) {
            None => break,
            Some(lit) => {
                let ghost a = assignment@;
                let ghost i = choose|i: int|
                    0 <= i < formula@.len() && #[trigger] is_unit(formula@[i], a) && lit
                        == unassigned(formula@[i], a)[0];
                proof {
                    lemma_unit_step(formula@, a0, a, i);
                    if formula_value(formula@, a0) == Truth::True {
                        lemma_value_true_iff_satisfies(formula@, a0);
                        assert(has_true(formula@[i], a0));
                    }
                }
                assignment.insert(lit.var, lit.sign);
            },
        }
    }
    let ghost a = assignment@;
    assert(a == propagate(formula@, a0));
    match formula.eval(&assignment) {
        Truth::True => {
            proof {
                lemma_value_true_iff_satisfies(formula@, a);
            }
            SatResult::Sat(assignment)
        },
        Truth::False => {
            proof {
                assert forall|b: Map<u32, bool>| #[trigger] a0.submap_of(b) implies !satisfies(
                    formula@,
                    b,
                ) by {
                    if satisfies(formula@, b) {
                        lemma_false_blocks_extensions(formula@, a, b);
                    }
                }
            }
            SatResult::Unsat
        },
        Truth::Unknown => {
            match choose_unassigned_var(formula, &assignment) {
                Some(var) => {
                    let ghost at = a.insert(var, true);
                    let ghost af = a.insert(var, false);
                    proof {
                        let (i, j) = choose|i: int, j: int|
                            0 <= i < formula@.len() && branch_candidate(formula@[i], a)
                                && #[trigger] first_free(formula@[i], a, j) && formula@[i][j].var
                                == var;
                        assert(!a.contains_key(formula@[i][j].var));
                        assert(occurs(formula@, var));
                        lemma_free_count_shrinks(formula@, a, at);
                        lemma_free_count_shrinks(formula@, a, af);
                    }
                    let mut assignment_true = assignment.clone();
                    assignment_true.insert(var, true);
                    if let SatResult::Sat(m) = dpll(formula, assignment_true) {
                        proof {
                            assert(a.submap_of(at));
                            lemma_submap_trans(a0, a, at);
                            lemma_submap_trans(a0, at, m@);
                            assert forall|v: u32| #[trigger] m@.dom().contains(v) implies a0.dom().contains(
                                v,
                            ) || occurs(formula@, v) by {
                                if v != var && !occurs(formula@, v) {
                                    assert(a.dom().contains(v));
                                }
                            }
                        }
                        return SatResult::Sat(m);
                    }
                    let mut assignment_false = assignment.clone();
                    assignment_false.insert(var, false);
                    if let SatResult::Sat(m) = dpll(formula, assignment_false) {
                        proof {
                            assert(a.submap_of(af));
                            lemma_submap_trans(a0, a, af);
                            lemma_submap_trans(a0, af, m@);
                            assert forall|v: u32| #[trigger] m@.dom().contains(v) implies a0.dom().contains(
                                v,
                            ) || occurs(formula@, v) by {
                                if v != var && !occurs(formula@, v) {
                                    assert(a.dom().contains(v));
                                }
                            }
                        }
                        return SatResult::Sat(m);
                    }
                    proof {
                        assert forall|b: Map<u32, bool>| #[trigger]
                            a0.submap_of(b) implies !satisfies(formula@, b) by {
                            if satisfies(formula@, b) {
                                assert(a.submap_of(b));
                                if b.contains_key(var) {
                                    lemma_insert_submap(a, b, var);
                                } else {
                                    let bt = b.insert(var, true);
                                    assert(b.submap_of(bt));
                                    lemma_satisfies_extend(formula@, b, bt);
                                    assert(at.submap_of(bt));
                                }
                            }
                        }
                    }
                    SatResult::Unsat
                },
                None => {
                    proof {
                        let i = choose|i: int|
                            0 <= i < formula@.len() && #[trigger] clause_value(formula@[i], a)
                                == Truth::Unknown;
                        let j = choose|j: int|
                            0 <= j < formula@[i].len() && #[trigger] lit_value(formula@[i][j], a)
                                == Truth::Unknown;
                        assert(!a.contains_key(formula@[i][j].var));
                        assert(branch_candidate(formula@[i], a));
                    }
                    SatResult::Unsat
                },
            }
        },
    }
}

/// Decides the formula by the search that `search` describes, from the empty
/// assignment. A returned assignment makes every clause true and binds only
/// variables of the formula, and `Unsat` comes back exactly when no
/// assignment satisfies the formula.
pub fn solve(formula: &Formula) -> (r: SatResult)
    ensures
        r matches SatResult::Sat(m) ==> satisfies(formula@, m@),
        r matches SatResult::Sat(m) ==> forall|i: int|
            0 <= i < formula@.len() ==> #[trigger] clause_value(formula@[i], m@) == Truth::True,
        r is Unsat <==> !satisfiable(formula@),
        r is Unsat ==> forall|b: Map<u32, bool>| !satisfies(formula@, b),
        match search(formula@, Map::empty()) {
            Some(m) => r matches SatResult::Sat(x) && x@ == m,
            None => r is Unsat,
        },
        r matches SatResult::Sat(m) ==> forall|v: u32|
            #[trigger] m@.dom().contains(v) ==> occurs(formula@, v),
        formula_value(formula@, Map::empty()) == Truth::True ==> (r matches SatResult::Sat(m) && m@
            == Map::<u32, bool>::empty()),
        formula@.len() == 0 ==> (r matches SatResult::Sat(m) && m@ == Map::<u32, bool>::empty()),
{
    let assignment: HashMap<u32, bool> = HashMap::new();
    let r = dpll(formula, assignment);
    proof {
        match r {
            SatResult::Sat(ref m) => {
                assert(satisfies(formula@, m@));
                assert forall|i: int| 0 <= i < formula@.len() implies #[trigger] clause_value(
                    formula@[i],
                    m@,
                ) == Truth::True by {
                    assert(has_true(formula@[i], m@));
                }
            },
            SatResult::Unsat => {
                assert forall|b: Map<u32, bool>| !satisfies(formula@, b) by {
                    assert(Map::<u32, bool>::empty().submap_of(b));
                }
            },
        }
    }
    r
}

} // verus!
