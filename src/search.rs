use vstd::prelude::*;

use crate::clause::{clause_value, has_true, is_unit, unassigned};
use crate::formula::{formula_value, lemma_lit_extend, lemma_submap_trans, satisfies};
use crate::lit::{lit_value, Lit};
use crate::truth::Truth;

verus! {

/// The number of literal occurrences in `cs` whose variable `a` leaves unbound.
pub open spec fn free_count(cs: Seq<Seq<Lit>>, a: Map<u32, bool>) -> nat
    decreases cs.len(),
{
    if cs.len() == 0 {
        0
    } else {
        free_count(cs.drop_last(), a) + unassigned(cs.last(), a).len()
    }
}

/// `j` is the first position of `c` whose variable `a` leaves unbound.
pub open spec fn first_free(c: Seq<Lit>, a: Map<u32, bool>, j: int) -> bool {
    &&& 0 <= j < c.len()
    &&& !a.contains_key(c[j].var)
    &&& forall|k: int| 0 <= k < j ==> a.contains_key(#[trigger] c[k].var)
}

/// A clause may supply the branch variable: it is not yet true and has an
/// unbound variable.
pub open spec fn branch_candidate(c: Seq<Lit>, a: Map<u32, bool>) -> bool {
    &&& clause_value(c, a) != Truth::True
    &&& exists|j: int| 0 <= j < c.len() && !a.contains_key(#[trigger] c[j].var)
}

/// The literals that `unassigned` keeps are exactly the unbound ones of `c`.
pub proof fn lemma_unassigned_members(c: Seq<Lit>, a: Map<u32, bool>)
    ensures
        forall|k: int|
            0 <= k < unassigned(c, a).len() ==> !a.contains_key(#[trigger] unassigned(c, a)[k].var)
                && c.contains(unassigned(c, a)[k]),
        forall|j: int|
            0 <= j < c.len() && !a.contains_key(#[trigger] c[j].var) ==> unassigned(c, a).contains(
                c[j],
            ),
    decreases c.len(),
{
    if c.len() > 0 {
        let init = c.drop_last();
        lemma_unassigned_members(init, a);
        let u = unassigned(c, a);
        let r = unassigned(init, a);
        assert forall|k: int| 0 <= k < u.len() implies !a.contains_key(#[trigger] u[k].var)
            && c.contains(u[k]) by {
            if k < r.len() {
                assert(u[k] == r[k]);
                assert(!a.contains_key(r[k].var));
                assert(init.contains(r[k]));
                let m = choose|m: int| 0 <= m < init.len() && init[m] == r[k];
                assert(c[m] == u[k]);
            } else {
                assert(c[c.len() - 1] == u[k]);
            }
        }
        assert forall|j: int| 0 <= j < c.len() && !a.contains_key(#[trigger] c[j].var) implies u.contains(
            c[j],
        ) by {
            if j < c.len() - 1 {
                assert(init[j] == c[j]);
                let m = choose|m: int|
                    0 <= m < unassigned(init, a).len() && unassigned(init, a)[m] == c[j];
                assert(u[m] == c[j]);
            } else {
                assert(u[u.len() - 1] == c[j]);
            }
        }
    }
}

/// Binding more variables never adds unbound occurrences, and binding a
/// variable that occurs unbound removes at least one.
pub proof fn lemma_unassigned_shrinks(c: Seq<Lit>, a: Map<u32, bool>, b: Map<u32, bool>)
    requires
        a.dom().subset_of(b.dom()),
    ensures
        unassigned(c, b).len() <= unassigned(c, a).len(),
        (exists|j: int|
            0 <= j < c.len() && !a.contains_key(#[trigger] c[j].var) && b.contains_key(c[j].var))
            ==> unassigned(c, b).len() < unassigned(c, a).len(),
    decreases c.len(),
{
    if c.len() > 0 {
        let init = c.drop_last();
        lemma_unassigned_shrinks(init, a, b);
        if exists|j: int|
            0 <= j < c.len() && !a.contains_key(#[trigger] c[j].var) && b.contains_key(c[j].var) {
            let j = choose|j: int|
                0 <= j < c.len() && !a.contains_key(#[trigger] c[j].var) && b.contains_key(c[j].var);
            if j < c.len() - 1 {
                assert(init[j] == c[j]);
            }
        }
    }
}

/// `free_count` is monotone under extension, and strictly so when a variable
/// that occurs unbound becomes bound.
pub proof fn lemma_free_count_shrinks(cs: Seq<Seq<Lit>>, a: Map<u32, bool>, b: Map<u32, bool>)
    requires
        a.dom().subset_of(b.dom()),
    ensures
        free_count(cs, b) <= free_count(cs, a),
        (exists|i: int, j: int|
            0 <= i < cs.len() && 0 <= j < cs[i].len() && !a.contains_key(#[trigger] cs[i][j].var)
                && b.contains_key(cs[i][j].var)) ==> free_count(cs, b) < free_count(cs, a),
    decreases cs.len(),
{
    if cs.len() > 0 {
        let init = cs.drop_last();
        lemma_free_count_shrinks(init, a, b);
        lemma_unassigned_shrinks(cs.last(), a, b);
        if exists|i: int, j: int|
            0 <= i < cs.len() && 0 <= j < cs[i].len() && !a.contains_key(#[trigger] cs[i][j].var)
                && b.contains_key(cs[i][j].var) {
            let (i, j) = choose|i: int, j: int|
                0 <= i < cs.len() && 0 <= j < cs[i].len() && !a.contains_key(
                    #[trigger] cs[i][j].var,
                ) && b.contains_key(cs[i][j].var);
            if i < cs.len() - 1 {
                assert(init[i] == cs[i]);
                assert(!a.contains_key(init[i][j].var));
            } else {
                assert(!a.contains_key(cs.last()[j].var));
            }
        }
    }
}

/// Every satisfying extension of `a` must bind the literal that a unit clause
/// forces so as to make it true.
pub proof fn lemma_unit_forced(c: Seq<Lit>, a: Map<u32, bool>, b: Map<u32, bool>)
    requires
        is_unit(c, a),
        a.submap_of(b),
        has_true(c, b),
    ensures
        b.contains_key(unassigned(c, a)[0].var),
        b[unassigned(c, a)[0].var] == unassigned(c, a)[0].sign,
{
    let l = unassigned(c, a)[0];
    lemma_unassigned_members(c, a);
    let j = choose|j: int| 0 <= j < c.len() && #[trigger] lit_value(c[j], b) == Truth::True;
    if a.contains_key(c[j].var) {
        lemma_lit_extend(c[j], a, b);
        assert(has_true(c, a));
        assert(false);
    }
    let m = choose|m: int| 0 <= m < unassigned(c, a).len() && unassigned(c, a)[m] == c[j];
    assert(c[j] == l);
}

/// Variable `v` occurs in some clause of `cs`.
pub open spec fn occurs(cs: Seq<Seq<Lit>>, v: u32) -> bool {
    exists|i: int, j: int|
        #![trigger cs[i][j]]
        0 <= i < cs.len() && 0 <= j < cs[i].len() && cs[i][j].var == v
}

/// The literal forced by the first unit clause of `cs` at index `i` or later.
pub open spec fn unit_from(cs: Seq<Seq<Lit>>, a: Map<u32, bool>, i: int) -> Option<Lit>
    decreases cs.len() - i,
{
    if i < 0 || i >= cs.len() {
        None
    } else if is_unit(cs[i], a) {
        Some(unassigned(cs[i], a)[0])
    } else {
        unit_from(cs, a, i + 1)
    }
}

/// The literal forced by the first unit clause of `cs`, scanning in order.
pub open spec fn first_unit(cs: Seq<Seq<Lit>>, a: Map<u32, bool>) -> Option<Lit> {
    unit_from(cs, a, 0)
}

/// The first unbound variable of clause `c` at position `j` or later.
pub open spec fn free_var_from(c: Seq<Lit>, a: Map<u32, bool>, j: int) -> Option<u32>
    decreases c.len() - j,
{
    if j < 0 || j >= c.len() {
        None
    } else if !a.contains_key(c[j].var) {
        Some(c[j].var)
    } else {
        free_var_from(c, a, j + 1)
    }
}

/// The first unbound variable of the first clause, at index `i` or later,
/// that is not yet true and has one.
pub open spec fn branch_from(cs: Seq<Seq<Lit>>, a: Map<u32, bool>, i: int) -> Option<u32>
    decreases cs.len() - i,
{
    if i < 0 || i >= cs.len() {
        None
    } else if clause_value(cs[i], a) != Truth::True && free_var_from(cs[i], a, 0) is Some {
        free_var_from(cs[i], a, 0)
    } else {
        branch_from(cs, a, i + 1)
    }
}

/// The variable the search branches on under `a`.
pub open spec fn branch_var(cs: Seq<Seq<Lit>>, a: Map<u32, bool>) -> Option<u32> {
    branch_from(cs, a, 0)
}

/// Unit propagation: bind the literal of the first unit clause and start
/// over, until no clause is a unit clause. (Each binding lowers
/// `free_count`, so the guard always holds.)
pub open spec fn propagate(cs: Seq<Seq<Lit>>, a: Map<u32, bool>) -> Map<u32, bool>
    decreases free_count(cs, a),
{
    match first_unit(cs, a) {
        None => a,
        Some(l) => {
            let a2 = a.insert(l.var, l.sign);
            if free_count(cs, a2) < free_count(cs, a) {
                propagate(cs, a2)
            } else {
                a
            }
        },
    }
}

/// The answer of the search from assignment `a`: propagate; then stop with
/// the assignment if the formula is true, with nothing if it is false, and
/// otherwise branch on `branch_var`, binding it `true` first and `false` only
/// if that branch finds nothing.
pub open spec fn search(cs: Seq<Seq<Lit>>, a: Map<u32, bool>) -> Option<Map<u32, bool>>
    decreases free_count(cs, a),
{
    let p = propagate(cs, a);
    if formula_value(cs, p) == Truth::True {
        Some(p)
    } else if formula_value(cs, p) == Truth::False {
        None
    } else {
        match branch_var(cs, p) {
            None => None,
            Some(v) => {
                let at = p.insert(v, true);
                let af = p.insert(v, false);
                if free_count(cs, at) < free_count(cs, a) && free_count(cs, af) < free_count(cs, a) {
                    match search(cs, at) {
                        Some(m) => Some(m),
                        None => search(cs, af),
                    }
                } else {
                    None
                }
            },
        }
    }
}

/// Binding in `a` a variable the way an extension `b` binds it keeps `b` an
/// extension.
pub proof fn lemma_insert_submap(a: Map<u32, bool>, b: Map<u32, bool>, v: u32)
    requires
        a.submap_of(b),
        b.contains_key(v),
    ensures
        a.insert(v, b[v]).submap_of(b),
{
    let a2 = a.insert(v, b[v]);
    assert forall|k: u32| #[trigger] a2.dom().contains(k) implies (b.dom().contains(k) && a2[k]
        == b[k]) by {
        if k != v {
            assert(a.dom().contains(k));
        }
    }
}

/// One propagation step keeps every satisfying extension of `a0` in view:
/// binding the literal forced by a unit clause loses none of them, and it
/// binds a variable that occurs unbound, so `free_count` drops.
pub proof fn lemma_unit_step(cs: Seq<Seq<Lit>>, a0: Map<u32, bool>, a: Map<u32, bool>, i: int)
    requires
        0 <= i < cs.len(),
        is_unit(cs[i], a),
        a0.submap_of(a),
        forall|b: Map<u32, bool>| #[trigger] a0.submap_of(b) && satisfies(cs, b) ==> a.submap_of(b),
    ensures
        ({
            let l = unassigned(cs[i], a)[0];
            let a2 = a.insert(l.var, l.sign);
            &&& a0.submap_of(a2)
            &&& occurs(cs, l.var)
            &&& free_count(cs, a2) < free_count(cs, a)
            &&& forall|b: Map<u32, bool>|
                #[trigger] a0.submap_of(b) && satisfies(cs, b) ==> a2.submap_of(b)
        }),
{
    let l = unassigned(cs[i], a)[0];
    let a2 = a.insert(l.var, l.sign);
    lemma_unassigned_members(cs[i], a);
    assert(!a.contains_key(unassigned(cs[i], a)[0].var));
    assert(unassigned(cs[i], a).contains(l));
    let j = choose|j: int| 0 <= j < cs[i].len() && cs[i][j] == l;
    assert(!a.contains_key(cs[i][j].var));
    assert(occurs(cs, l.var));
    lemma_free_count_shrinks(cs, a, a2);
    assert(a.submap_of(a2));
    lemma_submap_trans(a0, a, a2);
    assert forall|b: Map<u32, bool>| #[trigger] a0.submap_of(b) && satisfies(cs, b) implies a2.submap_of(
        b,
    ) by {
        assert(a.submap_of(b));
        assert(has_true(cs[i], b));
        lemma_unit_forced(cs[i], a, b);
        assert forall|k: u32| #[trigger] a2.dom().contains(k) implies (b.dom().contains(k) && a2[k]
            == b[k]) by {
            if k != l.var {
                assert(a.dom().contains(k));
            }
        }
    }
}

} // verus!
