use std::collections::HashMap;
use vstd::prelude::*;
use vstd::seq_lib::to_multiset_contains;

use crate::clause::{clause_value, has_true, Clause};
use crate::lit::{lit_value, Lit};
use crate::truth::Truth;

verus! {

/// A conjunction of clauses.
#[derive(Debug)]
pub struct Formula {
    pub clauses: Vec<Clause>,
}

/// Some clause of `cs` is false under `a`.
pub open spec fn has_false_clause(cs: Seq<Seq<Lit>>, a: Map<u32, bool>) -> bool {
    exists|i: int| 0 <= i < cs.len() && #[trigger] clause_value(cs[i], a) == Truth::False
}

/// Some clause of `cs` is unknown under `a`.
pub open spec fn has_unknown_clause(cs: Seq<Seq<Lit>>, a: Map<u32, bool>) -> bool {
    exists|i: int| 0 <= i < cs.len() && #[trigger] clause_value(cs[i], a) == Truth::Unknown
}

/// The value of a formula: false if some clause is false, else unknown if some
/// clause is unknown, else true (so the empty formula is always true).
pub open spec fn formula_value(cs: Seq<Seq<Lit>>, a: Map<u32, bool>) -> Truth {
    if has_false_clause(cs, a) {
        Truth::False
    } else if has_unknown_clause(cs, a) {
        Truth::Unknown
    } else {
        Truth::True
    }
}

/// Every clause of `cs` has a literal that is true under `a`.
pub open spec fn satisfies(cs: Seq<Seq<Lit>>, a: Map<u32, bool>) -> bool {
    forall|i: int| 0 <= i < cs.len() ==> #[trigger] has_true(cs[i], a)
}

/// Some assignment satisfies every clause of `cs`.
pub open spec fn satisfiable(cs: Seq<Seq<Lit>>) -> bool {
    exists|a: Map<u32, bool>| satisfies(cs, a)
}

impl View for Formula {
    type V = Seq<Seq<Lit>>;

    open spec fn view(&self) -> Seq<Seq<Lit>> {
        self.clauses@.map_values(|c: Clause| c@)
    }
}

/// A formula is true exactly when every clause has a true literal.
pub proof fn lemma_value_true_iff_satisfies(cs: Seq<Seq<Lit>>, a: Map<u32, bool>)
    ensures
        (formula_value(cs, a) == Truth::True) == satisfies(cs, a),
{
    if satisfies(cs, a) {
        assert forall|i: int| 0 <= i < cs.len() implies #[trigger] clause_value(cs[i], a)
            == Truth::True by {
            assert(has_true(cs[i], a));
        }
    }
    if formula_value(cs, a) == Truth::True {
        assert forall|i: int| 0 <= i < cs.len() implies #[trigger] has_true(cs[i], a) by {
            assert(clause_value(cs[i], a) != Truth::False);
            assert(clause_value(cs[i], a) != Truth::Unknown);
        }
    }
}

/// Binding more variables never changes a literal value that is already known.
pub proof fn lemma_lit_extend(l: Lit, a: Map<u32, bool>, b: Map<u32, bool>)
    requires
        a.submap_of(b),
        lit_value(l, a) != Truth::Unknown,
    ensures
        lit_value(l, b) == lit_value(l, a),
{
    assert(a.contains_key(l.var));
}

/// A clause that is true (or false) stays so when more variables are bound.
pub proof fn lemma_clause_extend(c: Seq<Lit>, a: Map<u32, bool>, b: Map<u32, bool>)
    requires
        a.submap_of(b),
    ensures
        clause_value(c, a) == Truth::True ==> clause_value(c, b) == Truth::True,
        clause_value(c, a) == Truth::False ==> clause_value(c, b) == Truth::False,
{
    if clause_value(c, a) == Truth::True {
        let i = choose|i: int| 0 <= i < c.len() && #[trigger] lit_value(c[i], a) == Truth::True;
        lemma_lit_extend(c[i], a, b);
    }
    if clause_value(c, a) == Truth::False {
        assert forall|i: int| 0 <= i < c.len() implies #[trigger] lit_value(c[i], b)
            == Truth::False by {
            assert(lit_value(c[i], a) != Truth::True);
            assert(lit_value(c[i], a) != Truth::Unknown);
            lemma_lit_extend(c[i], a, b);
        }
    }
}

/// An assignment that satisfies a formula still does after more bindings.
pub proof fn lemma_satisfies_extend(cs: Seq<Seq<Lit>>, a: Map<u32, bool>, b: Map<u32, bool>)
    requires
        a.submap_of(b),
        satisfies(cs, a),
    ensures
        satisfies(cs, b),
{
    assert forall|i: int| 0 <= i < cs.len() implies #[trigger] has_true(cs[i], b) by {
        assert(has_true(cs[i], a));
        lemma_clause_extend(cs[i], a, b);
    }
}

/// Extension of assignments is transitive.
pub proof fn lemma_submap_trans(a: Map<u32, bool>, b: Map<u32, bool>, c: Map<u32, bool>)
    requires
        a.submap_of(b),
        b.submap_of(c),
    ensures
        a.submap_of(c),
{
    assert forall|k: u32| #[trigger] a.dom().contains(k) implies (c.dom().contains(k) && a[k]
        == c[k]) by {
        assert(b.dom().contains(k));
    }
    assert(a.submap_of(c));
}

/// No extension of an assignment under which the formula is false satisfies it.
pub proof fn lemma_false_blocks_extensions(cs: Seq<Seq<Lit>>, a: Map<u32, bool>, b: Map<u32, bool>)
    requires
        a.submap_of(b),
        formula_value(cs, a) == Truth::False,
    ensures
        !satisfies(cs, b),
{
    let i = choose|i: int| 0 <= i < cs.len() && #[trigger] clause_value(cs[i], a) == Truth::False;
    lemma_clause_extend(cs[i], a, b);
    assert(!has_true(cs[i], b));
}

/// Evaluation depends on nothing but the clauses and the assignment: equal
/// formulas under equal assignments always evaluate to the same value.
pub proof fn lemma_eval_deterministic(f: &Formula, g: &Formula, a: Map<u32, bool>, b: Map<u32, bool>)
    requires
        f@ == g@,
        a == b,
    ensures
        formula_value(f@, a) == formula_value(g@, b),
{
}

/// Whether a formula is satisfiable does not depend on the order of its
/// clauses: formulas with the same clauses, each as often, agree.
pub proof fn lemma_satisfiable_order_independent(cs: Seq<Seq<Lit>>, ds: Seq<Seq<Lit>>)
    requires
        cs.to_multiset() == ds.to_multiset(),
    ensures
        satisfiable(cs) == satisfiable(ds),
{
    assert forall|a: Map<u32, bool>| satisfies(cs, a) implies satisfies(ds, a) by {
        assert forall|i: int| 0 <= i < ds.len() implies #[trigger] has_true(ds[i], a) by {
            assert(ds.contains(ds[i]));
            to_multiset_contains(ds, ds[i]);
            to_multiset_contains(cs, ds[i]);
            let j = choose|j: int| 0 <= j < cs.len() && cs[j] == ds[i];
            assert(has_true(cs[j], a));
        }
    }
    assert forall|a: Map<u32, bool>| satisfies(ds, a) implies satisfies(cs, a) by {
        assert forall|i: int| 0 <= i < cs.len() implies #[trigger] has_true(cs[i], a) by {
            assert(cs.contains(cs[i]));
            to_multiset_contains(cs, cs[i]);
            to_multiset_contains(ds, cs[i]);
            let j = choose|j: int| 0 <= j < ds.len() && ds[j] == cs[i];
            assert(has_true(ds[j], a));
        }
    }
    if satisfiable(cs) {
        let a = choose|a: Map<u32, bool>| satisfies(cs, a);
        assert(satisfies(ds, a));
    }
    if satisfiable(ds) {
        let a = choose|a: Map<u32, bool>| satisfies(ds, a);
        assert(satisfies(cs, a));
    }
}

impl Formula {
    /// The empty formula, which every assignment satisfies.
    pub fn new() -> (r: Formula)
        ensures
            r@ == Seq::<Seq<Lit>>::empty(),
    {
        Formula { clauses: Vec::new() }
    }

    /// A formula of the given clauses, in order.
    pub fn from_clauses(clauses: Vec<Clause>) -> (r: Formula)
        ensures
            r@ == clauses@.map_values(|c: Clause| c@),
    {
        Formula { clauses }
    }

    /// Appends a clause.
    pub fn add_clause(&mut self, clause: Clause)
        ensures
            final(self)@ == old(self)@.push(clause@),
    {
        self.clauses.push(clause);
        assert(self@ =~= old(self)@.push(clause@));
    }

    /// The formula's value under a partial assignment.
    pub fn eval(&self, assignment: &HashMap<u32, bool>) -> (r: Truth)
        ensures
            r == formula_value(self@, assignment@),
    {
        let mut i: usize = 0;
        while i < self.clauses.len()
            invariant
                i <= self@.len(),
                forall|k: int| 0 <= k < i ==> #[trigger] clause_value(self@[k], assignment@)
                    != Truth::False,
            decreases self@.len() - i,
        {
            if self.clauses[i].eval(assignment) == Truth::False {
                assert(clause_value(self@[i as int], assignment@) == Truth::False);
                return Truth::False;
            }
            i = i + 1;
        }
        let mut j: usize = 0;
        while j < self.clauses.len()
            invariant
                j <= self@.len(),
                !has_false_clause(self@, assignment@),
                forall|k: int| 0 <= k < j ==> #[trigger] clause_value(self@[k], assignment@)
                    != Truth::Unknown,
            decreases self@.len() - j,
        {
            if self.clauses[j].eval(assignment) == Truth::Unknown {
                assert(clause_value(self@[j as int], assignment@) == Truth::Unknown);
                return Truth::Unknown;
            }
            j = j + 1;
        }
        Truth::True
    }
}

} // verus!
