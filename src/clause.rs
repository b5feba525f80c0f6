use std::collections::HashMap;
use vstd::prelude::*;

use crate::lit::{dimacs_lit, lit_value, Lit};
use crate::truth::Truth;

verus! {

/// A disjunction of literals, kept in the order they were added.
#[derive(Debug)]
pub struct Clause {
    pub lits: Vec<Lit>,
}

/// Some literal of `lits` is true under `a`.
pub open spec fn has_true(lits: Seq<Lit>, a: Map<u32, bool>) -> bool {
    exists|i: int| 0 <= i < lits.len() && #[trigger] lit_value(lits[i], a) == Truth::True
}

/// Some literal of `lits` is unknown under `a`.
pub open spec fn has_unknown(lits: Seq<Lit>, a: Map<u32, bool>) -> bool {
    exists|i: int| 0 <= i < lits.len() && #[trigger] lit_value(lits[i], a) == Truth::Unknown
}

/// The value of a clause: true if some literal is true, else unknown if some
/// literal is unknown, else false (so the empty clause is always false).
pub open spec fn clause_value(lits: Seq<Lit>, a: Map<u32, bool>) -> Truth {
    if has_true(lits, a) {
        Truth::True
    } else if has_unknown(lits, a) {
        Truth::Unknown
    } else {
        Truth::False
    }
}

/// The literals of `lits` whose variable `a` leaves unbound, in order.
pub open spec fn unassigned(lits: Seq<Lit>, a: Map<u32, bool>) -> Seq<Lit>
    decreases lits.len(),
{
    if lits.len() == 0 {
        Seq::empty()
    } else {
        let rest = unassigned(lits.drop_last(), a);
        if a.contains_key(lits.last().var) {
            rest
        } else {
            rest.push(lits.last())
        }
    }
}

/// The clause is not yet satisfied and exactly one of its literals is unbound:
/// that literal is forced.
pub open spec fn is_unit(lits: Seq<Lit>, a: Map<u32, bool>) -> bool {
    clause_value(lits, a) != Truth::True && unassigned(lits, a).len() == 1
}

impl View for Clause {
    type V = Seq<Lit>;

    open spec fn view(&self) -> Seq<Lit> {
        self.lits@
    }
}

impl Clause {
    /// The empty clause, which no assignment satisfies.
    pub fn new() -> (r: Clause)
        ensures
            r@ == Seq::<Lit>::empty(),
    {
        Clause { lits: Vec::new() }
    }

    /// A clause of the given DIMACS integers, in order.
    pub fn from_lits(ns: Vec<i32>) -> (r: Clause)
        ensures
            r@ == ns@.map_values(|n: i32| dimacs_lit(n)),
    {
        let mut lits: Vec<Lit> = Vec::new();
        let mut i: usize = 0;
        while i < ns.len()
            invariant
                i <= ns@.len(),
                lits@ == ns@.take(i as int).map_values(|n: i32| dimacs_lit(n)),
            decreases ns@.len() - i,
        {
            lits.push(Lit::from_dimacs(ns[i]));
            assert(ns@.take(i + 1).map_values(|n: i32| dimacs_lit(n)) =~= ns@.take(i as int).map_values(
                |n: i32| dimacs_lit(n),
            ).push(dimacs_lit(ns@[i as int])));
            i = i + 1;
        }
        assert(ns@.take(i as int) =~= ns@);
        Clause { lits }
    }

    /// Appends a literal.
    pub fn add_literal(&mut self, lit: Lit)
        ensures
            final(self)@ == old(self)@.push(lit),
    {
        self.lits.push(lit);
    }

    /// The clause's value under a partial assignment.
    pub fn eval(&self, assignment: &HashMap<u32, bool>) -> (r: Truth)
        ensures
            r == clause_value(self@, assignment@),
    {
        let mut i: usize = 0;
        while i < self.lits.len()
            invariant
                i <= self@.len(),
                forall|k: int| 0 <= k < i ==> #[trigger] lit_value(self@[k], assignment@) != Truth::True,
            decreases self@.len() - i,
        {
            if self.lits[i].eval(assignment) == Truth::True {
                return Truth::True;
            }
            i = i + 1;
        }
        let mut j: usize = 0;
        while j < self.lits.len()
            invariant
                j <= self@.len(),
                !has_true(self@, assignment@),
                forall|k: int| 0 <= k < j ==> #[trigger] lit_value(self@[k], assignment@) != Truth::Unknown,
            decreases self@.len() - j,
        {
            if self.lits[j].eval(assignment) == Truth::Unknown {
                return Truth::Unknown;
            }
            j = j + 1;
        }
        Truth::False
    }
}

} // verus!
