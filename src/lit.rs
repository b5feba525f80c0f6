use std::collections::HashMap;
use vstd::prelude::*;

use crate::truth::Truth;

verus! {

broadcast use {
    vstd::std_specs::hash::axiom_contains_deref_key,
    vstd::std_specs::hash::axiom_maps_deref_key_to_value,
    vstd::std_specs::hash::axiom_u32_obeys_hash_table_key_model,
    vstd::std_specs::hash::axiom_random_state_builds_valid_hashers,
};

/// A variable together with a polarity: `sign == true` stands for the
/// variable itself, `sign == false` for its negation.
#[derive(PartialEq, Eq, Structural, Clone, Copy, Debug)]
pub struct Lit {
    pub var: u32,
    pub sign: bool,
}

/// The value of literal `l` under the partial assignment `a`.
pub open spec fn lit_value(l: Lit, a: Map<u32, bool>) -> Truth {
    if !a.contains_key(l.var) {
        Truth::Unknown
    } else if a[l.var] == l.sign {
        Truth::True
    } else {
        Truth::False
    }
}

/// The literal that a DIMACS integer `n` stands for: variable
/// `|n|`, positive exactly when `n > 0`.
pub open spec fn dimacs_lit(n: i32) -> Lit {
    Lit { var: (if n >= 0 { n as int } else { -(n as int) }) as u32, sign: n > 0 }
}

impl Lit {
    pub fn new(var: u32, sign: bool) -> (r: Lit)
        ensures
            r.var == var,
            r.sign == sign,
    {
        Lit { var, sign }
    }

    /// The literal that a signed DIMACS integer denotes: `n` is variable
    /// `|n|` with positive polarity when `n > 0`, negative otherwise.
    pub fn from_dimacs(n: i32) -> (r: Lit)
        ensures
            r.var as int == if n >= 0 { n as int } else { -(n as int) },
            r.sign == (n > 0),
            r == dimacs_lit(n),
    {
        let var: u32 = if n >= 0 { n as u32 } else { (-(n as i64)) as u32 };
        Lit { var, sign: n > 0 }
    }

    pub fn var(self) -> (r: u32)
        ensures
            r == self.var,
    {
        self.var
    }

    pub fn sign(self) -> (r: bool)
        ensures
            r == self.sign,
    {
        self.sign
    }

    /// The literal's value under a partial assignment.
    pub fn eval(self, assignment: &HashMap<u32, bool>) -> (r: Truth)
        ensures
            r == lit_value(self, assignment@),
    {
        match assignment.get(&self.var) {
            None => Truth::Unknown,
            Some(value) => if *value == self.sign {
                Truth::True
            } else {
                Truth::False
            },
        }
    }
}

} // verus!
