use vstd::prelude::*;

verus! {

/// The three-valued result of evaluating a literal, clause or formula
/// under a partial assignment.
#[derive(PartialEq, Eq, Structural, Clone, Copy, Debug)]
pub enum Truth {
    True,
    False,
    Unknown,
}

} // verus!
