pub mod clause;
pub mod formula;
pub mod lit;
pub mod parser;
pub mod search;
pub mod solver;
pub mod truth;

pub use clause::Clause;
pub use formula::Formula;
pub use lit::Lit;
pub use parser::{parse_dimacs_bytes, ParseError};
pub use solver::{solve, SatResult};
pub use truth::Truth;
