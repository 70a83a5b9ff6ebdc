//! Normal-order normalization of untyped lambda terms in De Bruijn notation,
//! driven by an environment machine with weakening frames.

pub mod machine;
pub mod normal;
pub mod term;

pub use machine::eval;
pub use term::{app, free, lam, to_string, var, Term};
