//! Exact-contract Gaussian elimination over a generic scalar field.
//!
//! A [`CoefficientMatrix`] is built from [`Equation`]s, checked by
//! `validate`, brought to upper-triangular form by `convert` and reduced to
//! solved form by `solve`.

pub mod scalar;
pub mod function;
pub mod laws;
pub mod solver;

pub use function::{Error, Function, Polynomial};
pub use scalar::Scalar;
pub use solver::{CoefficientMatrix, Equation, SolveError};
