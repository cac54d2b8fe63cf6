//! Evaluation: exact values, and an interpreter.

pub mod array_laws;
pub mod arrays;
pub mod decimal;
pub mod eval;
pub mod laws;
pub mod number_laws;
pub mod numeric;
pub mod ops;
pub mod parse;
pub mod parse_laws;
pub mod rational;
pub mod replay;
pub mod run_laws;
pub mod select;
pub mod semantics;
pub mod value;

pub use decimal::Decimal;
pub use rational::Rational;
pub use value::{Array, Value};
