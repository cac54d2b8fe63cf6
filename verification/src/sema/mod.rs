//! Semantic analysis: name resolution and type checking, and range analysis.

pub mod analysis;
pub mod check;
pub mod check_laws;
pub mod flow_laws;
pub mod interval;
pub mod laws;
pub mod range_laws;
pub mod scope;
pub mod soundness;
pub mod touch;
pub mod touch_laws;
pub mod type_laws;
pub mod types;
pub mod typing;
pub mod verdict_laws;
pub mod verify;

pub use check::{check, Checked};
pub use types::{Base, Shape, Type};
pub use verify::{verify, EvalBudget, Verified};
