//! The AHPCL runtime: the arithmetic that compiled programs call.
//!
//! Native code cannot hold an exact decimal or rational in a machine register, so compiled
//! code calls into these functions, which do the arithmetic exactly and hand back the same
//! representation the interpreter uses. A computation that cannot go on hands back a
//! failure, with the code and the message that the program stops with.

pub mod access;
pub mod array;
pub mod exact;
pub mod laws;
pub mod num;
pub mod number_laws;
pub mod parse;
pub mod parse_laws;
pub mod select_laws;

pub use exact::{AhpclDecimal, AhpclRational, Failure};
