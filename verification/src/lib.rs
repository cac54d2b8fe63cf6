//! AHPCL, the Advanced High-Performance Calculations Language: exact values, the
//! interpreter that gives programs their meaning, the semantic checks made before a
//! program runs, the lowering of programs to machine operations with the runtime they
//! call, and the diagnostics that report what was found.

pub mod ast;
pub mod codegen;
pub mod diagnostics;
pub mod driver;
pub mod eval;
pub mod runtime;
pub mod sema;
pub mod table;
pub mod text;
