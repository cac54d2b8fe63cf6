//! The driver: a library first, a command line second.

pub mod cli;
pub mod duration;
pub mod report;

pub use duration::format_duration;
pub use report::Report;
