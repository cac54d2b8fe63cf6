//! The native backend: programs lowered to a flat list of machine operations.
pub mod agreement;
pub mod asking;
pub mod boxes;
pub mod bulk;
pub mod compile;
pub mod correct;
pub mod evaluate;
pub mod exactly;
pub mod gathering;
pub mod language;
pub mod laws;
pub mod lifting;
pub mod literals;
pub mod lowering;
pub mod machine;
pub mod meeting;
pub mod native;
pub mod picking;
pub mod powers;
pub mod runtime;
pub mod scalars;
pub mod selecting;
pub mod simulation;
pub mod standing;
pub mod steps;
pub mod straight;
pub mod vectors;
pub mod wellformed;
pub mod whole;
pub mod work;
pub mod workings;
