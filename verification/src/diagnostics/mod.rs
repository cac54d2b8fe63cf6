//! What the compiler says to the person in front of it: positions in source text, error
//! reports, and the notes of the Informer.

pub mod error;
pub mod informer;
pub mod position;

pub use informer::{Informer, Note};
pub use error::{Category, Code, Error, Label};
pub use position::{BytePos, LineCol, SourceFile, Span};
