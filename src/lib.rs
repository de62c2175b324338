//! Conversion of identifiers between lexical case conventions.
pub mod case;
pub mod laws;
pub mod text;

pub use case::{capitalize, Case};
