//! Queries: their text form, their plan, and their evaluation.

pub mod bounds;
pub mod error;
pub mod executor;
pub mod explain;
pub mod facets;
pub mod laws;
pub mod lexer;
pub mod meaning;
pub mod parser;
pub mod render;
pub mod round_trip;
pub mod wording;
