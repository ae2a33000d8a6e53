//! The ontology: which tags exist, which imply which, and the modules that
//! brought them.

pub mod effects;
pub mod error;
pub mod graph;
pub mod image;
pub mod implication_dag;
pub mod laws;
pub mod materializer;
pub mod module;
pub mod path;
pub mod resolve;
pub mod scrub;
pub mod series;
pub mod state;
pub mod undo;
pub mod upgrade;
pub mod withdrawal;
pub mod wording;
