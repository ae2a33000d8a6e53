//! The vocabulary shared by every layer: identifiers, attribute values,
//! assertions, queries, tag definitions and storage policies.

pub mod assertion;
pub mod effects;
pub mod id;
pub mod policy;
pub mod query;
pub mod tag;
pub mod value;
