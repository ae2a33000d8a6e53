//! A tag-indexed object store: on-disk record formats, tag and attribute
//! indexes, an ontology of tags, a query language over them, and the
//! bookkeeping of a multi-disk pool. Every item is verified.

pub mod bytes;
pub mod index;
pub mod meta;
pub mod ontology;
pub mod ordmap;
pub mod pool;
pub mod query;
pub mod sorting;
pub mod storage;
pub mod text;
pub mod types;
