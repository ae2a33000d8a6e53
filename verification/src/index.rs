//! The indexes: from objects to what is said of them, and back.

pub mod bitmap;
pub mod bitmap_chain;
pub mod blocks;
pub mod chain_laws;
pub mod chunk_index;
pub mod chunk_list;
pub mod effects;
pub mod error;
pub mod faceted;
pub mod flush_laws;
pub mod forward_index;
pub mod kv_bucket;
pub mod kv_directory;
pub mod kv_index;
pub mod leaf_entry;
pub mod normalised_key;
pub mod overflow_chain;
pub mod packed;
pub mod postings;
pub mod range_index;
pub mod tag_bitmap_page;
pub mod tag_index;
pub mod tag_region;
pub mod tag_store;
pub mod value_hash;
