//! Object metadata: records, locations, the radix addressing of both tables,
//! and the physical-to-logical backpointers.

pub mod backpointer;
pub mod effects;
pub mod error;
pub mod leaf;
pub mod location;
pub mod location_leaf;
pub mod location_table;
pub mod object_leaf;
pub mod object_table;
pub mod overflow;
pub mod radix;
pub mod record;
