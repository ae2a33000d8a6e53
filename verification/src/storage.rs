//! What the layers above share on disk: references, block and node headers,
//! checksums, and the device they are read from and written to.

pub mod block;
pub mod crc;
pub mod device;
pub mod effects;
pub mod node;
pub mod records;
pub mod region;
