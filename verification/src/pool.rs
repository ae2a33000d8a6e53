//! Pools: several disks under one node.

pub mod config;
pub mod disk;
pub mod effects;
pub mod error;
pub mod laws;
pub mod manager;
pub mod placement;
pub mod root;
pub mod status;
pub mod superblock;
