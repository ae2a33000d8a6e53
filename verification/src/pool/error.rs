//! Errors of pools.

use vstd::prelude::*;
use crate::storage::device::StorageError;

verus! {

/// What can go wrong with a pool.
#[derive(Clone, Debug, PartialEq, Eq)]
#[allow(inconsistent_fields)]
pub enum PoolError {
    Io(String),
    /// A device failed.
    Storage(StorageError),
    /// The configuration cannot be read.
    TomlDe(String),
    /// The configuration cannot be written.
    TomlSer(String),
    CborEncode(String),
    CborDecode(String),
    DiskPathTooLong { len: usize, max: usize },
    InvalidDiskPathUtf8,
    InvalidMediaType(u8),
    InvalidStorageTier(u8),
    InvalidDiskState(u8),
    EmptyPool,
    DiskNotFound(u16),
    DuplicateDiskId(u16),
    /// More disks than the root block has room for.
    DiskOverflowUnsupported { count: u32, max: u32 },
    NodeIdMismatch { disk: u16, pool: u16, disk_says: u16 },
    DiskIdMismatch { expected: u16, actual: u16 },
    CrcMismatch { expected: u32, actual: u32 },
    InvalidBlockKind(u16),
    InvalidPayload(String),
}

} // verus!
