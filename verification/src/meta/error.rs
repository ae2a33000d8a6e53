//! Errors of the metadata layer.

use vstd::prelude::*;
use crate::storage::device::StorageError;

verus! {

/// What can go wrong in the metadata layer.
#[derive(Clone, Debug, PartialEq, Eq)]
pub enum MetaError {
    /// The storage layer failed.
    Storage(StorageError),
    /// No object state has this number.
    InvalidObjectState(u8),
    /// No compression state has this number.
    InvalidCompressionState(u8),
    /// No encryption state has this number.
    InvalidEncryptionState(u8),
    /// No owner kind has this number.
    InvalidOwnerKind(u8),
    /// The buffer does not have the size that is needed.
    BufferTooSmall { needed: usize, got: usize },
    /// More replicas than fit inline.
    InvalidReplicaCount(u8),
    /// The local id lies beyond what a tree of this depth can address.
    OidOutOfRange { oid_local: u64, root_level: u8 },
}

} // verus!
