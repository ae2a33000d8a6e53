//! Errors of the indexes.

use vstd::prelude::*;
use crate::storage::device::StorageError;

verus! {

/// What can go wrong in an index.
#[derive(Clone, Debug, PartialEq, Eq)]
pub enum IndexError {
    /// The buffer is shorter than what it has to hold.
    BufferTooSmall { need: usize, have: usize },
    /// More assertions than fifteen bits can count.
    AssertionCountOverflow { count: usize },
    /// No kind of assertion has this number.
    InvalidAssertionKind(u8),
    /// No origin has this number.
    InvalidAssertionOrigin(u8),
    TagNotFound,
    ObjectNotFound,
    /// The index cannot be written.
    CborEncode(String),
    /// The index cannot be read.
    CborDecode(String),
    /// The bytes are not those of a bitmap.
    Roaring(String),
    /// The storage layer failed.
    Storage(StorageError),
    /// Stores of this kind are not written.
    UnsupportedStoreKind(u8),
    /// More members than 32 bits can count.
    CardinalityOverflow(u64),
    /// The bitmap needs a page beyond the area.
    BitmapAreaExhausted { needed: usize, cap: usize },
    /// The chain needs a region beyond the area.
    OverflowAreaExhausted { needed: usize, cap: usize },
    /// The chain does not hold what its leaf entry says.
    CorruptOverflowChain(&'static str),
    /// The components do not make up a key.
    MalformedKey(&'static str),
}

} // verus!
