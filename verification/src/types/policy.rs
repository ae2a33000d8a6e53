//! How the bytes of objects are to be stored.

use vstd::prelude::*;

verus! {

/// How content is cut into chunks.
#[derive(Clone, Copy, Debug, PartialEq, Eq, Structural)]
pub enum ChunkingAlgo {
    /// Content is kept in one piece.
    Whole,
    FixedSize,
    FastCDC,
}

/// A chunking algorithm with its sizes in bytes.
#[derive(Clone, Copy, Debug, PartialEq, Eq, Structural)]
pub struct ChunkParams {
    pub algo: ChunkingAlgo,
    pub min_size: u32,
    pub avg_size: u32,
    pub max_size: u32,
}

/// How content is compressed.
#[derive(Clone, Copy, Debug, PartialEq, Eq, Structural)]
pub enum CompressionAlgo {
    /// Not at all.
    Off,
    Lz4,
    /// With its level.
    Zstd(i32),
}

/// How content is encrypted.
#[derive(Clone, Copy, Debug, PartialEq, Eq, Structural)]
pub enum EncryptionMode {
    /// Not at all.
    Off,
    Xts,
    AesGcm,
    ChaCha20Poly1305,
    Hctr2 { object_id: u64 },
}

/// A storage policy: each axis is either declared or left open.
#[derive(Clone, Copy, Debug, PartialEq, Eq, Structural)]
pub struct StoragePolicy {
    pub chunking: Option<ChunkParams>,
    pub compression: Option<CompressionAlgo>,
    pub encryption: Option<EncryptionMode>,
}

impl Default for StoragePolicy {
    /// The policy that declares nothing.
    fn default() -> (r: Self)
        ensures
            r.chunking is None,
            r.compression is None,
            r.encryption is None,
    {
        StoragePolicy { chunking: None, compression: None, encryption: None }
    }
}

/// How fast a tier answers, and what it costs.
#[derive(Clone, Copy, Debug, PartialEq, Eq, PartialOrd, Ord, Hash, Structural)]
pub enum StorageTier {
    Hot,
    Warm,
    Cold,
    Glacier,
}

impl StorageTier {
    /// The number that stands for the tier on disk.
    pub open spec fn code(&self) -> u8 {
        match self {
            StorageTier::Hot => 0,
            StorageTier::Warm => 1,
            StorageTier::Cold => 2,
            StorageTier::Glacier => 3,
        }
    }

    pub fn to_u8(&self) -> (r: u8)
        ensures
            r == self.code(),
    {
        match self {
            StorageTier::Hot => 0,
            StorageTier::Warm => 1,
            StorageTier::Cold => 2,
            StorageTier::Glacier => 3,
        }
    }

    pub fn from_u8(v: u8) -> (r: Option<Self>)
        ensures
            match r {
                Some(t) => t.code() == v,
                None => v > 3,
            },
    {
        match v {
            0 => Some(StorageTier::Hot),
            1 => Some(StorageTier::Warm),
            2 => Some(StorageTier::Cold),
            3 => Some(StorageTier::Glacier),
            _ => None,
        }
    }
}

/// What a disk is made of.
#[derive(Clone, Copy, Debug, PartialEq, Eq, Structural)]
pub enum MediaType {
    NVMe,
    Ssd,
    Hdd,
    SmrHdd,
    Remote,
}

/// Where a disk stands in its life.
#[derive(Clone, Copy, Debug, PartialEq, Eq, Structural)]
pub enum DiskState {
    Online,
    Draining,
    Removed,
    Faulted,
}

} // verus!
