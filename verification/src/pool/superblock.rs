//! What the superblock of a disk says.

use vstd::prelude::*;
use crate::bytes::{get_array, le, lemma_le_len, put_le, put_zeros, zeros};
use crate::pool::config::{DiskConfigEntry, EntryModel, PoolConfig};
use crate::pool::error::PoolError;
use crate::types::id::{DiskId, NodeId};
use crate::types::policy::{MediaType, StorageTier};

verus! {

/// A stretch of a disk.
#[derive(Clone, Copy, Debug, PartialEq, Eq, Structural)]
pub struct Extent {
    pub offset: u64,
    pub length: u64,
}

/// How a disk is laid out when it is formatted.
#[derive(Clone, Copy, Debug, PartialEq, Eq, Structural)]
pub struct FormatPlan {
    pub bucket_size_log2: u8,
    pub btree_node_log2: u8,
    pub bootstrap_buckets: u32,
    pub wal: Extent,
    pub index_zone: Extent,
    pub metadata_zone: Extent,
    pub blob_zone: Extent,
    pub format_version: u16,
}

/// The layout of a disk of this capacity: log, index zone and metadata zone
/// have fixed places, and the blobs get the rest.
pub open spec fn layout_for(capacity_bytes: u64) -> FormatPlan {
    FormatPlan {
        bucket_size_log2: 20,
        btree_node_log2: 18,
        bootstrap_buckets: 64,
        wal: Extent { offset: 65536, length: 1048576 },
        index_zone: Extent { offset: 1114112, length: 4194304 },
        metadata_zone: Extent { offset: 5308416, length: 4194304 },
        blob_zone: Extent {
            offset: 9502720,
            length: if capacity_bytes >= 9502720 {
                (capacity_bytes - 9502720) as u64
            } else {
                0
            },
        },
        format_version: 1,
    }
}

/// The layout of a disk of this capacity.
pub fn format_plan(capacity_bytes: u64) -> (r: FormatPlan)
    ensures
        r == layout_for(capacity_bytes),
{
    let blob: u64 = if capacity_bytes >= 9502720 {
        capacity_bytes - 9502720
    } else {
        0
    };
    FormatPlan {
        bucket_size_log2: 20,
        btree_node_log2: 18,
        bootstrap_buckets: 64,
        wal: Extent { offset: 65536, length: 1048576 },
        index_zone: Extent { offset: 1114112, length: 4194304 },
        metadata_zone: Extent { offset: 5308416, length: 4194304 },
        blob_zone: Extent { offset: 9502720, length: blob },
        format_version: 1,
    }
}

/// The zones follow one another without gaps or overlaps, and the blob zone
/// ends where the disk ends, if the disk reaches that far.
pub proof fn zones_are_adjacent(capacity_bytes: u64)
    ensures
        ({
            let p = layout_for(capacity_bytes);
            &&& p.wal.offset + p.wal.length == p.index_zone.offset
            &&& p.index_zone.offset + p.index_zone.length == p.metadata_zone.offset
            &&& p.metadata_zone.offset + p.metadata_zone.length == p.blob_zone.offset
            &&& capacity_bytes >= p.blob_zone.offset ==> p.blob_zone.offset + p.blob_zone.length
                == capacity_bytes
            &&& capacity_bytes < p.blob_zone.offset ==> p.blob_zone.length == 0
        }),
{
}

/// The id of the file system on a disk: node and disk, then fixed letters.
pub open spec fn fs_uuid(node_id: NodeId, disk_id: DiskId) -> Seq<u8> {
    le(node_id as nat, 2) + le(disk_id as nat, 2) + seq![77u8, 73, 77, 73, 80, 79, 79, 76]
        + zeros(4)
}

/// The id of the file system on a disk.
pub fn fs_uuid_for(node_id: NodeId, disk_id: DiskId) -> (r: [u8; 16])
    ensures
        r@ == fs_uuid(node_id, disk_id),
{
    let mut out: Vec<u8> = Vec::new();
    put_le(&mut out, node_id as u64, 2);
    put_le(&mut out, disk_id as u64, 2);
    out.push(77);
    out.push(73);
    out.push(77);
    out.push(73);
    out.push(80);
    out.push(79);
    out.push(79);
    out.push(76);
    put_zeros(&mut out, 4);
    proof {
        broadcast use lemma_le_len;

        assert(out@ =~= fs_uuid(node_id, disk_id));
        assert(out@.subrange(0, 16) =~= out@);
    }
    get_array::<16>(out.as_slice(), 0)
}

/// What the superblock of a disk says.
#[derive(Clone, Copy, Debug, PartialEq, Eq)]
pub struct Superblock {
    pub fs_uuid: [u8; 16],
    pub node_id: NodeId,
    pub disk_id: DiskId,
    pub media_type: MediaType,
    pub tier: StorageTier,
    pub layout: FormatPlan,
}

/// The mathematical content of a [`Superblock`].
pub ghost struct SuperblockModel {
    pub fs_uuid: Seq<u8>,
    pub node_id: NodeId,
    pub disk_id: DiskId,
    pub media_type: MediaType,
    pub tier: StorageTier,
    pub layout: FormatPlan,
}

impl View for Superblock {
    type V = SuperblockModel;

    open spec fn view(&self) -> SuperblockModel {
        SuperblockModel {
            fs_uuid: self.fs_uuid@,
            node_id: self.node_id,
            disk_id: self.disk_id,
            media_type: self.media_type,
            tier: self.tier,
            layout: self.layout,
        }
    }
}

/// The contents of some superblocks.
pub open spec fn superblock_list(s: Seq<Superblock>) -> Seq<SuperblockModel> {
    Seq::new(s.len(), |i: int| s[i]@)
}

/// The superblock with which the disk of an entry is formatted.
pub open spec fn formatted(node_id: NodeId, e: EntryModel) -> SuperblockModel {
    SuperblockModel {
        fs_uuid: fs_uuid(node_id, e.id),
        node_id,
        disk_id: e.id,
        media_type: e.media_type,
        tier: e.tier,
        layout: layout_for(e.capacity_bytes),
    }
}

/// The superblocks with which the disks of some entries are formatted.
pub open spec fn formatted_list(node_id: NodeId, s: Seq<EntryModel>) -> Seq<SuperblockModel> {
    Seq::new(s.len(), |i: int| formatted(node_id, s[i]))
}

/// What is wrong with a superblock on the disk with this id of this node. The
/// node is looked at first.
pub open spec fn identity_fault(node_id: NodeId, disk_id: DiskId, b: SuperblockModel) -> Option<
    PoolError,
> {
    if b.node_id != node_id {
        Some(PoolError::NodeIdMismatch { disk: disk_id, pool: node_id, disk_says: b.node_id })
    } else if b.disk_id != disk_id {
        Some(PoolError::DiskIdMismatch { expected: disk_id, actual: b.disk_id })
    } else {
        None
    }
}

/// Disk `k` is the first whose superblock does not fit its entry.
pub open spec fn first_stranger(
    node_id: NodeId,
    s: Seq<EntryModel>,
    bs: Seq<SuperblockModel>,
    k: int,
) -> bool {
    &&& 0 <= k < s.len()
    &&& identity_fault(node_id, s[k].id, bs[k]) is Some
    &&& forall|j: int|
        0 <= j < k ==> identity_fault(node_id, (#[trigger] s[j]).id, bs[j]) is None
}

impl Superblock {
    /// The superblock with which the disk of an entry is formatted.
    pub fn for_disk(node_id: NodeId, entry: &DiskConfigEntry) -> (r: Self)
        ensures
            r@ == formatted(node_id, entry@),
    {
        Superblock {
            fs_uuid: fs_uuid_for(node_id, entry.id),
            node_id,
            disk_id: entry.id,
            media_type: entry.media_type,
            tier: entry.tier,
            layout: format_plan(entry.capacity_bytes),
        }
    }

    /// Whether this is the superblock of the disk with this id of this node.
    pub fn check_identity(&self, node_id: NodeId, disk_id: DiskId) -> (r: Result<(), PoolError>)
        ensures
            match r {
                Ok(_) => identity_fault(node_id, disk_id, self@) is None,
                Err(e) => identity_fault(node_id, disk_id, self@) == Some(e),
            },
    {
        if self.node_id != node_id {
            return Err(
                PoolError::NodeIdMismatch {
                    disk: disk_id,
                    pool: node_id,
                    disk_says: self.node_id,
                },
            );
        }
        if self.disk_id != disk_id {
            return Err(PoolError::DiskIdMismatch { expected: disk_id, actual: self.disk_id });
        }
        Ok(())
    }

    /// The node.
    pub fn node_id(&self) -> (r: NodeId)
        ensures
            r == self@.node_id,
    {
        self.node_id
    }

    /// The disk.
    pub fn disk_id(&self) -> (r: DiskId)
        ensures
            r == self@.disk_id,
    {
        self.disk_id
    }
}

/// The superblocks with which the disks of a configuration are formatted.
pub fn format_all(config: &PoolConfig) -> (r: Vec<Superblock>)
    ensures
        r@.len() == config.disks@.len(),
        superblock_list(r@) == formatted_list(config.node_id, config.entries()),
{
    let mut out: Vec<Superblock> = Vec::new();
    let mut i: usize = 0;
    while i < config.disks.len()
        invariant
            i <= config.disks@.len(),
            out@.len() == i,
            forall|j: int|
                0 <= j < i ==> (#[trigger] out@[j])@ == formatted(
                    config.node_id,
                    config.entries()[j],
                ),
        decreases config.disks@.len() - i,
    {
        out.push(Superblock::for_disk(config.node_id, &config.disks[i]));
        i = i + 1;
    }
    proof {
        assert(superblock_list(out@) =~= formatted_list(config.node_id, config.entries()));
    }
    out
}

/// A disk that was formatted for an entry is recognised as that of the entry.
pub proof fn formatted_disk_is_known(node_id: NodeId, e: EntryModel)
    ensures
        identity_fault(node_id, e.id, formatted(node_id, e)) is None,
{
}

} // verus!
