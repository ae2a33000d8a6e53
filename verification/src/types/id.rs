//! Identifiers of objects, tags, nodes and disks.

use vstd::prelude::*;
use crate::ordmap::Key;

verus! {

/// Identifies a node of the cluster.
pub type NodeId = u16;

/// Identifies a disk of the pool.
pub type DiskId = u16;

/// Identifies an installed ontology module.
pub type ModuleId = String;

/// Number of values that the local sequence of an [`ObjectId`] can take.
pub const LOCAL_SEQ_SPAN: u64 = 0x1_0000_0000_0000;

/// Identifies an object: the node that created it in the top 16 bits, the
/// node's own sequence number in the low 48.
#[derive(Clone, Copy, Debug, PartialEq, Eq, PartialOrd, Ord, Hash, Structural)]
pub struct ObjectId {
    pub raw: u64,
}

impl ObjectId {
    pub fn from_u64(raw: u64) -> (r: Self)
        ensures
            r.raw == raw,
    {
        ObjectId { raw }
    }

    pub fn to_u64(&self) -> (r: u64)
        ensures
            r == self.raw,
    {
        self.raw
    }

    /// The id of node `node` and sequence number `local`, of which only the
    /// low 48 bits are kept.
    pub fn from_parts(node: NodeId, local: u64) -> (r: Self)
        ensures
            r.raw == node * LOCAL_SEQ_SPAN + local % LOCAL_SEQ_SPAN,
            r.node() == node,
            r.local() == local % LOCAL_SEQ_SPAN,
    {
        ObjectId { raw: (node as u64) * LOCAL_SEQ_SPAN + local % LOCAL_SEQ_SPAN }
    }

    /// The node part.
    pub open spec fn node(&self) -> int {
        self.raw as int / LOCAL_SEQ_SPAN as int
    }

    /// The local sequence part.
    pub open spec fn local(&self) -> int {
        self.raw as int % LOCAL_SEQ_SPAN as int
    }

    pub fn node_id(&self) -> (r: NodeId)
        ensures
            r == self.node(),
    {
        (self.raw / LOCAL_SEQ_SPAN) as u16
    }

    pub fn local_seq(&self) -> (r: u64)
        ensures
            r == self.local(),
    {
        self.raw % LOCAL_SEQ_SPAN
    }
}

impl Key for ObjectId {
    type Model = u64;

    open spec fn model(&self) -> u64 {
        self.raw
    }

    open spec fn precedes(a: u64, b: u64) -> bool {
        a < b
    }

    proof fn precedes_is_order(a: u64, b: u64, c: u64) {
    }

    fn is_before(&self, other: &ObjectId) -> (r: bool) {
        self.raw < other.raw
    }

    fn copy_key(&self) -> (r: ObjectId) {
        *self
    }
}

/// Identifies a tag.
#[derive(Clone, Copy, Debug, PartialEq, Eq, PartialOrd, Ord, Hash, Structural)]
pub struct TagId {
    pub id: u32,
}

impl TagId {
    pub fn new(id: u32) -> (r: Self)
        ensures
            r.id == id,
    {
        TagId { id }
    }

    pub fn raw(&self) -> (r: u32)
        ensures
            r == self.id,
    {
        self.id
    }
}

impl Key for TagId {
    type Model = TagId;

    open spec fn model(&self) -> TagId {
        *self
    }

    open spec fn precedes(a: TagId, b: TagId) -> bool {
        a.id < b.id
    }

    proof fn precedes_is_order(a: TagId, b: TagId, c: TagId) {
    }

    fn is_before(&self, other: &TagId) -> (r: bool) {
        self.id < other.id
    }

    fn copy_key(&self) -> (r: TagId) {
        *self
    }
}

/// An object id is determined by its node and its local sequence.
pub proof fn object_id_from_parts(id: ObjectId)
    ensures
        id.raw == id.node() * LOCAL_SEQ_SPAN + id.local(),
        0 <= id.node() < 0x1_0000,
        0 <= id.local() < LOCAL_SEQ_SPAN,
{
}

} // verus!
