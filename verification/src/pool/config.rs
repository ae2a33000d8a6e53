//! The configuration of a pool.

use vstd::prelude::*;
use crate::pool::error::PoolError;
use crate::types::id::{DiskId, NodeId};
use crate::types::policy::{MediaType, StorageTier};

verus! {

/// One disk of a pool.
#[derive(Clone, Debug, PartialEq, Eq)]
pub struct DiskConfigEntry {
    pub id: DiskId,
    pub path: String,
    pub media_type: MediaType,
    pub tier: StorageTier,
    pub capacity_bytes: u64,
}

/// The mathematical content of a [`DiskConfigEntry`].
pub ghost struct EntryModel {
    pub id: DiskId,
    pub path: Seq<char>,
    pub media_type: MediaType,
    pub tier: StorageTier,
    pub capacity_bytes: u64,
}

impl View for DiskConfigEntry {
    type V = EntryModel;

    open spec fn view(&self) -> EntryModel {
        EntryModel {
            id: self.id,
            path: self.path@,
            media_type: self.media_type,
            tier: self.tier,
            capacity_bytes: self.capacity_bytes,
        }
    }
}

impl DiskConfigEntry {
    /// A copy of the entry.
    pub fn duplicate(&self) -> (r: Self)
        ensures
            r@ == self@,
    {
        DiskConfigEntry {
            id: self.id,
            path: self.path.clone(),
            media_type: self.media_type,
            tier: self.tier,
            capacity_bytes: self.capacity_bytes,
        }
    }
}

/// The contents of some entries.
pub open spec fn entry_list(v: Seq<DiskConfigEntry>) -> Seq<EntryModel> {
    v.map_values(|e: DiskConfigEntry| e@)
}

/// A pool: its node and its disks.
#[derive(Clone, Debug, PartialEq, Eq)]
pub struct PoolConfig {
    pub node_id: NodeId,
    pub disks: Vec<DiskConfigEntry>,
}

/// Entry `i` is the first with the lowest id.
pub open spec fn is_primary(s: Seq<EntryModel>, i: int) -> bool {
    &&& 0 <= i < s.len()
    &&& forall|j: int| 0 <= j < s.len() ==> s[i].id <= (#[trigger] s[j]).id
    &&& forall|j: int| 0 <= j < i ==> s[i].id < (#[trigger] s[j]).id
}

/// The id of entry `k` stands at an earlier entry.
pub open spec fn repeats(s: Seq<EntryModel>, k: int) -> bool {
    exists|j: int| 0 <= j < k && (#[trigger] s[j]).id == s[k].id
}

/// Why a pool cannot be made from these entries, if it cannot: there are
/// none, too many, or the first that repeats an id.
pub open spec fn new_pool_fault(s: Seq<EntryModel>, e: PoolError) -> bool {
    if s.len() == 0 {
        e == PoolError::EmptyPool
    } else if s.len() > 12 {
        e == (PoolError::DiskOverflowUnsupported {
            count: (s.len() % 0x1_0000_0000) as u32,
            max: 12,
        })
    } else {
        exists|k: int| #[trigger] first_repeat(s, k) && e == PoolError::DuplicateDiskId(s[k].id)
    }
}

/// Entry `k` is the first that repeats an id.
pub open spec fn first_repeat(s: Seq<EntryModel>, k: int) -> bool {
    &&& 0 <= k < s.len()
    &&& repeats(s, k)
    &&& forall|j: int| 0 <= j < k ==> !#[trigger] repeats(s, j)
}

/// A pool can be made from these entries.
pub open spec fn new_pool_ok(s: Seq<EntryModel>) -> bool {
    &&& 0 < s.len() <= 12
    &&& forall|j: int| 0 <= j < s.len() ==> !#[trigger] repeats(s, j)
}

impl PoolConfig {
    /// The entries.
    pub open spec fn entries(&self) -> Seq<EntryModel> {
        entry_list(self.disks@)
    }

    /// A pool without disks.
    pub fn new(node_id: NodeId) -> (r: Self)
        ensures
            r.node_id == node_id,
            r.disks@ == Seq::<DiskConfigEntry>::empty(),
    {
        PoolConfig { node_id, disks: Vec::new() }
    }

    /// The first entry with this id.
    pub fn find_disk(&self, id: DiskId) -> (r: Option<&DiskConfigEntry>)
        ensures
            match r {
                Some(e) => exists|i: int|
                    0 <= i < self.disks@.len() && *e == #[trigger] self.disks@[i] && e.id == id
                        && forall|j: int| 0 <= j < i ==> (#[trigger] self.disks@[j]).id != id,
                None => forall|i: int|
                    0 <= i < self.disks@.len() ==> (#[trigger] self.disks@[i]).id != id,
            },
    {
        let mut i: usize = 0;
        while i < self.disks.len()
            invariant
                i <= self.disks@.len(),
                forall|j: int| 0 <= j < i ==> (#[trigger] self.disks@[j]).id != id,
            decreases self.disks@.len() - i,
        {
            if self.disks[i].id == id {
                return Some(&self.disks[i]);
            }
            i = i + 1;
        }
        None
    }

    /// The disk that holds the root block: the first entry with the lowest id.
    pub fn primary(&self) -> (r: Option<&DiskConfigEntry>)
        ensures
            match r {
                Some(e) => exists|i: int|
                    #[trigger] is_primary(self.entries(), i) && *e == self.disks@[i],
                None => self.disks@.len() == 0,
            },
    {
        if self.disks.len() == 0 {
            return None;
        }
        let ghost s = self.entries();
        let mut best: usize = 0;
        let mut i: usize = 1;
        while i < self.disks.len()
            invariant
                best < i <= self.disks@.len(),
                s == self.entries(),
                forall|j: int| 0 <= j < i ==> s[best as int].id <= (#[trigger] s[j]).id,
                forall|j: int| 0 <= j < best ==> s[best as int].id < (#[trigger] s[j]).id,
            decreases self.disks@.len() - i,
        {
            proof {
                assert(s[i as int].id == self.disks@[i as int].id);
                assert(s[best as int].id == self.disks@[best as int].id);
            }
            if self.disks[i].id < self.disks[best].id {
                best = i;
            }
            i = i + 1;
        }
        proof {
            assert(is_primary(s, best as int));
        }
        Some(&self.disks[best])
    }

    /// Whether a pool can be made from this configuration.
    pub fn check_new(&self) -> (r: Result<(), PoolError>)
        ensures
            match r {
                Ok(_) => new_pool_ok(self.entries()),
                Err(e) => new_pool_fault(self.entries(), e),
            },
    {
        let ghost s = self.entries();
        let n = self.disks.len();
        if n == 0 {
            return Err(PoolError::EmptyPool);
        }
        if n > 12 {
            return Err(
                PoolError::DiskOverflowUnsupported {
                    count: (n as u64 % 0x1_0000_0000) as u32,
                    max: 12,
                },
            );
        }
        let mut k: usize = 0;
        while k < n
            invariant
                k <= n,
                n <= 12,
                n == self.disks@.len(),
                s == self.entries(),
                forall|j: int| 0 <= j < k ==> !#[trigger] repeats(s, j),
            decreases n - k,
        {
            let mut j: usize = 0;
            while j < k
                invariant
                    j <= k,
                    k < n,
                    n <= 12,
                    n == self.disks@.len(),
                    s == self.entries(),
                    forall|a: int| 0 <= a < k ==> !#[trigger] repeats(s, a),
                    forall|a: int| 0 <= a < j ==> (#[trigger] s[a]).id != s[k as int].id,
                decreases k - j,
            {
                proof {
                    assert(s[j as int].id == self.disks@[j as int].id);
                    assert(s[k as int].id == self.disks@[k as int].id);
                }
                if self.disks[j].id == self.disks[k].id {
                    proof {
                        assert(repeats(s, k as int));
                        assert(first_repeat(s, k as int));
                    }
                    return Err(PoolError::DuplicateDiskId(self.disks[k].id));
                }
                j = j + 1;
            }
            k = k + 1;
        }
        Ok(())
    }
}

} // verus!
