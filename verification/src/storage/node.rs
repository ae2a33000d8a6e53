//! Tree nodes in memory.

use vstd::prelude::*;
use crate::bytes::zeros;
use crate::storage::block::{BtreeKind, BtreeNodeHeader, BLOCK_PREAMBLE_MAGIC_BTREE};

verus! {

/// Format version of tree nodes.
pub const BTREE_NODE_FORMAT_VERSION: u16 = 1;

/// The header of a node of this kind in a region of this size.
pub open spec fn heads(h: BtreeNodeHeader, kind: BtreeKind, region_size_log2: u8) -> bool {
    &&& h.pre.magic@ == BLOCK_PREAMBLE_MAGIC_BTREE@
    &&& h.pre.kind == kind.number()
    &&& h.pre.format_version == BTREE_NODE_FORMAT_VERSION
    &&& h.region_size_log2 == region_size_log2
}

/// A run of entries in key order.
pub struct SortedRun<K, V> {
    pub entries: Vec<(K, V)>,
}

/// A node with its runs, the oldest first.
pub struct LoadedNode<K, V> {
    pub header: BtreeNodeHeader,
    pub sorted_runs: Vec<SortedRun<K, V>>,
}

/// All entries, those of older runs first.
pub open spec fn entries_of<K, V>(runs: Seq<SortedRun<K, V>>) -> Seq<(K, V)>
    decreases runs.len(),
{
    if runs.len() == 0 {
        Seq::empty()
    } else {
        entries_of(runs.drop_last()) + runs.last().entries@
    }
}

impl<K, V> LoadedNode<K, V> {
    /// All entries, those of older runs first.
    pub open spec fn entries(&self) -> Seq<(K, V)> {
        entries_of(self.sorted_runs@)
    }

    /// A node of this kind that was just made: a leaf without a key range,
    /// which has its entries in one run, or no run where it has no entry.
    pub open spec fn fresh(&self, kind: BtreeKind, region_size_log2: u8) -> bool {
        &&& heads(self.header, kind, region_size_log2)
        &&& self.header.level == 0
        &&& self.header.sorted_run_count == self.sorted_runs@.len()
        &&& self.header.payload_used == 0
        &&& self.header.seq == 0
        &&& self.header.min_key@ == zeros(16)
        &&& self.header.max_key@ == zeros(16)
        &&& self.header.reserved@ == zeros(8)
        &&& self.sorted_runs@.len() == if self.entries().len() == 0 {
            0nat
        } else {
            1nat
        }
    }

    /// All entries, those of older runs first.
    pub fn merge_iter(&self) -> (r: Vec<&(K, V)>)
        ensures
            r@.len() == self.entries().len(),
            forall|i: int| 0 <= i < r@.len() ==> *(#[trigger] r@[i]) == self.entries()[i],
    {
        let mut out: Vec<&(K, V)> = Vec::new();
        let mut a: usize = 0;
        proof {
            assert(self.sorted_runs@.take(0) =~= Seq::<SortedRun<K, V>>::empty());
        }
        while a < self.sorted_runs.len()
            invariant
                a <= self.sorted_runs@.len(),
                out@.len() == entries_of(self.sorted_runs@.take(a as int)).len(),
                forall|i: int|
                    0 <= i < out@.len() ==> *(#[trigger] out@[i]) == entries_of(
                        self.sorted_runs@.take(a as int),
                    )[i],
            decreases self.sorted_runs@.len() - a,
        {
            let run = &self.sorted_runs[a];
            let ghost before = entries_of(self.sorted_runs@.take(a as int));
            let ghost after = entries_of(self.sorted_runs@.take(a + 1));
            proof {
                let x = self.sorted_runs@.take(a + 1);
                assert(x.drop_last() =~= self.sorted_runs@.take(a as int));
                assert(x.last() == *run);
                assert(after == before + run.entries@);
            }
            let mut b: usize = 0;
            while b < run.entries.len()
                invariant
                    b <= run.entries@.len(),
                    after == before + run.entries@,
                    out@.len() == before.len() + b,
                    forall|i: int| 0 <= i < out@.len() ==> *(#[trigger] out@[i]) == after[i],
                decreases run.entries@.len() - b,
            {
                out.push(&run.entries[b]);
                b = b + 1;
            }
            a = a + 1;
        }
        proof {
            assert(self.sorted_runs@.take(a as int) =~= self.sorted_runs@);
        }
        out
    }

    /// A node of this kind with no entry.
    pub fn new(kind: BtreeKind, level: u8, region_size_log2: u8) -> (r: Self)
        ensures
            heads(r.header, kind, region_size_log2),
            r.header.level == level,
            r.header.sorted_run_count == 0,
            r.entries() == Seq::<(K, V)>::empty(),
            level == 0 ==> r.fresh(kind, region_size_log2),
    {
        LoadedNode {
            header: BtreeNodeHeader::new(kind, BTREE_NODE_FORMAT_VERSION, level, region_size_log2),
            sorted_runs: Vec::new(),
        }
    }

    /// A node of this kind with one run.
    pub fn with_run(
        kind: BtreeKind,
        level: u8,
        region_size_log2: u8,
        entries: Vec<(K, V)>,
    ) -> (r: Self)
        ensures
            heads(r.header, kind, region_size_log2),
            r.header.level == level,
            r.header.sorted_run_count == 1,
            r.entries() == entries@,
            level == 0 && entries@.len() > 0 ==> r.fresh(kind, region_size_log2),
    {
        let mut header = BtreeNodeHeader::new(
            kind,
            BTREE_NODE_FORMAT_VERSION,
            level,
            region_size_log2,
        );
        header.sorted_run_count = 1;
        let mut sorted_runs: Vec<SortedRun<K, V>> = Vec::new();
        let run = SortedRun { entries };
        sorted_runs.push(run);
        let r = LoadedNode { header, sorted_runs };
        proof {
            assert(r.sorted_runs@.drop_last() =~= Seq::<SortedRun<K, V>>::empty());
            assert(entries_of(r.sorted_runs@.drop_last()) =~= Seq::<(K, V)>::empty());
            assert(r.entries() =~= entries@);
        }
        r
    }
}

} // verus!
