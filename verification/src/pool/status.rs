//! Figures about a pool.

use vstd::prelude::*;
use crate::ordmap::{Key, OrdMap};
use crate::types::id::{DiskId, NodeId};
use crate::types::policy::{DiskState, MediaType, StorageTier};

verus! {

/// What is known of one disk.
#[derive(Clone, Copy, Debug, PartialEq, Eq, Structural)]
pub struct DiskFigures {
    pub id: DiskId,
    pub state: DiskState,
    pub media_type: MediaType,
    pub tier: StorageTier,
    pub capacity_bytes: u64,
    pub used_bytes: u64,
}

/// The figures of one tier.
#[derive(Clone, Copy, Debug, PartialEq, Eq, Structural)]
pub struct TierBreakdown {
    pub disk_count: u32,
    pub capacity_bytes: u64,
    pub used_bytes: u64,
}

impl Default for TierBreakdown {
    fn default() -> (r: Self)
        ensures
            r == (TierBreakdown { disk_count: 0, capacity_bytes: 0, used_bytes: 0 }),
    {
        TierBreakdown { disk_count: 0, capacity_bytes: 0, used_bytes: 0 }
    }
}

impl Key for StorageTier {
    type Model = StorageTier;

    open spec fn model(&self) -> StorageTier {
        *self
    }

    open spec fn precedes(a: StorageTier, b: StorageTier) -> bool {
        a.code() < b.code()
    }

    proof fn precedes_is_order(a: StorageTier, b: StorageTier, c: StorageTier) {
    }

    fn is_before(&self, other: &StorageTier) -> (r: bool) {
        self.to_u8() < other.to_u8()
    }

    fn copy_key(&self) -> (r: StorageTier) {
        *self
    }
}

/// The figures of a pool.
#[derive(Clone, Debug)]
pub struct PoolStatus {
    pub node_id: NodeId,
    pub disk_count: u32,
    pub total_capacity: u64,
    pub total_used: u64,
    /// Id, state, medium, tier, capacity and use of each disk, in ascending
    /// order of ids.
    pub disks: Vec<(DiskId, DiskState, MediaType, StorageTier, u64, u64)>,
    pub by_tier: OrdMap<StorageTier, TierBreakdown>,
    /// In ascending order.
    pub faulted_disks: Vec<DiskId>,
}

/// One row for each disk.
pub open spec fn rows(s: Seq<DiskFigures>) -> Seq<
    (DiskId, DiskState, MediaType, StorageTier, u64, u64),
> {
    s.map_values(
        |d: DiskFigures| (d.id, d.state, d.media_type, d.tier, d.capacity_bytes, d.used_bytes),
    )
}

/// The number, or the greatest that there is.
pub open spec fn clipped(n: nat) -> u64 {
    if n <= u64::MAX {
        n as u64
    } else {
        u64::MAX
    }
}

/// The bytes that the first `k` disks have.
pub open spec fn capacity_sum(s: Seq<DiskFigures>, k: int) -> nat
    decreases k,
{
    if k <= 0 {
        0
    } else {
        capacity_sum(s, k - 1) + s[k - 1].capacity_bytes as nat
    }
}

/// The bytes that are in use on the first `k` disks.
pub open spec fn used_sum(s: Seq<DiskFigures>, k: int) -> nat
    decreases k,
{
    if k <= 0 {
        0
    } else {
        used_sum(s, k - 1) + s[k - 1].used_bytes as nat
    }
}

/// The disk is of the tier.
pub open spec fn in_tier(t: StorageTier) -> spec_fn(DiskFigures) -> bool {
    |d: DiskFigures| d.tier == t
}

/// The figures of a tier.
pub open spec fn tier_figures(s: Seq<DiskFigures>, t: StorageTier) -> TierBreakdown {
    let own = s.filter(in_tier(t));
    TierBreakdown {
        disk_count: own.len() as u32,
        capacity_bytes: clipped(capacity_sum(own, own.len() as int)),
        used_bytes: clipped(used_sum(own, own.len() as int)),
    }
}

/// The disk is out of order.
pub open spec fn is_faulted() -> spec_fn(DiskFigures) -> bool {
    |d: DiskFigures| d.state == DiskState::Faulted
}

/// The status has the figures of these disks.
pub open spec fn sums_up(status: PoolStatus, s: Seq<DiskFigures>) -> bool {
    &&& status.disks@ == rows(s)
    &&& status.disk_count == s.len()
    &&& status.total_capacity == clipped(capacity_sum(s, s.len() as int))
    &&& status.total_used == clipped(used_sum(s, s.len() as int))
    &&& status.faulted_disks@ == s.filter(is_faulted()).map_values(|d: DiskFigures| d.id)
    &&& status.by_tier.wf()
    &&& forall|t: StorageTier| #[trigger]
        status.by_tier@.contains_key(t) == (s.filter(in_tier(t)).len() > 0)
    &&& forall|t: StorageTier| #[trigger]
        status.by_tier@.contains_key(t) ==> status.by_tier@[t] == tier_figures(s, t)
}

fn plus(a: u64, b: u64) -> (r: u64)
    ensures
        r == clipped(a as nat + b as nat),
{
    if b > u64::MAX - a {
        u64::MAX
    } else {
        a + b
    }
}

/// Clipping a sum and adding on.
proof fn lemma_clipped(n: nat, b: u64)
    ensures
        clipped(clipped(n) as nat + b as nat) == clipped(n + b as nat),
{
}

pub(crate) proof fn lemma_sums_push(s: Seq<DiskFigures>, d: DiskFigures, k: int)
    requires
        0 <= k <= s.len(),
    ensures
        capacity_sum(s.push(d), k) == capacity_sum(s, k),
        used_sum(s.push(d), k) == used_sum(s, k),
    decreases k,
{
    if k > 0 {
        lemma_sums_push(s, d, k - 1);
    }
}

/// The figures of a tier with one disk more.
pub(crate) proof fn lemma_tier_push(s: Seq<DiskFigures>, d: DiskFigures, t: StorageTier)
    requires
        s.len() < u32::MAX,
    ensures
        d.tier != t ==> s.push(d).filter(in_tier(t)) == s.filter(in_tier(t)),
        d.tier == t ==> {
            let old_figures = tier_figures(s, t);
            let new_figures = tier_figures(s.push(d), t);
            &&& s.push(d).filter(in_tier(t)) == s.filter(in_tier(t)).push(d)
            &&& new_figures.disk_count == old_figures.disk_count + 1
            &&& new_figures.capacity_bytes == clipped(
                old_figures.capacity_bytes as nat + d.capacity_bytes as nat,
            )
            &&& new_figures.used_bytes == clipped(
                old_figures.used_bytes as nat + d.used_bytes as nat,
            )
        },
{
    reveal(Seq::filter);
    let own = s.filter(in_tier(t));
    s.lemma_filter_len(in_tier(t));
    assert(s.push(d).drop_last() =~= s);
    if d.tier == t {
        assert(s.push(d).filter(in_tier(t)) =~= own.push(d));
        lemma_sums_push(own, d, own.len() as int);
        lemma_clipped(capacity_sum(own, own.len() as int), d.capacity_bytes);
        lemma_clipped(used_sum(own, own.len() as int), d.used_bytes);
    }
}

/// The status of a pool with these disks.
pub fn summarise(node_id: NodeId, figures: &Vec<DiskFigures>) -> (r: PoolStatus)
    requires
        figures@.len() < u32::MAX,
    ensures
        r.node_id == node_id,
        sums_up(r, figures@),
{
    let ghost s = figures@;
    let mut total_capacity: u64 = 0;
    let mut total_used: u64 = 0;
    let mut by_tier: OrdMap<StorageTier, TierBreakdown> = OrdMap::new();
    let mut faulted: Vec<DiskId> = Vec::new();
    let mut disks: Vec<(DiskId, DiskState, MediaType, StorageTier, u64, u64)> = Vec::new();
    let mut i: usize = 0;
    proof {
        reveal(Seq::filter);
        assert(s.take(0) =~= Seq::empty());
        assert(faulted@ =~= s.take(0).filter(is_faulted()).map_values(|d: DiskFigures| d.id));
    }
    while i < figures.len()
        invariant
            i <= figures@.len(),
            s == figures@,
            s.len() < u32::MAX,
            disks@ =~= rows(s).take(i as int),
            total_capacity == clipped(capacity_sum(s, i as int)),
            total_used == clipped(used_sum(s, i as int)),
            faulted@ == s.take(i as int).filter(is_faulted()).map_values(|d: DiskFigures| d.id),
            by_tier.wf(),
            forall|t: StorageTier| #[trigger]
                by_tier@.contains_key(t) == (s.take(i as int).filter(in_tier(t)).len() > 0),
            forall|t: StorageTier| #[trigger]
                by_tier@.contains_key(t) ==> by_tier@[t] == tier_figures(s.take(i as int), t),
        decreases figures@.len() - i,
    {
        let d = figures[i];
        let ghost before = s.take(i as int);
        let ghost tiers = by_tier@;
        proof {
            lemma_clipped(capacity_sum(s, i as int), d.capacity_bytes);
            lemma_clipped(used_sum(s, i as int), d.used_bytes);
            assert(s.take(i + 1) =~= before.push(d));
            lemma_tier_push(before, d, d.tier);
        }
        total_capacity = plus(total_capacity, d.capacity_bytes);
        total_used = plus(total_used, d.used_bytes);
        let old_figures = match by_tier.get(&d.tier) {
            Some(f) => *f,
            None => TierBreakdown::default(),
        };
        proof {
            if !tiers.contains_key(d.tier) {
                let own = before.filter(in_tier(d.tier));
                assert(own.len() == 0);
                assert(old_figures == tier_figures(before, d.tier));
            }
            before.lemma_filter_len(in_tier(d.tier));
        }
        by_tier.insert(
            d.tier,
            TierBreakdown {
                disk_count: old_figures.disk_count + 1,
                capacity_bytes: plus(old_figures.capacity_bytes, d.capacity_bytes),
                used_bytes: plus(old_figures.used_bytes, d.used_bytes),
            },
        );
        if d.state == DiskState::Faulted {
            faulted.push(d.id);
        }
        disks.push((d.id, d.state, d.media_type, d.tier, d.capacity_bytes, d.used_bytes));
        proof {
            reveal(Seq::filter);
            assert(before.push(d).drop_last() =~= before);
            let bad = before.filter(is_faulted());
            if d.state == DiskState::Faulted {
                assert(before.push(d).filter(is_faulted()) =~= bad.push(d));
                assert(bad.push(d).map_values(|d: DiskFigures| d.id) =~= bad.map_values(
                    |d: DiskFigures| d.id,
                ).push(d.id));
            }
            assert forall|t: StorageTier| #[trigger]
                by_tier@.contains_key(t) == (s.take(i + 1).filter(in_tier(t)).len() > 0) by {
                lemma_tier_push(before, d, t);
                assert(tiers.contains_key(t) == (before.filter(in_tier(t)).len() > 0));
            }
            assert forall|t: StorageTier| #[trigger] by_tier@.contains_key(t) implies by_tier@[t]
                == tier_figures(s.take(i + 1), t) by {
                lemma_tier_push(before, d, t);
                if t != d.tier {
                    assert(tiers.contains_key(t));
                }
            }
        }
        i = i + 1;
    }
    proof {
        assert(s.take(i as int) =~= s);
        assert(disks@ =~= rows(s));
    }
    let disk_count = figures.len() as u32;
    PoolStatus {
        node_id,
        disk_count,
        total_capacity,
        total_used,
        disks,
        by_tier,
        faulted_disks: faulted,
    }
}

/// The bytes that are free on a disk.
pub open spec fn free_bytes(d: DiskFigures) -> int {
    if d.used_bytes >= d.capacity_bytes {
        0
    } else {
        d.capacity_bytes - d.used_bytes
    }
}

/// The disk takes new data of the tier.
pub open spec fn takes_data(d: DiskFigures, tier: StorageTier) -> bool {
    d.state == DiskState::Online && d.tier == tier
}

/// Disk `i` is the first of those with the most free bytes that take new data
/// of the tier.
pub open spec fn is_pick(s: Seq<DiskFigures>, tier: StorageTier, i: int) -> bool {
    &&& 0 <= i < s.len()
    &&& takes_data(s[i], tier)
    &&& forall|j: int|
        0 <= j < s.len() && takes_data(#[trigger] s[j], tier) ==> free_bytes(s[j]) <= free_bytes(
            s[i],
        )
    &&& forall|j: int|
        0 <= j < i && takes_data(#[trigger] s[j], tier) ==> free_bytes(s[j]) < free_bytes(s[i])
}

fn free_of(d: &DiskFigures) -> (r: u64)
    ensures
        r == free_bytes(*d),
{
    if d.used_bytes >= d.capacity_bytes {
        0
    } else {
        d.capacity_bytes - d.used_bytes
    }
}

/// The disk for new data of a tier: the one that is online and has the most
/// free bytes.
pub fn pick(figures: &Vec<DiskFigures>, tier: StorageTier) -> (r: Option<DiskId>)
    ensures
        match r {
            Some(id) => exists|i: int|
                #[trigger] is_pick(figures@, tier, i) && figures@[i].id == id,
            None => forall|i: int|
                0 <= i < figures@.len() ==> !takes_data(#[trigger] figures@[i], tier),
        },
{
    let ghost s = figures@;
    let mut best: Option<usize> = None;
    let mut i: usize = 0;
    while i < figures.len()
        invariant
            i <= figures@.len(),
            s == figures@,
            match best {
                Some(b) => {
                    &&& b < i
                    &&& takes_data(s[b as int], tier)
                    &&& forall|j: int|
                        0 <= j < i && takes_data(#[trigger] s[j], tier) ==> free_bytes(s[j])
                            <= free_bytes(s[b as int])
                    &&& forall|j: int|
                        0 <= j < b && takes_data(#[trigger] s[j], tier) ==> free_bytes(s[j])
                            < free_bytes(s[b as int])
                },
                None => forall|j: int| 0 <= j < i ==> !takes_data(#[trigger] s[j], tier),
            },
        decreases figures@.len() - i,
    {
        if figures[i].state == DiskState::Online && figures[i].tier == tier {
            match best {
                Some(b) => {
                    if free_of(&figures[i]) > free_of(&figures[b]) {
                        best = Some(i);
                    }
                },
                None => {
                    best = Some(i);
                },
            }
        }
        i = i + 1;
    }
    match best {
        Some(b) => {
            proof {
                assert(is_pick(s, tier, b as int));
            }
            Some(figures[b].id)
        },
        None => None,
    }
}

} // verus!
