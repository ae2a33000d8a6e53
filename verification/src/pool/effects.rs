//! What the operations on a pool bring about, in terms of their arguments and
//! results.

use vstd::prelude::*;
use crate::pool::config::{is_primary, new_pool_ok, repeats, DiskConfigEntry, PoolConfig};
use crate::pool::disk::{disk_state_from_u8, disk_state_to_u8, media_type_from_u8,
    media_type_to_u8, path_round_trip, DiskDescriptorOnDisk};
use crate::pool::error::PoolError;
use crate::pool::laws::{matches_entries, new_pool_matches};
use crate::pool::manager::{applied, DiskModel, DiskRuntime, PoolManager};
use crate::pool::root::{root_of, PoolStateRoot};
use crate::pool::status::{is_pick, rows, summarise, takes_data, tier_figures, DiskFigures,
    PoolStatus, TierBreakdown};
use crate::pool::superblock::{format_plan, fs_uuid_for, FormatPlan, Superblock};
use crate::storage::block::{BucketDataType, BLOCK_PREAMBLE_MAGIC_BLOCK};
use crate::storage::crc::crc32c;
use crate::storage::device::BlockDevice;
use crate::types::id::{DiskId, NodeId};
use crate::types::policy::{DiskState, MediaType, StorageTier};

verus! {

/// The disk that is picked is at work, online and of the tier. No other online
/// disk of the tier has more bytes that are not in use; of disks with equally
/// many it has the lowest id. A full disk is picked only where all are full.
pub proof fn picked_disk_has_most_room<D: BlockDevice>(
    p: PoolManager<D>,
    tier: StorageTier,
    data: BucketDataType,
    id: DiskId,
    own: Option<&DiskRuntime<D>>,
    other: DiskId,
    rival: &DiskRuntime<D>,
)
    requires
        p.wf(),
        call_ensures(PoolManager::<D>::pick_disk, (&p, tier, data), Some(id)),
        call_ensures(PoolManager::<D>::runtime, (&p, id), own),
        call_ensures(PoolManager::<D>::runtime, (&p, other), Some(rival)),
        rival.state == DiskState::Online,
        rival.config.tier == tier,
    ensures
        own is Some,
        own->0.state == DiskState::Online,
        own->0.config.tier == tier,
        rival.used_bytes <= rival.config.capacity_bytes && own->0.used_bytes
            <= own->0.config.capacity_bytes ==> own->0.config.capacity_bytes - own->0.used_bytes
            >= rival.config.capacity_bytes - rival.used_bytes,
        rival.used_bytes < rival.config.capacity_bytes ==> own->0.used_bytes
            < own->0.config.capacity_bytes,
        rival.used_bytes <= rival.config.capacity_bytes && own->0.used_bytes
            <= own->0.config.capacity_bytes && own->0.config.capacity_bytes - own->0.used_bytes
            == rival.config.capacity_bytes - rival.used_bytes ==> id <= other,
        own->0.used_bytes >= own->0.config.capacity_bytes ==> id <= other,
{
    let s = p.figure_list();
    let l = p.listing();
    p.lemma_listing();
    let i = choose|i: int| #[trigger] is_pick(s, tier, i) && s[i].id == id;
    assert(s[i].id == l[i].0);
    let j = choose|j: int| 0 <= j < l.len() && (#[trigger] l[j]).0 == other;
    assert(s[j].id == other);
    assert(takes_data(s[j], tier));
    if i != j {
        if i < j {
            assert(l[i].0 < l[j].0);
        } else {
            assert(l[j].0 < l[i].0);
        }
    }
}

/// No disk is picked only where no disk at work is online and of the tier.
pub proof fn a_disk_is_picked_if_there_is_one<D: BlockDevice>(
    p: PoolManager<D>,
    tier: StorageTier,
    data: BucketDataType,
    r: Option<DiskId>,
    other: DiskId,
    rival: &DiskRuntime<D>,
)
    requires
        p.wf(),
        call_ensures(PoolManager::<D>::pick_disk, (&p, tier, data), r),
        call_ensures(PoolManager::<D>::runtime, (&p, other), Some(rival)),
        rival.state == DiskState::Online,
        rival.config.tier == tier,
    ensures
        r is Some,
{
    let s = p.figure_list();
    let l = p.listing();
    p.lemma_listing();
    let j = choose|j: int| 0 <= j < l.len() && (#[trigger] l[j]).0 == other;
    assert(s[j].id == other);
    assert(takes_data(s[j], tier));
}

/// The status has one row for each disk at work, with what the disk says, and
/// no other; the rows are in ascending order of ids.
pub proof fn status_lists_the_disks<D: BlockDevice>(
    p: PoolManager<D>,
    status: PoolStatus,
    id: DiskId,
    own: Option<&DiskRuntime<D>>,
)
    requires
        p.wf(),
        call_ensures(PoolManager::<D>::status, (&p,), status),
        call_ensures(PoolManager::<D>::runtime, (&p, id), own),
    ensures
        status.node_id == p.node(),
        status.disk_count == status.disks@.len(),
        own is Some ==> status.disks@.contains(
            (
                id,
                own->0.state,
                own->0.config.media_type,
                own->0.config.tier,
                own->0.config.capacity_bytes,
                own->0.used_bytes,
            ),
        ),
        own is None ==> forall|i: int|
            0 <= i < status.disks@.len() ==> (#[trigger] status.disks@[i]).0 != id,
        forall|i: int, j: int|
            0 <= i < j < status.disks@.len() ==> (#[trigger] status.disks@[i]).0 < (
            #[trigger] status.disks@[j]).0,
{
    let s = p.figure_list();
    let l = p.listing();
    p.lemma_listing();
    assert forall|i: int| 0 <= i < status.disks@.len() implies (#[trigger] status.disks@[i]).0
        == l[i].0 by {
        assert(status.disks@[i] == rows(s)[i]);
        assert(s[i].id == l[i].0);
    }
    if own is Some {
        let j = choose|j: int| 0 <= j < l.len() && (#[trigger] l[j]).0 == id;
        assert(s[j].id == id);
        assert(rows(s)[j] == status.disks@[j]);
        assert(status.disks@[j].0 == id);
    }
    if own is None {
        assert forall|i: int| 0 <= i < status.disks@.len() implies (#[trigger] status.disks@[i]).0
            != id by {
            assert(p.models().contains_key(l[i].0));
        }
    }
}

/// The least of two numbers.
pub open spec fn at_most(n: int, max: int) -> int {
    if n <= max {
        n
    } else {
        max
    }
}

/// The figures of no disk at all.
pub proof fn no_disks_sum_up_to_nothing(
    node: NodeId,
    figures: Vec<DiskFigures>,
    status: PoolStatus,
)
    requires
        figures@.len() == 0,
        call_ensures(summarise, (node, &figures), status),
    ensures
        status.node_id == node,
        status.disk_count == 0,
        status.total_capacity == 0,
        status.total_used == 0,
        status.disks@.len() == 0,
        status.faulted_disks@.len() == 0,
        forall|t: StorageTier| !#[trigger] status.by_tier@.contains_key(t),
{
    let s = figures@;
    reveal(Seq::filter);
    assert forall|t: StorageTier| !#[trigger] status.by_tier@.contains_key(t) by {
        assert(s.filter(crate::pool::status::in_tier(t)).len() == 0);
    }
}

/// One disk more counts once: in the totals, in the figures of its own tier,
/// and among the faulted disks if it is one. The figures of the other tiers
/// stay. Sums that do not fit stay at the greatest number.
pub proof fn one_disk_more_counts_once(
    node: NodeId,
    figures: Vec<DiskFigures>,
    more: Vec<DiskFigures>,
    d: DiskFigures,
    before: PoolStatus,
    after: PoolStatus,
)
    requires
        figures@.len() < u32::MAX - 1,
        more@ == figures@.push(d),
        call_ensures(summarise, (node, &figures), before),
        call_ensures(summarise, (node, &more), after),
    ensures
        after.node_id == node,
        after.disk_count == before.disk_count + 1,
        after.total_capacity == at_most(
            before.total_capacity + d.capacity_bytes,
            u64::MAX as int,
        ),
        after.total_used == at_most(before.total_used + d.used_bytes, u64::MAX as int),
        after.disks@ == before.disks@.push(
            (d.id, d.state, d.media_type, d.tier, d.capacity_bytes, d.used_bytes),
        ),
        after.faulted_disks@ == if d.state == DiskState::Faulted {
            before.faulted_disks@.push(d.id)
        } else {
            before.faulted_disks@
        },
        after.by_tier@.contains_key(d.tier),
        before.by_tier@.contains_key(d.tier) ==> {
            let b = before.by_tier@[d.tier];
            let a = after.by_tier@[d.tier];
            &&& a.disk_count == b.disk_count + 1
            &&& a.capacity_bytes == at_most(b.capacity_bytes + d.capacity_bytes, u64::MAX as int)
            &&& a.used_bytes == at_most(b.used_bytes + d.used_bytes, u64::MAX as int)
        },
        !before.by_tier@.contains_key(d.tier) ==> after.by_tier@[d.tier] == (TierBreakdown {
            disk_count: 1,
            capacity_bytes: d.capacity_bytes,
            used_bytes: d.used_bytes,
        }),
        forall|t: StorageTier|
            t != d.tier ==> (#[trigger] after.by_tier@.contains_key(t)
                == before.by_tier@.contains_key(t)),
        forall|t: StorageTier|
            t != d.tier && #[trigger] before.by_tier@.contains_key(t) ==> after.by_tier@[t]
                == before.by_tier@[t],
{
    let s = figures@;
    let t = more@;
    let n = s.len() as int;
    crate::pool::status::lemma_sums_push(s, d, n);
    assert(t[n] == d);
    assert(rows(t) =~= rows(s).push(
        (d.id, d.state, d.media_type, d.tier, d.capacity_bytes, d.used_bytes),
    ));
    reveal(Seq::filter);
    assert(t.drop_last() =~= s);
    let bad = s.filter(crate::pool::status::is_faulted());
    if d.state == DiskState::Faulted {
        assert(t.filter(crate::pool::status::is_faulted()) =~= bad.push(d));
        assert(bad.push(d).map_values(|d: DiskFigures| d.id) =~= bad.map_values(
            |d: DiskFigures| d.id,
        ).push(d.id));
    }
    crate::pool::status::lemma_tier_push(s, d, d.tier);
    s.lemma_filter_len(crate::pool::status::in_tier(d.tier));
    if !before.by_tier@.contains_key(d.tier) {
        assert(s.filter(crate::pool::status::in_tier(d.tier)).len() == 0);
        assert(tier_figures(s, d.tier) == (TierBreakdown {
            disk_count: 0,
            capacity_bytes: 0,
            used_bytes: 0,
        }));
    }
    assert(after.by_tier@.contains_key(d.tier));
    assert(after.by_tier@[d.tier] == tier_figures(t, d.tier));
    if before.by_tier@.contains_key(d.tier) {
        assert(before.by_tier@[d.tier] == tier_figures(s, d.tier));
    }
    assert forall|x: StorageTier| x != d.tier implies (#[trigger] after.by_tier@.contains_key(x)
        == before.by_tier@.contains_key(x)) && (before.by_tier@.contains_key(x)
        ==> after.by_tier@[x] == before.by_tier@[x]) by {
        crate::pool::status::lemma_tier_push(s, d, x);
    }
}

/// The status of a pool has the totals of its own rows.
pub proof fn status_sums_up_its_rows<D: BlockDevice>(
    p: PoolManager<D>,
    status: PoolStatus,
    figures: Vec<DiskFigures>,
    sums: PoolStatus,
)
    requires
        p.wf(),
        call_ensures(PoolManager::<D>::status, (&p,), status),
        figures@.len() == status.disks@.len(),
        forall|i: int|
            0 <= i < figures@.len() ==> {
                let d = #[trigger] figures@[i];
                status.disks@[i] == (
                    d.id,
                    d.state,
                    d.media_type,
                    d.tier,
                    d.capacity_bytes,
                    d.used_bytes,
                )
            },
        call_ensures(summarise, (status.node_id, &figures), sums),
    ensures
        status.disk_count == sums.disk_count,
        status.total_capacity == sums.total_capacity,
        status.total_used == sums.total_used,
        status.faulted_disks@ == sums.faulted_disks@,
        status.by_tier@ == sums.by_tier@,
{
    let s = p.figure_list();
    p.lemma_listing();
    assert forall|i: int| 0 <= i < s.len() implies figures@[i] == s[i] by {
        assert(status.disks@[i] == rows(s)[i]);
    }
    assert(figures@ =~= s);
    assert(status.by_tier@ =~= sums.by_tier@);
}

/// A new pool has a disk for each entry of its configuration, and no other:
/// online, nothing in use, with a superblock that names the node and the disk.
pub proof fn new_pool_has_its_disks<D: BlockDevice>(
    config: PoolConfig,
    devices: Vec<D>,
    p: PoolManager<D>,
    id: DiskId,
    own: Option<&DiskRuntime<D>>,
)
    requires
        devices@.len() == config.disks@.len(),
        call_ensures(PoolManager::<D>::create, (config, devices), Ok(p)),
        call_ensures(PoolManager::<D>::runtime, (&p, id), own),
    ensures
        p.wf(),
        own is Some ==> {
            &&& own->0.state == DiskState::Online
            &&& own->0.used_bytes == 0
            &&& own->0.superblock.node_id == config.node_id
            &&& own->0.superblock.disk_id == id
            &&& exists|i: int|
                0 <= i < config.disks@.len() && same_entry(
                    #[trigger] config.disks@[i],
                    own->0.config,
                )
        },
        forall|i: int|
            0 <= i < config.disks@.len() && (#[trigger] config.disks@[i]).id == id ==> own is Some
                && same_entry(config.disks@[i], own->0.config),
{
    let s = config.entries();
    new_pool_matches(config.node_id, s);
    let m = p.models();
    assert(matches_entries(s, m));
    if own is Some {
        let i = choose|i: int| 0 <= i < s.len() && (#[trigger] s[i]).id == id;
        assert(m[s[i].id].config == s[i]);
        crate::pool::laws::lemma_new_disk(config.node_id, s, i);
        assert(same_entry(config.disks@[i], own->0.config));
    }
    assert forall|i: int|
        0 <= i < config.disks@.len() && (#[trigger] config.disks@[i]).id == id implies own is Some
        && same_entry(config.disks@[i], own->0.config) by {
        assert(s[i].id == id);
    }
}

/// The two entries say the same.
pub open spec fn same_entry(a: DiskConfigEntry, b: DiskConfigEntry) -> bool {
    &&& a.id == b.id
    &&& a.path@ == b.path@
    &&& a.media_type == b.media_type
    &&& a.tier == b.tier
    &&& a.capacity_bytes == b.capacity_bytes
}

/// A pool is made only of one to twelve disks with different ids; what is
/// refused is refused for one of these reasons, or because it cannot be saved.
pub proof fn new_pool_needs_different_disks<D: BlockDevice>(
    config: PoolConfig,
    devices: Vec<D>,
    r: Result<PoolManager<D>, PoolError>,
)
    requires
        devices@.len() == config.disks@.len(),
        call_ensures(PoolManager::<D>::create, (config, devices), r),
    ensures
        config.disks@.len() == 0 ==> r is Err && r->Err_0 == PoolError::EmptyPool,
        config.disks@.len() > 12 ==> r is Err && r->Err_0 is DiskOverflowUnsupported,
        (exists|i: int, j: int|
            0 <= i < j < config.disks@.len() && (#[trigger] config.disks@[i]).id == (
            #[trigger] config.disks@[j]).id) ==> r is Err,
        r is Err && r->Err_0 is DuplicateDiskId ==> exists|i: int, j: int|
            {
                &&& 0 <= i < j < config.disks@.len()
                &&& (#[trigger] config.disks@[i]).id == r->Err_0->DuplicateDiskId_0
                &&& (#[trigger] config.disks@[j]).id == r->Err_0->DuplicateDiskId_0
            },
{
    let s = config.entries();
    if exists|i: int, j: int|
        0 <= i < j < config.disks@.len() && (#[trigger] config.disks@[i]).id == (
        #[trigger] config.disks@[j]).id {
        let (i, j) = choose|i: int, j: int|
            0 <= i < j < config.disks@.len() && (#[trigger] config.disks@[i]).id == (
            #[trigger] config.disks@[j]).id;
        assert(s[i].id == s[j].id);
        assert(repeats(s, j));
        assert(!new_pool_ok(s));
    }
    if r is Err && r->Err_0 is DuplicateDiskId {
        let k = choose|k: int|
            #[trigger] crate::pool::config::first_repeat(s, k) && r->Err_0
                == PoolError::DuplicateDiskId(s[k].id);
        let j = choose|j: int| 0 <= j < k && (#[trigger] s[j]).id == s[k].id;
        assert(config.disks@[j].id == s[j].id && config.disks@[k].id == s[k].id);
    }
}

/// Taking a disk in gives the pool a fresh online disk under the id of the
/// entry, and leaves all other disks as they are. An id that is in use is
/// refused, and the pool stays as it is.
pub proof fn added_disk_is_there<D: BlockDevice>(
    p: &mut PoolManager<D>,
    entry: DiskConfigEntry,
    device: D,
    r: Result<DiskId, PoolError>,
    id: DiskId,
    before: Option<&DiskRuntime<D>>,
    after: Option<&DiskRuntime<D>>,
)
    requires
        old(p).wf(),
        call_ensures(PoolManager::<D>::add_disk, (p, entry, device), r),
        call_ensures(PoolManager::<D>::runtime, (&*old(p), id), before),
        call_ensures(PoolManager::<D>::runtime, (&*final(p), id), after),
    ensures
        final(p).wf(),
        r is Ok ==> r->Ok_0 == entry.id,
        id == entry.id && r is Ok ==> {
            &&& before is None
            &&& after is Some
            &&& after->0.state == DiskState::Online
            &&& after->0.used_bytes == 0
            &&& same_entry(entry, after->0.config)
            &&& after->0.superblock.disk_id == entry.id
            &&& after->0.superblock.node_id == old(p).node()
        },
        id == entry.id && before is Some ==> r == Err::<DiskId, PoolError>(
            PoolError::DuplicateDiskId(id),
        ) && *final(p) == *old(p),
        id != entry.id ==> (before is Some <==> after is Some),
        id != entry.id && before is Some ==> same_disk(*before->0, *after->0),
{
}

/// The two are the same but for their devices.
pub open spec fn same_disk<D: BlockDevice>(a: DiskRuntime<D>, b: DiskRuntime<D>) -> bool {
    &&& same_entry(a.config, b.config)
    &&& a.state == b.state
    &&& a.used_bytes == b.used_bytes
    &&& a.superblock.node_id == b.superblock.node_id
    &&& a.superblock.disk_id == b.superblock.disk_id
}

/// A disk that is taken out drains and keeps all else; the other disks stay as
/// they are. An id that is not in use is refused.
pub proof fn removed_disk_drains<D: BlockDevice>(
    p: &mut PoolManager<D>,
    gone: DiskId,
    r: Result<(), PoolError>,
    id: DiskId,
    before: Option<&DiskRuntime<D>>,
    after: Option<&DiskRuntime<D>>,
)
    requires
        old(p).wf(),
        call_ensures(PoolManager::<D>::remove_disk, (p, gone), r),
        call_ensures(PoolManager::<D>::runtime, (&*old(p), id), before),
        call_ensures(PoolManager::<D>::runtime, (&*final(p), id), after),
    ensures
        final(p).wf(),
        before is Some <==> after is Some,
        id == gone && before is None ==> r == Err::<(), PoolError>(PoolError::DiskNotFound(gone)),
        id == gone && before is Some ==> {
            &&& after->0.state == DiskState::Draining
            &&& after->0.used_bytes == before->0.used_bytes
            &&& same_entry(before->0.config, after->0.config)
        },
        id != gone && before is Some ==> same_disk(*before->0, *after->0),
{
}

/// A disk that drains is not picked for new data, and neither is one that is
/// removed or faulted.
pub proof fn only_online_disks_are_picked<D: BlockDevice>(
    p: PoolManager<D>,
    tier: StorageTier,
    data: BucketDataType,
    id: DiskId,
    own: &DiskRuntime<D>,
)
    requires
        p.wf(),
        own.state != DiskState::Online || own.config.tier != tier,
        call_ensures(PoolManager::<D>::runtime, (&p, id), Some(own)),
    ensures
        !call_ensures(PoolManager::<D>::pick_disk, (&p, tier, data), Some(id)),
{
    if call_ensures(PoolManager::<D>::pick_disk, (&p, tier, data), Some(id)) {
        let s = p.figure_list();
        let l = p.listing();
        p.lemma_listing();
        let i = choose|i: int| #[trigger] is_pick(s, tier, i) && s[i].id == id;
        assert(s[i].id == l[i].0);
    }
}

/// A disk that the root block describes once gets its state and use from
/// there; one that it does not describe stays as it is. All else stays.
pub proof fn root_sets_states_and_use<D: BlockDevice>(
    p: &mut PoolManager<D>,
    root: PoolStateRoot,
    listed: Vec<DiskDescriptorOnDisk>,
    id: DiskId,
    k: int,
    state: Result<DiskState, PoolError>,
    before: Option<&DiskRuntime<D>>,
    after: Option<&DiskRuntime<D>>,
)
    requires
        old(p).wf(),
        call_ensures(PoolManager::<D>::apply_pool_state_root, (p, &root), Ok(())),
        call_ensures(PoolStateRoot::inline_iter, (&root,), listed),
        call_ensures(PoolManager::<D>::runtime, (&*old(p), id), before),
        call_ensures(PoolManager::<D>::runtime, (&*final(p), id), after),
        0 <= k < listed@.len() ==> call_ensures(
            disk_state_from_u8,
            (listed@[k].state,),
            state,
        ),
        forall|j: int| 0 <= j < listed@.len() && j != k ==> (#[trigger] listed@[j]).disk_id != id,
    ensures
        before is Some <==> after is Some,
        before is Some ==> same_entry(before->0.config, after->0.config),
        before is Some && 0 <= k < listed@.len() && listed@[k].disk_id == id ==> {
            &&& state is Ok
            &&& after->0.state == state->Ok_0
            &&& after->0.used_bytes == listed@[k].used_bytes
        },
        before is Some && !(0 <= k < listed@.len() && listed@[k].disk_id == id)
            ==> after->0.state == before->0.state && after->0.used_bytes == before->0.used_bytes,
{
    let m = old(p).models();
    let ds = root.disks();
    assert forall|j: int| 0 <= j < ds.len() && j != k implies (#[trigger] ds[j]).disk_id != id by {
        assert(listed@[j] == ds[j]);
    }
    lemma_applied_one(m, ds, ds.len() as int, id, k);
    if 0 <= k < ds.len() {
        assert(crate::pool::disk::state_of(ds[k].state) is Ok);
    }
}

proof fn lemma_applied_one(
    m: Map<DiskId, DiskModel>,
    ds: Seq<DiskDescriptorOnDisk>,
    n: int,
    id: DiskId,
    k: int,
)
    requires
        0 <= n <= ds.len(),
        forall|j: int| 0 <= j < ds.len() && j != k ==> (#[trigger] ds[j]).disk_id != id,
        forall|j: int|
            0 <= j < ds.len() ==> crate::pool::disk::state_of((#[trigger] ds[j]).state) is Ok,
    ensures
        applied(m, ds, n).contains_key(id) == m.contains_key(id),
        m.contains_key(id) ==> applied(m, ds, n)[id] == if 0 <= k < n && ds[k].disk_id == id {
            DiskModel {
                state: crate::pool::disk::state_of(ds[k].state)->Ok_0,
                used_bytes: ds[k].used_bytes,
                ..m[id]
            }
        } else {
            m[id]
        },
    decreases n,
{
    if n > 0 {
        lemma_applied_one(m, ds, n - 1, id, k);
    }
}

/// Every state is read from the number that it is written as, and no other
/// number is one of a state; the same holds of media and tiers.
pub proof fn codes_are_read_back(
    state: DiskState,
    media: MediaType,
    tier: StorageTier,
    a: u8,
    b: u8,
    c: u8,
    states: Result<DiskState, PoolError>,
    medium: Result<MediaType, PoolError>,
    tiers: Option<StorageTier>,
)
    requires
        call_ensures(disk_state_to_u8, (state,), a),
        call_ensures(media_type_to_u8, (media,), b),
        call_ensures(StorageTier::to_u8, (&tier,), c),
        call_ensures(disk_state_from_u8, (a,), states),
        call_ensures(media_type_from_u8, (b,), medium),
        call_ensures(StorageTier::from_u8, (c,), tiers),
    ensures
        states == Ok::<DiskState, PoolError>(state),
        medium == Ok::<MediaType, PoolError>(media),
        tiers == Some(tier),
        a <= 3,
        b <= 4,
        c <= 3,
        state == DiskState::Online ==> a == 0,
        tier == StorageTier::Hot ==> c == 0,
        tier == StorageTier::Glacier ==> c == 3,
{
}

/// A descriptor gives back what it was made from.
pub proof fn descriptor_keeps_what_it_was_made_from(
    id: DiskId,
    media: MediaType,
    tier: StorageTier,
    state: DiskState,
    capacity: u64,
    path: &str,
    d: DiskDescriptorOnDisk,
    states: Result<DiskState, PoolError>,
    medium: Result<MediaType, PoolError>,
    tiers: Option<StorageTier>,
    text: Result<String, PoolError>,
)
    requires
        call_ensures(
            DiskDescriptorOnDisk::new,
            (id, media, tier, state, capacity, path),
            Ok(d),
        ),
        call_ensures(disk_state_from_u8, (d.state,), states),
        call_ensures(media_type_from_u8, (d.media_type,), medium),
        call_ensures(StorageTier::from_u8, (d.tier,), tiers),
        call_ensures(DiskDescriptorOnDisk::path_str, (&d,), text),
    ensures
        d.disk_id == id,
        d.capacity_bytes == capacity,
        d.used_bytes == 0,
        states == Ok::<DiskState, PoolError>(state),
        medium == Ok::<MediaType, PoolError>(media),
        tiers == Some(tier),
        text is Ok,
        text->Ok_0@ == path@,
{
    path_round_trip(d, id, media, tier, state, capacity, 0, path@);
}

/// The primary disk is one of the configured disks, and none has a lower id.
pub proof fn primary_has_the_lowest_id(
    config: PoolConfig,
    r: Option<&DiskConfigEntry>,
    i: int,
)
    requires
        call_ensures(PoolConfig::primary, (&config,), r),
        0 <= i < config.disks@.len(),
    ensures
        r is Some,
        r->0.id <= config.disks@[i].id,
        config.disks@.contains(*r->0),
{
    let s = config.entries();
    let k = choose|k: int| #[trigger] is_primary(s, k) && *r->0 == config.disks@[k];
    assert(s[k].id <= s[i].id);
    assert(config.disks@[k] == *r->0);
}

/// A superblock made for a disk is known as that disk's and no other's.
pub proof fn superblock_names_its_disk(
    node: NodeId,
    entry: DiskConfigEntry,
    b: Superblock,
    other_node: NodeId,
    other_disk: DiskId,
    r: Result<(), PoolError>,
)
    requires
        call_ensures(Superblock::for_disk, (node, &entry), b),
        call_ensures(Superblock::check_identity, (&b, other_node, other_disk), r),
    ensures
        b.media_type == entry.media_type,
        b.tier == entry.tier,
        r is Ok <==> (other_node == node && other_disk == entry.id),
        other_node != node ==> r->Err_0 is NodeIdMismatch,
        other_node == node && other_disk != entry.id ==> r->Err_0 is DiskIdMismatch,
{
}

/// Disks of different nodes, or different disks of a node, have different
/// file system ids.
pub proof fn file_system_ids_differ(
    node: NodeId,
    disk: DiskId,
    other_node: NodeId,
    other_disk: DiskId,
    a: [u8; 16],
    b: [u8; 16],
)
    requires
        call_ensures(fs_uuid_for, (node, disk), a),
        call_ensures(fs_uuid_for, (other_node, other_disk), b),
        node != other_node || disk != other_disk,
    ensures
        a@ != b@,
{
    broadcast use crate::bytes::lemma_le_len;

    if a@ == b@ {
        assert(a@.subrange(0, 2) =~= crate::bytes::le(node as nat, 2));
        assert(b@.subrange(0, 2) =~= crate::bytes::le(other_node as nat, 2));
        assert(a@.subrange(2, 4) =~= crate::bytes::le(disk as nat, 2));
        assert(b@.subrange(2, 4) =~= crate::bytes::le(other_disk as nat, 2));
        crate::bytes::lemma_pow256_values();
        crate::bytes::lemma_le_value_of_le(node as nat, 2);
        crate::bytes::lemma_le_value_of_le(other_node as nat, 2);
        crate::bytes::lemma_le_value_of_le(disk as nat, 2);
        crate::bytes::lemma_le_value_of_le(other_disk as nat, 2);
    }
}

/// The state of a pool is read only where the bytes are whole: they begin as a
/// block of that kind does, and their checksum is right. Then it is the state
/// that the bytes hold.
pub proof fn only_a_whole_root_is_read<D: BlockDevice>(
    device: D,
    offset: u64,
    root: PoolStateRoot,
    r: Result<PoolStateRoot, PoolError>,
)
    requires
        call_ensures(PoolStateRoot::read::<D>, (&device, offset), r),
        offset + 4096 <= device.contents().len(),
        root.image() == device.contents().subrange(offset as int, offset + 4096),
    ensures
        r is Ok ==> {
            &&& r->Ok_0 == root
            &&& root.header.pre.magic@ == seq![77u8, 73, 77, 82]
            &&& root.header.pre.kind == 5
            &&& root.crc == crc32c(root.image().subrange(0, 4092))
        },
{
    let bytes = device.contents().subrange(offset as int, offset + 4096);
    let x = root_of(bytes);
    assert(x.image() == bytes);
    PoolStateRoot::image_injective(x, root);
    assert(BLOCK_PREAMBLE_MAGIC_BLOCK@ =~= seq![77u8, 73, 77, 82]);
}

/// The zones of a disk follow each other: 64 KiB in front, then 1 MiB for the
/// log, 4 MiB for the indexes, 4 MiB for the metadata, and all the rest for
/// content.
pub proof fn zones_fill_the_disk(capacity: u64, plan: FormatPlan)
    requires
        call_ensures(format_plan, (capacity,), plan),
    ensures
        plan.wal.offset == 0x1_0000,
        plan.wal.length == 0x10_0000,
        plan.index_zone.offset == plan.wal.offset + plan.wal.length,
        plan.index_zone.length == 0x40_0000,
        plan.metadata_zone.offset == plan.index_zone.offset + plan.index_zone.length,
        plan.metadata_zone.length == 0x40_0000,
        plan.blob_zone.offset == plan.metadata_zone.offset + plan.metadata_zone.length,
        capacity >= plan.blob_zone.offset ==> plan.blob_zone.offset + plan.blob_zone.length
            == capacity,
        capacity < plan.blob_zone.offset ==> plan.blob_zone.length == 0,
{
}

} // verus!
