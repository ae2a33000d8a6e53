//! A pool at work: its disks, their states, and its root block.

use vstd::prelude::*;
use vstd::utf8::encode_utf8;
use crate::bytes::zeros;
use crate::ordmap::{lemma_items_map, OrdMap};
use crate::pool::config::{is_primary, new_pool_fault, new_pool_ok, DiskConfigEntry, EntryModel,
    PoolConfig};
use crate::pool::disk::{describes, is_blank, state_of, DiskDescriptorOnDisk};
use crate::pool::error::PoolError;
use crate::pool::placement::{rule_list, PlacementRule, RuleModel};
use crate::pool::root::{root_header_fault, root_read, PoolStateRoot,
    POOL_STATE_ROOT_FORMAT_VERSION};
use crate::pool::superblock::{first_stranger, format_all, formatted, formatted_list, identity_fault,
    superblock_list, Superblock, SuperblockModel};
use crate::pool::status::{is_pick, pick, summarise, sums_up, takes_data, DiskFigures, PoolStatus};
use crate::storage::block::BucketDataType;
use crate::storage::device::{overwritten, BlockDevice};
use crate::types::id::{DiskId, NodeId};
use crate::types::policy::{DiskState, StorageTier};

verus! {

/// Where the root block stands on the primary disk.
pub const POOL_STATE_ROOT_OFFSET: u64 = 16384;

/// One disk at work.
#[derive(Debug)]
pub struct DiskRuntime<D: BlockDevice> {
    pub config: DiskConfigEntry,
    pub state: DiskState,
    pub used_bytes: u64,
    pub device: D,
    /// The superblock as of the opening or formatting of the disk.
    pub superblock: Superblock,
}

/// The mathematical content of a [`DiskRuntime`], without its device.
pub ghost struct DiskModel {
    pub config: EntryModel,
    pub state: DiskState,
    pub used_bytes: u64,
    pub superblock: SuperblockModel,
}

impl<D: BlockDevice> DiskRuntime<D> {
    pub open spec fn model(&self) -> DiskModel {
        DiskModel {
            config: self.config@,
            state: self.state,
            used_bytes: self.used_bytes,
            superblock: self.superblock@,
        }
    }
}

/// A disk that was just taken into a pool.
pub open spec fn fresh_disk(e: EntryModel, b: SuperblockModel) -> DiskModel {
    DiskModel { config: e, state: DiskState::Online, used_bytes: 0, superblock: b }
}

/// The disks of the first `k` entries, just taken in. Of two entries for an
/// id the later counts.
pub open spec fn fresh_disks(s: Seq<EntryModel>, bs: Seq<SuperblockModel>, k: int) -> Map<
    DiskId,
    DiskModel,
>
    decreases k,
{
    if k <= 0 {
        Map::empty()
    } else {
        fresh_disks(s, bs, k - 1).insert(s[k - 1].id, fresh_disk(s[k - 1], bs[k - 1]))
    }
}

/// The figures of a disk.
pub open spec fn figures_of(id: DiskId, m: DiskModel) -> DiskFigures {
    DiskFigures {
        id,
        state: m.state,
        media_type: m.config.media_type,
        tier: m.config.tier,
        capacity_bytes: m.config.capacity_bytes,
        used_bytes: m.used_bytes,
    }
}

/// The descriptor in the root block is that of the disk.
pub open spec fn described(d: DiskDescriptorOnDisk, m: DiskModel) -> bool {
    describes(
        d,
        m.config.id,
        m.config.media_type,
        m.config.tier,
        m.state,
        m.config.capacity_bytes,
        m.used_bytes,
        m.config.path,
    )
}

/// The root block, its checksum not set, of a pool with these disks.
pub open spec fn root_describes(b: PoolStateRoot, s: Seq<(DiskId, DiskModel)>) -> bool {
    &&& root_header_fault(b) is None
    &&& b.header.pre.format_version == POOL_STATE_ROOT_FORMAT_VERSION
    &&& b.header.payload_len == 4060
    &&& b.header.reserved@ == zeros(20)
    &&& b.cluster_node_count == 1
    &&& b.disk_count == s.len()
    &&& s.len() <= 12
    &&& forall|i: int|
        0 <= i < s.len() ==> described(#[trigger] b.inline_disks@[i], s[i].1)
    &&& forall|i: int| s.len() <= i < 12 ==> is_blank(#[trigger] b.inline_disks@[i])
    &&& b._reserved@ == zeros(980)
    &&& b.crc == 0
}

/// The path of a disk is too long for its descriptor.
pub open spec fn path_too_long(m: DiskModel) -> bool {
    encode_utf8(m.config.path).len() > 192
}

/// Why no root block can be made, if none can: there are no disks, the first
/// path that is too long, or too many disks.
pub open spec fn root_refused(
    entries: Seq<EntryModel>,
    s: Seq<(DiskId, DiskModel)>,
    e: PoolError,
) -> bool {
    if entries.len() == 0 {
        e == PoolError::EmptyPool
    } else if exists|i: int| 0 <= i < s.len() && path_too_long((#[trigger] s[i]).1) {
        exists|i: int|
            {
                &&& #[trigger] first_long_path(s, i)
                &&& e == (PoolError::DiskPathTooLong {
                    len: encode_utf8(s[i].1.config.path).len() as usize,
                    max: 192,
                })
            }
    } else {
        &&& s.len() > 12
        &&& e == (PoolError::DiskOverflowUnsupported {
            count: (s.len() % 0x1_0000_0000) as u32,
            max: 12,
        })
    }
}

/// Disk `i` is the first whose path is too long.
pub open spec fn first_long_path(s: Seq<(DiskId, DiskModel)>, i: int) -> bool {
    &&& 0 <= i < s.len()
    &&& path_too_long(s[i].1)
    &&& forall|j: int| 0 <= j < i ==> !path_too_long((#[trigger] s[j]).1)
}

/// A root block can be made.
pub open spec fn root_possible(entries: Seq<EntryModel>, s: Seq<(DiskId, DiskModel)>) -> bool {
    &&& entries.len() > 0
    &&& s.len() <= 12
    &&& forall|i: int| 0 <= i < s.len() ==> !path_too_long((#[trigger] s[i]).1)
}

/// Why saving a pool fails: no root block can be made, the primary disk is
/// not there, or its device fails.
pub open spec fn save_fails<D: BlockDevice>(
    entries: Seq<EntryModel>,
    s: Seq<(DiskId, DiskModel)>,
    devices: Map<DiskId, D>,
    e: PoolError,
) -> bool {
    ||| root_refused(entries, s, e)
    ||| root_possible(entries, s) && exists|i: int|
        #[trigger] is_primary(entries, i) && if devices.contains_key(entries[i].id) {
            e is Storage && (devices[entries[i].id].reliable()
                ==> devices[entries[i].id].contents().len() < 20480)
        } else {
            e == PoolError::DiskNotFound(entries[i].id)
        }
}

/// The root block of a pool with these disks went to the medium of its primary
/// disk, and nothing else was written.
pub open spec fn root_saved<D: BlockDevice>(
    entries: Seq<EntryModel>,
    s: Seq<(DiskId, DiskModel)>,
    before: Map<DiskId, D>,
    after: Map<DiskId, D>,
) -> bool {
    exists|i: int, b: PoolStateRoot|
        {
            let id = entries[i].id;
            &&& #[trigger] is_primary(entries, i)
            &&& #[trigger] root_describes(b, s)
            &&& before.contains_key(id)
            &&& after == before.insert(id, after[id])
            &&& after[id].contents() == overwritten(
                before[id].contents(),
                16384,
                b.sealed().image(),
            )
            &&& after[id].durable() == after[id].contents()
        }
}

/// The root block was not saved: a device that is reliable holds what it held.
pub open spec fn root_unsaved<D: BlockDevice>(
    before: Map<DiskId, D>,
    after: Map<DiskId, D>,
) -> bool {
    &&& after.dom() == before.dom()
    &&& forall|id: DiskId| #[trigger]
        before.contains_key(id) && before[id].reliable() ==> after[id].contents()
            == before[id].contents()
}

/// The devices of the first `k` entries. Of two entries for an id the later
/// counts.
pub open spec fn given_devices<D>(s: Seq<EntryModel>, devices: Seq<D>, k: int) -> Map<DiskId, D>
    decreases k,
{
    if k <= 0 {
        Map::empty()
    } else {
        given_devices(s, devices, k - 1).insert(s[k - 1].id, devices[k - 1])
    }
}

/// `s` lists the disks in ascending order of ids.
pub open spec fn lists(s: Seq<(DiskId, DiskModel)>, m: Map<DiskId, DiskModel>) -> bool {
    &&& forall|i: int, j: int|
        0 <= i < j < s.len() ==> (#[trigger] s[i]).0 < (#[trigger] s[j]).0
    &&& forall|i: int|
        0 <= i < s.len() ==> m.contains_key((#[trigger] s[i]).0) && m[s[i].0] == s[i].1
    &&& forall|id: DiskId| #[trigger]
        m.contains_key(id) ==> exists|i: int| 0 <= i < s.len() && (#[trigger] s[i]).0 == id
}

/// The disks after the first `k` descriptors were applied.
pub open spec fn applied(
    m: Map<DiskId, DiskModel>,
    ds: Seq<DiskDescriptorOnDisk>,
    k: int,
) -> Map<DiskId, DiskModel>
    decreases k,
{
    if k <= 0 {
        m
    } else {
        let before = applied(m, ds, k - 1);
        let d = ds[k - 1];
        if before.contains_key(d.disk_id) && state_of(d.state) is Ok {
            before.insert(
                d.disk_id,
                DiskModel {
                    state: state_of(d.state)->Ok_0,
                    used_bytes: d.used_bytes,
                    ..before[d.disk_id]
                },
            )
        } else {
            before
        }
    }
}

/// Descriptor `k` is the first whose state is not known.
pub open spec fn first_bad_state(ds: Seq<DiskDescriptorOnDisk>, k: int) -> bool {
    &&& 0 <= k < ds.len()
    &&& state_of(ds[k].state) is Err
    &&& forall|j: int| 0 <= j < k ==> state_of((#[trigger] ds[j]).state) is Ok
}

/// A pool at work.
#[derive(Debug)]
pub struct PoolManager<D: BlockDevice> {
    config: PoolConfig,
    disks: OrdMap<DiskId, DiskRuntime<D>>,
    placement_rules: Vec<PlacementRule>,
}

impl<D: BlockDevice> PoolManager<D> {
    pub closed spec fn wf(&self) -> bool {
        self.disks.wf()
    }

    /// The node.
    pub closed spec fn node(&self) -> NodeId {
        self.config.node_id
    }

    /// The configured disks.
    pub closed spec fn entries(&self) -> Seq<EntryModel> {
        self.config.entries()
    }

    /// The disks at work.
    pub closed spec fn models(&self) -> Map<DiskId, DiskModel> {
        self.disks@.map_values(|r: DiskRuntime<D>| r.model())
    }

    /// The devices of the disks.
    pub closed spec fn devices(&self) -> Map<DiskId, D> {
        self.disks@.map_values(|r: DiskRuntime<D>| r.device)
    }

    /// The disks at work in ascending order of ids.
    pub closed spec fn listing(&self) -> Seq<(DiskId, DiskModel)> {
        self.disks.items().map_values(|e: (DiskId, DiskRuntime<D>)| (e.0, e.1.model()))
    }

    /// The placement rules.
    pub closed spec fn rules(&self) -> Seq<RuleModel> {
        rule_list(self.placement_rules@)
    }

    /// The listing is that of the disks.
    pub proof fn lemma_listing(&self)
        requires
            self.wf(),
        ensures
            forall|i: int, j: int|
                0 <= i < j < self.listing().len() ==> (#[trigger] self.listing()[i]).0 < (
                #[trigger] self.listing()[j]).0,
            forall|i: int|
                0 <= i < self.listing().len() ==> self.models().contains_key(
                    (#[trigger] self.listing()[i]).0,
                ) && self.models()[self.listing()[i].0] == self.listing()[i].1,
            forall|id: DiskId| #[trigger]
                self.models().contains_key(id) ==> exists|i: int|
                    0 <= i < self.listing().len() && (#[trigger] self.listing()[i]).0 == id,
            self.models().len() == self.listing().len(),
            self.models().dom() == self.devices().dom(),
            self.listing().len() <= 0x1_0000,
    {
        let items = self.disks.items();
        let s = self.listing();
        lemma_items_map::<DiskId, DiskRuntime<D>>(items);
        assert(self.models().dom() =~= self.disks@.dom());
        assert(self.devices().dom() =~= self.disks@.dom());
        assert forall|i: int, j: int| 0 <= i < j < s.len() implies (#[trigger] s[i]).0 < (
        #[trigger] s[j]).0 by {
            assert(<u16 as crate::ordmap::Key>::precedes(items[i].0, items[j].0));
        }
        assert forall|i: int| 0 <= i < s.len() implies self.models().contains_key(
            (#[trigger] s[i]).0,
        ) && self.models()[s[i].0] == s[i].1 by {
            assert(self.disks@.contains_key(items[i].0));
        }
        assert forall|id: DiskId| #[trigger] self.models().contains_key(id) implies exists|i: int|
            0 <= i < s.len() && (#[trigger] s[i]).0 == id by {
            assert(self.disks@.contains_key(id));
            let i = choose|i: int| 0 <= i < items.len() && #[trigger] items[i].0 == id;
            assert(s[i].0 == id);
        }
        if s.len() > 0 {
            lemma_ascending(s, s.len() - 1);
        }
    }

    /// The runtime of each disk of a configuration.
    fn take_in(config: &PoolConfig, devices: Vec<D>, superblocks: &Vec<Superblock>) -> (r: OrdMap<
        DiskId,
        DiskRuntime<D>,
    >)
        requires
            devices@.len() == config.disks@.len(),
            superblocks@.len() == config.disks@.len(),
        ensures
            r.wf(),
            r@.map_values(|x: DiskRuntime<D>| x.model()) == fresh_disks(
                config.entries(),
                superblock_list(superblocks@),
                config.disks@.len() as int,
            ),
            r@.map_values(|x: DiskRuntime<D>| x.device) == given_devices(
                config.entries(),
                devices@,
                config.disks@.len() as int,
            ),
    {
        let ghost s = config.entries();
        let ghost all = devices@;
        let ghost bs = superblock_list(superblocks@);
        let mut disks: OrdMap<DiskId, DiskRuntime<D>> = OrdMap::new();
        let mut rest = devices;
        let mut i: usize = 0;
        proof {
            assert(disks@.map_values(|x: DiskRuntime<D>| x.model()) =~= Map::empty());
            assert(disks@.map_values(|x: DiskRuntime<D>| x.device) =~= Map::empty());
            assert(rest@ =~= all.skip(0));
        }
        while i < config.disks.len()
            invariant
                i <= config.disks@.len(),
                s == config.entries(),
                all.len() == config.disks@.len(),
                superblocks@.len() == config.disks@.len(),
                bs == superblock_list(superblocks@),
                rest@ == all.skip(i as int),
                disks.wf(),
                disks@.map_values(|x: DiskRuntime<D>| x.model()) == fresh_disks(s, bs, i as int),
                disks@.map_values(|x: DiskRuntime<D>| x.device) == given_devices(s, all, i as int),
            decreases config.disks@.len() - i,
        {
            let entry = config.disks[i].duplicate();
            let device = rest.remove(0);
            let ghost before = disks@;
            let id = entry.id;
            let runtime = DiskRuntime {
                config: entry,
                state: DiskState::Online,
                used_bytes: 0,
                device,
                superblock: superblocks[i],
            };
            let ghost m = runtime.model();
            disks.insert(id, runtime);
            proof {
                assert(s[i as int] == config.disks@[i as int]@);
                assert(m == fresh_disk(s[i as int], bs[i as int]));
                assert(disks@.map_values(|x: DiskRuntime<D>| x.model()) =~= before.map_values(
                    |x: DiskRuntime<D>| x.model(),
                ).insert(id, m));
                assert(disks@.map_values(|x: DiskRuntime<D>| x.device) =~= before.map_values(
                    |x: DiskRuntime<D>| x.device,
                ).insert(id, all[i as int]));
                assert(rest@ =~= all.skip(i + 1));
            }
            i = i + 1;
        }
        disks
    }

    /// Make a pool. `devices` are those of the configured disks, in order, each
    /// formatted with the superblock that [`Superblock::for_disk`] gives. The
    /// root block goes to the primary disk.
    pub fn create(config: PoolConfig, devices: Vec<D>) -> (r: Result<Self, PoolError>)
        requires
            devices@.len() == config.disks@.len(),
        ensures
            match r {
                Ok(p) => {
                    &&& new_pool_ok(config.entries())
                    &&& p.wf()
                    &&& p.node() == config.node_id
                    &&& p.entries() == config.entries()
                    &&& p.models() == fresh_disks(
                        config.entries(),
                        formatted_list(config.node_id, config.entries()),
                        config.disks@.len() as int,
                    )
                    &&& p.rules() == Seq::<RuleModel>::empty()
                    &&& p.is_saved()
                    &&& root_saved(
                        p.entries(),
                        p.listing(),
                        given_devices(config.entries(), devices@, config.disks@.len() as int),
                        p.devices(),
                    )
                },
                Err(e) => new_pool_fault(config.entries(), e) || (new_pool_ok(config.entries())
                    && exists|s: Seq<(DiskId, DiskModel)>|
                    #[trigger] lists(
                        s,
                        fresh_disks(
                            config.entries(),
                            formatted_list(config.node_id, config.entries()),
                            config.disks@.len() as int,
                        ),
                    ) && save_fails(
                        config.entries(),
                        s,
                        given_devices(config.entries(), devices@, config.disks@.len() as int),
                        e,
                    )),
            },
    {
        match config.check_new() {
            Ok(_) => {},
            Err(e) => {
                return Err(e);
            },
        }
        let ghost s = config.entries();
        let superblocks = format_all(&config);
        let disks = PoolManager::take_in(&config, devices, &superblocks);
        let mut p = PoolManager { config, disks, placement_rules: Vec::new() };
        proof {
            assert(p.rules() =~= Seq::<RuleModel>::empty());
            p.lemma_listing();
            assert(lists(
                p.listing(),
                fresh_disks(s, formatted_list(config.node_id, s), s.len() as int),
            ));
        }
        match p.commit() {
            Ok(_) => Ok(p),
            Err(e) => Err(e),
        }
    }

    /// The root block on the primary disk is that of the pool.
    pub open spec fn is_saved(&self) -> bool {
        exists|i: int, b: PoolStateRoot|
            {
                &&& #[trigger] is_primary(self.entries(), i)
                &&& #[trigger] root_describes(b, self.listing())
                &&& self.devices().contains_key(self.entries()[i].id)
                &&& 20480 <= self.devices()[self.entries()[i].id].contents().len()
                &&& self.devices()[self.entries()[i].id].contents().subrange(16384, 20480)
                    == b.sealed().image()
            }
    }

    /// Open a pool that was made before. `devices` and `superblocks` are those
    /// of the configured disks, in order. Each superblock has to name the node
    /// and the disk; the states and figures of the disks come from the root
    /// block.
    pub fn open(config: PoolConfig, devices: Vec<D>, superblocks: Vec<Superblock>) -> (r: Result<
        Self,
        PoolError,
    >)
        requires
            devices@.len() == config.disks@.len(),
            superblocks@.len() == config.disks@.len(),
        ensures
            if config.disks@.len() == 0 {
                r == Err::<Self, PoolError>(PoolError::EmptyPool)
            } else if exists|k: int| #[trigger]
                first_stranger(
                    config.node_id,
                    config.entries(),
                    superblock_list(superblocks@),
                    k,
                ) {
                exists|k: int|
                    {
                        &&& #[trigger] first_stranger(
                            config.node_id,
                            config.entries(),
                            superblock_list(superblocks@),
                            k,
                        )
                        &&& r is Err
                        &&& Some(r->Err_0) == identity_fault(
                            config.node_id,
                            config.disks@[k].id,
                            superblocks@[k]@,
                        )
                    }
            } else {
                exists|i: int, read: Result<PoolStateRoot, PoolError>|
                    #[trigger] is_primary(config.entries(), i) && #[trigger] opened(
                        config,
                        devices@,
                        superblock_list(superblocks@),
                        i,
                        read,
                        r,
                    )
            },
    {
        let ghost bs = superblock_list(superblocks@);
        let mut checked: usize = 0;
        while checked < config.disks.len()
            invariant
                checked <= config.disks@.len(),
                superblocks@.len() == config.disks@.len(),
                bs == superblock_list(superblocks@),
                forall|j: int|
                    0 <= j < checked ==> identity_fault(
                        config.node_id,
                        (#[trigger] config.entries()[j]).id,
                        bs[j],
                    ) is None,
            decreases config.disks@.len() - checked,
        {
            proof {
                assert(config.entries()[checked as int].id == config.disks@[checked as int].id);
            }
            match superblocks[checked].check_identity(config.node_id, config.disks[checked].id) {
                Ok(_) => {},
                Err(e) => {
                    proof {
                        assert(first_stranger(
                            config.node_id,
                            config.entries(),
                            bs,
                            checked as int,
                        ));
                    }
                    return Err(e);
                },
            }
            checked = checked + 1;
        }
        proof {
            assert(forall|k: int| !first_stranger(config.node_id, config.entries(), bs, k));
        }
        let primary_id: DiskId = match config.primary() {
            Some(e) => e.id,
            None => {
                return Err(PoolError::EmptyPool);
            },
        };
        let ghost s = config.entries();
        let ghost at = choose|i: int| #[trigger] is_primary(s, i) && config.disks@[i].id == primary_id;
        let ghost n = config.disks@.len() as int;
        let last = last_with(&config, primary_id);
        let ghost all = devices@;
        proof {
            assert(s[at].id == primary_id);
            assert(config.disks@[at].id == primary_id);
        }
        let read = match last {
            Some(k) => PoolStateRoot::read(&devices[k], POOL_STATE_ROOT_OFFSET),
            None => Err(PoolError::DiskNotFound(primary_id)),
        };
        proof {
            assert(last is Some);
        }
        let root = match read {
            Ok(b) => b,
            Err(e) => {
                proof {
                    assert(opened(config, all, bs, at, Err(e), Err(e)));
                }
                return Err(e);
            },
        };
        let disks = PoolManager::take_in(&config, devices, &superblocks);
        let mut p = PoolManager { config, disks, placement_rules: Vec::new() };
        proof {
            assert(p.rules() =~= Seq::<RuleModel>::empty());
        }
        match p.apply_pool_state_root(&root) {
            Ok(_) => {
                proof {
                    assert(opened(config, all, bs, at, Ok(root), Ok(p)));
                }
                Ok(p)
            },
            Err(e) => {
                proof {
                    assert(opened(config, all, bs, at, Ok(root), Err::<Self, PoolError>(e)));
                }
                Err(e)
            },
        }
    }

    /// Whether another disk with this id fits into the pool.
    pub fn check_add(&self, id: DiskId) -> (r: Result<(), PoolError>)
        requires
            self.wf(),
        ensures
            r == if self.models().contains_key(id) {
                Err::<(), PoolError>(PoolError::DuplicateDiskId(id))
            } else if self.models().len() >= 12 {
                Err(
                    PoolError::DiskOverflowUnsupported {
                        count: (self.models().len() + 1) as u32,
                        max: 12,
                    },
                )
            } else {
                Ok(())
            },
    {
        proof {
            self.lemma_listing();
        }
        if self.disks.contains_key(&id) {
            return Err(PoolError::DuplicateDiskId(id));
        }
        let n = self.disks.len();
        if n >= 12 {
            return Err(
                PoolError::DiskOverflowUnsupported { count: (n + 1) as u32, max: 12 },
            );
        }
        Ok(())
    }

    /// Take a disk into the pool and write the root block. The device is
    /// formatted with the superblock that [`Superblock::for_disk`] gives.
    pub fn add_disk(&mut self, entry: DiskConfigEntry, device: D) -> (r: Result<DiskId, PoolError>)
        requires
            old(self).wf(),
        ensures
            final(self).wf(),
            final(self).node() == old(self).node(),
            final(self).rules() == old(self).rules(),
            if old(self).models().contains_key(entry.id) {
                r == Err::<DiskId, PoolError>(PoolError::DuplicateDiskId(entry.id)) && *final(self)
                    == *old(self)
            } else if old(self).models().len() >= 12 {
                r == Err::<DiskId, PoolError>(
                    PoolError::DiskOverflowUnsupported {
                        count: (old(self).models().len() + 1) as u32,
                        max: 12,
                    },
                ) && *final(self) == *old(self)
            } else {
                &&& final(self).entries() == old(self).entries().push(entry@)
                &&& final(self).models() == old(self).models().insert(
                    entry.id,
                    fresh_disk(entry@, formatted(old(self).node(), entry@)),
                )
                &&& match r {
                    Ok(id) => id == entry.id && final(self).is_saved() && root_saved(
                        final(self).entries(),
                        final(self).listing(),
                        old(self).devices().insert(entry.id, device),
                        final(self).devices(),
                    ),
                    Err(e) => save_fails(
                        final(self).entries(),
                        final(self).listing(),
                        old(self).devices().insert(entry.id, device),
                        e,
                    ) && root_unsaved(
                        old(self).devices().insert(entry.id, device),
                        final(self).devices(),
                    ),
                }
            },
    {
        match self.check_add(entry.id) {
            Ok(_) => {},
            Err(e) => {
                return Err(e);
            },
        }
        let id = entry.id;
        let ghost e = entry@;
        let ghost before = self.models();
        let ghost listed = self.entries();
        let ghost devices = self.devices();
        let ghost given = device;
        self.config.disks.push(entry.duplicate());
        let superblock = Superblock::for_disk(self.config.node_id, &entry);
        let runtime = DiskRuntime {
            config: entry,
            state: DiskState::Online,
            used_bytes: 0,
            device,
            superblock,
        };
        let ghost m = runtime.model();
        self.disks.insert(id, runtime);
        proof {
            assert(self.entries() =~= listed.push(e));
            assert(self.models() =~= before.insert(id, m));
            assert(self.devices() =~= devices.insert(id, given));
        }
        match self.commit() {
            Ok(_) => Ok(id),
            Err(err) => Err(err),
        }
    }

    /// Begin to take a disk out of the pool: it gets no new data any more.
    pub fn remove_disk(&mut self, disk_id: DiskId) -> (r: Result<(), PoolError>)
        requires
            old(self).wf(),
        ensures
            final(self).wf(),
            final(self).node() == old(self).node(),
            final(self).entries() == old(self).entries(),
            final(self).rules() == old(self).rules(),
            if old(self).models().contains_key(disk_id) {
                &&& final(self).models() == old(self).models().insert(
                    disk_id,
                    DiskModel { state: DiskState::Draining, ..old(self).models()[disk_id] },
                )
                &&& match r {
                    Ok(_) => final(self).is_saved() && root_saved(
                        final(self).entries(),
                        final(self).listing(),
                        old(self).devices(),
                        final(self).devices(),
                    ),
                    Err(e) => save_fails(
                        final(self).entries(),
                        final(self).listing(),
                        old(self).devices(),
                        e,
                    ) && root_unsaved(old(self).devices(), final(self).devices()),
                }
            } else {
                r == Err::<(), PoolError>(PoolError::DiskNotFound(disk_id)) && final(self).models()
                    == old(self).models() && final(self).devices() == old(self).devices()
            },
    {
        let ghost before = self.models();
        let ghost devices = self.devices();
        let ghost after = DiskModel { state: DiskState::Draining, ..before[disk_id] };
        let found = match self.disks.get_mut(&disk_id) {
            Some(rt) => {
                rt.state = DiskState::Draining;
                true
            },
            None => false,
        };
        if !found {
            return Err(PoolError::DiskNotFound(disk_id));
        }
        proof {
            assert(self.disks@[disk_id].model() == after);
            assert(self.models() =~= before.insert(disk_id, after));
            assert(self.devices() =~= devices);
        }
        self.commit()
    }

    /// The figures of the disks, in ascending order of ids.
    fn figures(&self) -> (r: Vec<DiskFigures>)
        requires
            self.wf(),
        ensures
            r@ == self.figure_list(),
    {
        let total = self.disks.len();
        let mut out: Vec<DiskFigures> = Vec::new();
        let mut i: usize = 0;
        while i < total
            invariant
                i <= total,
                total == self.disks.items().len(),
                out@ =~= self.figure_list().take(i as int),
            decreases total - i,
        {
            let rt = self.disks.value_at(i);
            out.push(
                DiskFigures {
                    id: *self.disks.key_at(i),
                    state: rt.state,
                    media_type: rt.config.media_type,
                    tier: rt.config.tier,
                    capacity_bytes: rt.config.capacity_bytes,
                    used_bytes: rt.used_bytes,
                },
            );
            i = i + 1;
        }
        out
    }

    /// The figures of the disks, in ascending order of ids.
    pub open spec fn figure_list(&self) -> Seq<DiskFigures> {
        self.listing().map_values(|e: (DiskId, DiskModel)| figures_of(e.0, e.1))
    }

    /// Figures of the whole pool.
    pub fn status(&self) -> (r: PoolStatus)
        requires
            self.wf(),
        ensures
            r.node_id == self.node(),
            sums_up(r, self.figure_list()),
    {
        proof {
            self.lemma_listing();
        }
        let figures = self.figures();
        summarise(self.config.node_id, &figures)
    }

    /// The disk for new data of a tier: the one that is online and has the
    /// most free bytes; of several the one with the lowest id.
    pub fn pick_disk(&self, tier_pref: StorageTier, _data_type: BucketDataType) -> (r: Option<
        DiskId,
    >)
        requires
            self.wf(),
        ensures
            match r {
                Some(id) => exists|i: int|
                    #[trigger] is_pick(self.figure_list(), tier_pref, i) && self.figure_list()[i].id
                        == id,
                None => forall|i: int|
                    0 <= i < self.figure_list().len() ==> !takes_data(
                        #[trigger] self.figure_list()[i],
                        tier_pref,
                    ),
            },
    {
        let figures = self.figures();
        pick(&figures, tier_pref)
    }

    /// The placement rules.
    pub fn placement_rules(&self) -> (r: &Vec<PlacementRule>)
        ensures
            rule_list(r@) == self.rules(),
    {
        &self.placement_rules
    }

    /// Append a placement rule.
    pub fn add_placement_rule(&mut self, rule: PlacementRule) -> (r: Result<(), PoolError>)
        ensures
            r is Ok,
            final(self).rules() == old(self).rules().push(rule@),
            old(self).wf() ==> final(self).wf(),
            final(self).node() == old(self).node(),
            final(self).entries() == old(self).entries(),
            final(self).models() == old(self).models(),
            final(self).devices() == old(self).devices(),
    {
        let ghost before = self.rules();
        let ghost m = rule@;
        self.placement_rules.push(rule);
        proof {
            assert(self.rules() =~= before.push(m));
        }
        Ok(())
    }

    /// The configuration.
    pub fn config(&self) -> (r: &PoolConfig)
        ensures
            r.node_id == self.node(),
            r.entries() == self.entries(),
    {
        &self.config
    }

    /// A disk at work.
    pub fn runtime(&self, disk_id: DiskId) -> (r: Option<&DiskRuntime<D>>)
        requires
            self.wf(),
        ensures
            match r {
                Some(rt) => self.models().contains_key(disk_id) && rt.model()
                    == self.models()[disk_id] && rt.device == self.devices()[disk_id],
                None => !self.models().contains_key(disk_id),
            },
    {
        self.disks.get(&disk_id)
    }

    /// The superblock of a disk, as of its opening or formatting.
    pub fn disk_superblock(&self, disk_id: DiskId) -> (r: Option<&Superblock>)
        requires
            self.wf(),
        ensures
            match r {
                Some(b) => self.models().contains_key(disk_id) && b@
                    == self.models()[disk_id].superblock,
                None => !self.models().contains_key(disk_id),
            },
    {
        match self.disks.get(&disk_id) {
            Some(rt) => Some(&rt.superblock),
            None => None,
        }
    }

    /// The root block of the pool.
    fn state_root(&self) -> (r: Result<PoolStateRoot, PoolError>)
        requires
            self.wf(),
        ensures
            match r {
                Ok(b) => root_possible(self.entries(), self.listing()) && root_describes(
                    b,
                    self.listing(),
                ),
                Err(e) => root_refused(self.entries(), self.listing(), e),
            },
    {
        let ghost s = self.listing();
        if self.config.disks.len() == 0 {
            return Err(PoolError::EmptyPool);
        }
        let mut root = PoolStateRoot::new_blank();
        root.cluster_node_count = 1;
        let total = self.disks.len();
        let mut wire: Vec<DiskDescriptorOnDisk> = Vec::new();
        let mut i: usize = 0;
        while i < total
            invariant
                i <= total,
                s == self.listing(),
                self.config.disks@.len() > 0,
                total == self.disks.items().len(),
                total == s.len(),
                wire@.len() == i,
                forall|j: int| 0 <= j < i ==> described(#[trigger] wire@[j], s[j].1),
                forall|j: int| 0 <= j < i ==> !path_too_long((#[trigger] s[j]).1),
            decreases total - i,
        {
            let rt = self.disks.value_at(i);
            proof {
                assert(s[i as int].1 == rt.model());
            }
            match DiskDescriptorOnDisk::new(
                rt.config.id,
                rt.config.media_type,
                rt.config.tier,
                rt.state,
                rt.config.capacity_bytes,
                rt.config.path.as_str(),
            ) {
                Ok(d) => {
                    let mut own = d;
                    own.used_bytes = rt.used_bytes;
                    wire.push(own);
                },
                Err(e) => {
                    proof {
                        assert(path_too_long(s[i as int].1));
                        assert(first_long_path(s, i as int));
                    }
                    return Err(e);
                },
            }
            i = i + 1;
        }
        match root.set_inline_disks(&wire) {
            Ok(_) => {
                proof {
                    assert forall|j: int| 0 <= j < s.len() implies described(
                        #[trigger] root.inline_disks@[j],
                        s[j].1,
                    ) by {
                        assert(root.disks()[j] == wire@[j]);
                        assert(root.disks()[j] == root.inline_disks@[j]);
                    }
                }
                Ok(root)
            },
            Err(e) => Err(e),
        }
    }

    /// Write the root block to the primary disk, and sync its device.
    pub fn commit(&mut self) -> (r: Result<(), PoolError>)
        requires
            old(self).wf(),
        ensures
            final(self).wf(),
            final(self).node() == old(self).node(),
            final(self).entries() == old(self).entries(),
            final(self).models() == old(self).models(),
            final(self).listing() == old(self).listing(),
            final(self).rules() == old(self).rules(),
            match r {
                Ok(_) => {
                    &&& root_possible(old(self).entries(), old(self).listing())
                    &&& final(self).is_saved()
                    &&& root_saved(
                        old(self).entries(),
                        old(self).listing(),
                        old(self).devices(),
                        final(self).devices(),
                    )
                },
                Err(e) => {
                    &&& save_fails(
                        old(self).entries(),
                        old(self).listing(),
                        old(self).devices(),
                        e,
                    )
                    &&& root_unsaved(old(self).devices(), final(self).devices())
                },
            },
    {
        let ghost s = self.entries();
        let primary_id: DiskId = match self.config.primary() {
            Some(e) => e.id,
            None => {
                return Err(PoolError::EmptyPool);
            },
        };
        let ghost at = choose|i: int|
            #[trigger] is_primary(s, i) && self.config.disks@[i].id == primary_id;
        proof {
            assert(s[at].id == primary_id);
        }
        let mut root = match self.state_root() {
            Ok(b) => b,
            Err(e) => {
                return Err(e);
            },
        };
        let ghost plain = root;
        let ghost models = self.models();
        let ghost devices = self.devices();
        let ghost listing = self.listing();
        let ghost disks = self.disks@;
        proof {
            self.lemma_listing();
        }
        let written = match self.disks.get_mut(&primary_id) {
            Some(rt) => match root.write(&mut rt.device, POOL_STATE_ROOT_OFFSET) {
                Ok(_) => match rt.device.sync() {
                    Ok(_) => Ok(()),
                    Err(e) => Err(PoolError::Storage(e)),
                },
                Err(e) => Err(e),
            },
            None => Err(PoolError::DiskNotFound(primary_id)),
        };
        proof {
            assert(self.models() =~= models);
            if disks.contains_key(primary_id) {
                assert(self.devices() =~= devices.insert(primary_id, self.devices()[primary_id]));
            }
            self.lemma_listing();
            lemma_listing_unique(listing, self.listing(), models);
        }
        match written {
            Ok(_) => {
                proof {
                    let id = primary_id;
                    let c = devices[id].contents();
                    plain.sealed().image_len();
                    crate::storage::device::read_after_write(c, 16384, plain.sealed().image());
                    assert(is_primary(self.entries(), at) && root_describes(plain, self.listing()));
                }
                Ok(())
            },
            Err(e) => {
                proof {
                    if !models.contains_key(primary_id) {
                        assert(is_primary(s, at));
                    }
                }
                Err(e)
            },
        }
    }

    /// Set states and figures of the disks from a root block. Disks that the
    /// pool does not have are passed over.
    pub fn apply_pool_state_root(&mut self, root: &PoolStateRoot) -> (r: Result<(), PoolError>)
        requires
            old(self).wf(),
        ensures
            final(self).wf(),
            final(self).node() == old(self).node(),
            final(self).entries() == old(self).entries(),
            final(self).rules() == old(self).rules(),
            final(self).devices() == old(self).devices(),
            match r {
                Ok(_) => {
                    &&& forall|i: int|
                        0 <= i < root.disks().len() ==> state_of(
                            (#[trigger] root.disks()[i]).state,
                        ) is Ok
                    &&& final(self).models() == applied(
                        old(self).models(),
                        root.disks(),
                        root.disks().len() as int,
                    )
                },
                Err(e) => exists|k: int|
                    {
                        &&& #[trigger] first_bad_state(root.disks(), k)
                        &&& e == PoolError::InvalidDiskState(root.disks()[k].state)
                        &&& final(self).models() == applied(old(self).models(), root.disks(), k)
                    },
            },
    {
        let ds = root.inline_iter();
        let ghost start = self.models();
        let ghost devices = self.devices();
        let mut i: usize = 0;
        while i < ds.len()
            invariant
                i <= ds@.len(),
                ds@ == root.disks(),
                self.wf(),
                self.node() == old(self).node(),
                self.entries() == old(self).entries(),
                self.rules() == old(self).rules(),
                start == old(self).models(),
                devices == old(self).devices(),
                self.devices() == devices,
                forall|j: int| 0 <= j < i ==> state_of((#[trigger] ds@[j]).state) is Ok,
                self.models() == applied(start, ds@, i as int),
            decreases ds@.len() - i,
        {
            let d = ds[i];
            let state = match d.state_typed() {
                Ok(s) => s,
                Err(e) => {
                    proof {
                        assert(first_bad_state(root.disks(), i as int));
                    }
                    return Err(e);
                },
            };
            let ghost before = self.models();
            let ghost disks = self.disks@;
            match self.disks.get_mut(&d.disk_id_typed()) {
                Some(rt) => {
                    rt.state = state;
                    rt.used_bytes = d.used_bytes;
                },
                None => {},
            }
            proof {
                if disks.contains_key(d.disk_id) {
                    assert(self.models() =~= before.insert(
                        d.disk_id,
                        DiskModel { state, used_bytes: d.used_bytes, ..before[d.disk_id] },
                    ));
                    assert(self.devices() =~= devices);
                }
            }
            i = i + 1;
        }
        Ok(())
    }
}

/// Entry `k` is the last with this id.
pub open spec fn last_entry(s: Seq<EntryModel>, id: DiskId, k: int) -> bool {
    &&& 0 <= k < s.len()
    &&& s[k].id == id
    &&& forall|j: int| k < j < s.len() ==> (#[trigger] s[j]).id != id
}

/// `r` is what opening a pool gives, `i` being its primary entry and `read`
/// what reading the root block gave.
pub open spec fn opened<D: BlockDevice>(
    config: PoolConfig,
    devices: Seq<D>,
    superblocks: Seq<SuperblockModel>,
    i: int,
    read: Result<PoolStateRoot, PoolError>,
    r: Result<PoolManager<D>, PoolError>,
) -> bool {
    let s = config.entries();
    &&& exists|k: int|
        #[trigger] last_entry(s, s[i].id, k) && root_read(
            devices[k].contents(),
            devices[k].reliable(),
            16384,
            read,
        )
    &&& match read {
        Err(e) => r is Err && r->Err_0 == e,
        Ok(root) => match r {
            Ok(p) => {
                &&& p.wf()
                &&& p.node() == config.node_id
                &&& p.entries() == s
                &&& p.rules() == Seq::<RuleModel>::empty()
                &&& p.devices() == given_devices(s, devices, s.len() as int)
                &&& forall|j: int|
                    0 <= j < root.disks().len() ==> state_of(
                        (#[trigger] root.disks()[j]).state,
                    ) is Ok
                &&& p.models() == applied(
                    fresh_disks(s, superblocks, s.len() as int),
                    root.disks(),
                    root.disks().len() as int,
                )
            },
            Err(e) => exists|j: int|
                #[trigger] first_bad_state(root.disks(), j) && e == PoolError::InvalidDiskState(
                    root.disks()[j].state,
                ),
        },
    }
}

/// The position of the last entry with this id.
fn last_with(config: &PoolConfig, id: DiskId) -> (r: Option<usize>)
    ensures
        match r {
            Some(k) => last_entry(config.entries(), id, k as int),
            None => forall|j: int|
                0 <= j < config.disks@.len() ==> (#[trigger] config.disks@[j]).id != id,
        },
{
    let ghost s = config.entries();
    let mut i: usize = config.disks.len();
    while i > 0
        invariant
            i <= config.disks@.len(),
            s == config.entries(),
            forall|j: int| i <= j < s.len() ==> (#[trigger] s[j]).id != id,
            forall|j: int| i <= j < s.len() ==> (#[trigger] config.disks@[j]).id != id,
        decreases i,
    {
        i = i - 1;
        proof {
            assert(s[i as int].id == config.disks@[i as int].id);
        }
        if config.disks[i].id == id {
            return Some(i);
        }
    }
    None
}

/// Ids that ascend are at least as high as their positions.
proof fn lemma_ascending(s: Seq<(DiskId, DiskModel)>, k: int)
    requires
        0 <= k < s.len(),
        forall|i: int, j: int| 0 <= i < j < s.len() ==> (#[trigger] s[i]).0 < (#[trigger] s[j]).0,
    ensures
        s[k].0 >= k,
    decreases k,
{
    if k > 0 {
        lemma_ascending(s, k - 1);
        assert(s[k - 1].0 < s[k].0);
    }
}

/// There is one listing in ascending order.
proof fn lemma_listing_unique(
    a: Seq<(DiskId, DiskModel)>,
    b: Seq<(DiskId, DiskModel)>,
    m: Map<DiskId, DiskModel>,
)
    requires
        a.len() == m.len(),
        b.len() == m.len(),
        forall|i: int, j: int| 0 <= i < j < a.len() ==> (#[trigger] a[i]).0 < (#[trigger] a[j]).0,
        forall|i: int, j: int| 0 <= i < j < b.len() ==> (#[trigger] b[i]).0 < (#[trigger] b[j]).0,
        forall|i: int|
            0 <= i < a.len() ==> m.contains_key((#[trigger] a[i]).0) && m[a[i].0] == a[i].1,
        forall|i: int|
            0 <= i < b.len() ==> m.contains_key((#[trigger] b[i]).0) && m[b[i].0] == b[i].1,
        forall|id: DiskId| #[trigger]
            m.contains_key(id) ==> exists|i: int| 0 <= i < a.len() && (#[trigger] a[i]).0 == id,
        forall|id: DiskId| #[trigger]
            m.contains_key(id) ==> exists|i: int| 0 <= i < b.len() && (#[trigger] b[i]).0 == id,
    ensures
        a == b,
{
    assert forall|i: int| 0 <= i < a.len() implies #[trigger] a[i] == b[i] by {
        lemma_same_ids(a, b, m, i);
    }
    assert(a =~= b);
}

proof fn lemma_same_ids(
    a: Seq<(DiskId, DiskModel)>,
    b: Seq<(DiskId, DiskModel)>,
    m: Map<DiskId, DiskModel>,
    k: int,
)
    requires
        0 <= k < a.len(),
        a.len() == b.len(),
        forall|i: int, j: int| 0 <= i < j < a.len() ==> (#[trigger] a[i]).0 < (#[trigger] a[j]).0,
        forall|i: int, j: int| 0 <= i < j < b.len() ==> (#[trigger] b[i]).0 < (#[trigger] b[j]).0,
        forall|i: int|
            0 <= i < a.len() ==> m.contains_key((#[trigger] a[i]).0) && m[a[i].0] == a[i].1,
        forall|i: int|
            0 <= i < b.len() ==> m.contains_key((#[trigger] b[i]).0) && m[b[i].0] == b[i].1,
        forall|id: DiskId| #[trigger]
            m.contains_key(id) ==> exists|i: int| 0 <= i < a.len() && (#[trigger] a[i]).0 == id,
        forall|id: DiskId| #[trigger]
            m.contains_key(id) ==> exists|i: int| 0 <= i < b.len() && (#[trigger] b[i]).0 == id,
    ensures
        a[k] == b[k],
    decreases k,
{
    if a[k].0 < b[k].0 {
        assert(m.contains_key(a[k].0));
        let j = choose|j: int| 0 <= j < b.len() && (#[trigger] b[j]).0 == a[k].0;
        if j < k {
            lemma_same_ids(a, b, m, j);
            assert(a[j].0 < a[k].0);
        } else if j > k {
            assert(b[k].0 < b[j].0);
        }
    } else if b[k].0 < a[k].0 {
        assert(m.contains_key(b[k].0));
        let j = choose|j: int| 0 <= j < a.len() && (#[trigger] a[j]).0 == b[k].0;
        if j < k {
            lemma_same_ids(a, b, m, j);
            assert(b[j].0 < b[k].0);
        } else if j > k {
            assert(a[k].0 < a[j].0);
        }
    }
}

/// The descriptors give back the state and use of the first disks.
proof fn lemma_restores(
    b: PoolStateRoot,
    s: Seq<(DiskId, DiskModel)>,
    m: Map<DiskId, DiskModel>,
    k: int,
)
    requires
        0 <= k <= s.len(),
        root_describes(b, s),
        forall|i: int, j: int| 0 <= i < j < s.len() ==> (#[trigger] s[i]).0 < (#[trigger] s[j]).0,
        forall|i: int| 0 <= i < s.len() ==> (#[trigger] s[i]).1.config.id == s[i].0,
        forall|i: int|
            0 <= i < s.len() ==> m.contains_key((#[trigger] s[i]).0) && m[s[i].0].config
                == s[i].1.config && m[s[i].0].superblock == s[i].1.superblock,
    ensures
        forall|i: int| 0 <= i < s.len() ==> state_of((#[trigger] b.disks()[i]).state) is Ok,
        applied(m, b.disks(), k).dom() == m.dom(),
        forall|i: int| 0 <= i < k ==> applied(m, b.disks(), k)[(#[trigger] s[i]).0] == s[i].1,
        forall|i: int|
            k <= i < s.len() ==> applied(m, b.disks(), k)[(#[trigger] s[i]).0] == m[s[i].0],
    decreases k,
{
    assert forall|i: int| 0 <= i < s.len() implies state_of((#[trigger] b.disks()[i]).state)
        == Ok::<DiskState, PoolError>(s[i].1.state) && b.disks()[i].disk_id == s[i].0
        && b.disks()[i].used_bytes == s[i].1.used_bytes by {
        assert(b.disks()[i] == b.inline_disks@[i]);
        assert(described(b.inline_disks@[i], s[i].1));
        assert(s[i].1.config.id == s[i].0);
    }
    if k > 0 {
        lemma_restores(b, s, m, k - 1);
        let before = applied(m, b.disks(), k - 1);
        let after = applied(m, b.disks(), k);
        let d = b.disks()[k - 1];
        assert(d.disk_id == s[k - 1].0);
        assert(before[s[k - 1].0] == m[s[k - 1].0]);
        assert(after.dom() =~= m.dom());
        assert forall|i: int| 0 <= i < k implies after[(#[trigger] s[i]).0] == s[i].1 by {
            if i < k - 1 {
                assert(s[i].0 < s[k - 1].0);
            } else {
                assert(m[s[i].0].config == s[i].1.config && m[s[i].0].superblock
                    == s[i].1.superblock);
            }
        }
        assert forall|i: int| k <= i < s.len() implies after[(#[trigger] s[i]).0] == m[s[i].0] by {
            assert(s[k - 1].0 < s[i].0);
        }
    }
}

/// A pool that was saved is opened again as it was: reading the root block
/// succeeds, and applying it to the freshly taken in disks gives every disk
/// the state and use that it had.
pub proof fn pool_reopens(
    b: PoolStateRoot,
    s: Seq<(DiskId, DiskModel)>,
    m: Map<DiskId, DiskModel>,
    start: Map<DiskId, DiskModel>,
    contents: Seq<u8>,
    read: Result<PoolStateRoot, PoolError>,
)
    requires
        lists(s, m),
        forall|id: DiskId| #[trigger] m.contains_key(id) ==> m[id].config.id == id,
        root_describes(b, s),
        start.dom() == m.dom(),
        forall|id: DiskId| #[trigger] m.contains_key(id) ==> start[id].config == m[id].config
            && start[id].superblock == m[id].superblock,
        20480 <= contents.len(),
        contents.subrange(16384, 20480) == b.sealed().image(),
        root_read(contents, true, 16384, read),
    ensures
        read == Ok::<PoolStateRoot, PoolError>(b.sealed()),
        forall|i: int|
            0 <= i < b.sealed().disks().len() ==> state_of(
                (#[trigger] b.sealed().disks()[i]).state,
            ) is Ok,
        applied(start, b.sealed().disks(), b.sealed().disks().len() as int) == m,
{
    crate::pool::root::lemma_root_sealed(b);
    assert(b.sealed().disks() =~= b.disks());
    let n = s.len() as int;
    assert(b.disks().len() == n);
    assert forall|i: int| 0 <= i < s.len() implies start.contains_key((#[trigger] s[i]).0)
        && start[s[i].0].config == s[i].1.config && start[s[i].0].superblock == s[i].1.superblock
        && s[i].1.config.id == s[i].0 by {
        assert(m.contains_key(s[i].0));
        assert(start.dom().contains(s[i].0));
    }
    lemma_restores(b, s, start, n);
    let r = applied(start, b.disks(), n);
    assert forall|id: DiskId| #[trigger] m.contains_key(id) implies r[id] == m[id] by {
        let i = choose|i: int| 0 <= i < s.len() && (#[trigger] s[i]).0 == id;
        assert(r[s[i].0] == s[i].1);
    }
    assert(r =~= m);
}

} // verus!
