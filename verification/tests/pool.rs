use mimisbrunnr::pool::config::{DiskConfigEntry, PoolConfig};
use mimisbrunnr::pool::disk::{
    disk_state_from_u8, disk_state_to_u8, media_type_from_u8, media_type_to_u8,
    DiskDescriptorOnDisk, DISK_DESCRIPTOR_ON_DISK_SIZE, DISK_PATH_INLINE_LEN,
};
use mimisbrunnr::pool::error::PoolError;
use mimisbrunnr::pool::manager::{PoolManager, POOL_STATE_ROOT_OFFSET};
use mimisbrunnr::pool::placement::{
    copy_rules, flush_placement_rules_to_region, load_placement_rules_from_region,
    placement_rules_from_loaded_node, placement_rules_to_loaded_node, PlacementRule,
};
use mimisbrunnr::pool::root::{
    flush_disks_overflow_to_region, load_disks_overflow_from_region, PoolStateRoot,
    POOL_STATE_ROOT_INLINE_DISKS, POOL_STATE_ROOT_SIZE,
};
use mimisbrunnr::pool::superblock::{format_plan, fs_uuid_for, Superblock};
use mimisbrunnr::storage::block::{BlockKind, BucketDataType};
use mimisbrunnr::storage::crc::block_crc;
use mimisbrunnr::storage::device::{BlockDevice, MemoryDevice, StorageError};
use mimisbrunnr::storage::node::SortedRun;
use mimisbrunnr::types::id::TagId;
use mimisbrunnr::types::policy::{ChunkParams, ChunkingAlgo, DiskState, MediaType, StorageTier};
use mimisbrunnr::types::query::Query;
use std::cell::RefCell;

// ---------- configuration ----------

fn sample() -> PoolConfig {
    PoolConfig {
        node_id: 1,
        disks: vec![
            DiskConfigEntry {
                id: 1,
                path: "/var/mimir/disk0.img".to_string(),
                media_type: MediaType::NVMe,
                tier: StorageTier::Hot,
                capacity_bytes: 17_179_869_184,
            },
            DiskConfigEntry {
                id: 2,
                path: "/var/mimir/disk1.img".to_string(),
                media_type: MediaType::Hdd,
                tier: StorageTier::Cold,
                capacity_bytes: 549_755_813_888,
            },
        ],
    }
}

#[test]
fn primary_picks_lowest_id() {
    let mut cfg = sample();
    assert_eq!(cfg.primary().unwrap().id, 1);
    cfg.disks.swap(0, 1);
    assert_eq!(cfg.primary().unwrap().id, 1);
    assert!(PoolConfig::new(4).primary().is_none());
}

#[test]
fn find_disk_lookup() {
    let cfg = sample();
    assert!(cfg.find_disk(1).is_some());
    assert!(cfg.find_disk(99).is_none());
}

// ---------- disks ----------

#[test]
fn size_is_256() {
    assert_eq!(core::mem::size_of::<DiskDescriptorOnDisk>(), DISK_DESCRIPTOR_ON_DISK_SIZE);
}

#[test]
fn round_trip_via_pod_cast() {
    let d = DiskDescriptorOnDisk::new(
        7,
        MediaType::Hdd,
        StorageTier::Cold,
        DiskState::Draining,
        1 << 32,
        "/var/mimir/disk7.img",
    )
    .unwrap();

    let bytes = d.to_bytes();
    assert_eq!(bytes.len(), DISK_DESCRIPTOR_ON_DISK_SIZE);

    let back = DiskDescriptorOnDisk::get(&bytes, 0);
    assert_eq!(back.disk_id, 7);
    assert_eq!(back.disk_id_typed(), 7);
    assert_eq!(back.path_str().unwrap(), "/var/mimir/disk7.img");
    assert_eq!(back.media_type_typed().unwrap(), MediaType::Hdd);
    assert_eq!(back.tier_typed().unwrap(), StorageTier::Cold);
    assert_eq!(back.state_typed().unwrap(), DiskState::Draining);
}

#[test]
fn path_too_long_rejected() {
    let too_long = "/".repeat(DISK_PATH_INLINE_LEN + 1);
    let err = DiskDescriptorOnDisk::new(
        1,
        MediaType::Ssd,
        StorageTier::Warm,
        DiskState::Online,
        1024,
        &too_long,
    )
    .unwrap_err();
    assert!(matches!(err, PoolError::DiskPathTooLong { .. }));
    assert_eq!(err, PoolError::DiskPathTooLong { len: 193, max: 192 });
}

fn zeroed_descriptor() -> DiskDescriptorOnDisk {
    DiskDescriptorOnDisk::get(&[0u8; DISK_DESCRIPTOR_ON_DISK_SIZE], 0)
}

#[test]
fn invalid_media_type_decoding() {
    let mut d = zeroed_descriptor();
    d.media_type = 99;
    let err = d.media_type_typed().unwrap_err();
    assert!(matches!(err, PoolError::InvalidMediaType(99)));
}

#[test]
fn invalid_state_decoding() {
    let mut d = zeroed_descriptor();
    d.state = 200;
    let err = d.state_typed().unwrap_err();
    assert!(matches!(err, PoolError::InvalidDiskState(200)));
}

#[test]
fn invalid_tier_and_path() {
    let mut d = zeroed_descriptor();
    d.tier = 9;
    assert!(matches!(d.tier_typed(), Err(PoolError::InvalidStorageTier(9))));
    d.path[0] = 0xFF;
    d.path_len = 1;
    assert!(matches!(d.path_str(), Err(PoolError::InvalidDiskPathUtf8)));
}

#[test]
fn empty_path_round_trips() {
    let d = DiskDescriptorOnDisk::new(
        0,
        MediaType::Remote,
        StorageTier::Glacier,
        DiskState::Online,
        0,
        "",
    )
    .unwrap();
    assert_eq!(d.path_str().unwrap(), "");
}

#[test]
fn numbers_of_media_and_states() {
    for m in [
        MediaType::NVMe,
        MediaType::Ssd,
        MediaType::Hdd,
        MediaType::Remote,
    ] {
        assert_eq!(media_type_from_u8(media_type_to_u8(m)).unwrap(), m);
    }
    for code in 0..=u8::MAX {
        if let Ok(s) = disk_state_from_u8(code) {
            assert_eq!(disk_state_to_u8(s), code);
        }
    }
}

// ---------- placement rules ----------

fn sample_rules() -> Vec<PlacementRule> {
    vec![
        PlacementRule::Pin { query: Query::HasTag(TagId::new(1)), tier: StorageTier::Hot },
        PlacementRule::AutoTier {
            hot_threshold_days: 7,
            warm_threshold_days: 30,
            cold_after: 90,
        },
        PlacementRule::Chunk {
            query: Query::HasTag(TagId::new(2)),
            params: ChunkParams {
                algo: ChunkingAlgo::FastCDC,
                min_size: 16 * 1024,
                avg_size: 64 * 1024,
                max_size: 256 * 1024,
            },
        },
    ]
}

/// The rules that come back from their region. The entries are kept aside while
/// the region holds a mark in their place.
fn rules_at(dev: &mut MemoryDevice, rules: &Vec<PlacementRule>) -> Vec<PlacementRule> {
    let aside = RefCell::new(Vec::new());
    flush_placement_rules_to_region(rules, dev, 0, |runs: &Vec<SortedRun<u32, Vec<_>>>| {
        for run in runs {
            let entries = run.entries.iter().map(|(k, v)| (*k, copy_rules(v))).collect();
            aside.borrow_mut().push(SortedRun { entries });
        }
        Ok(b"mark".to_vec())
    })
    .unwrap();
    load_placement_rules_from_region(dev, 0, |bytes| {
        assert_eq!(bytes, b"mark");
        Ok(aside.take())
    })
    .unwrap()
}

fn rules_back(rules: &Vec<PlacementRule>) -> Vec<PlacementRule> {
    rules_at(&mut MemoryDevice::new(1 << 20), rules)
}

#[test]
fn placement_round_trip_empty() {
    assert!(rules_back(&vec![]).is_empty());
}

#[test]
fn round_trip_mixed() {
    let rules = sample_rules();
    assert_eq!(rules_back(&rules), rules);
}

#[test]
fn placement_rules_region_round_trip_empty_returns_empty() {
    let dev = MemoryDevice::new(4096);
    let rules =
        load_placement_rules_from_region(&dev, 0, |_| panic!()).unwrap();
    assert!(rules.is_empty());
    let mut node = placement_rules_to_loaded_node(&vec![]);
    node.sorted_runs.clear();
    assert!(placement_rules_from_loaded_node(&node).is_empty());
}

#[test]
fn placement_rules_region_round_trip_preserves_rules() {
    let rules = sample_rules();
    let back = rules_back(&rules);
    assert_eq!(rules, back);
}

#[test]
fn placement_rules_region_round_trip_single_rule() {
    let rules = vec![PlacementRule::Pin {
        query: Query::HasTag(TagId::new(42)),
        tier: StorageTier::Cold,
    }];
    let back = rules_back(&rules);
    assert_eq!(rules, back);
}

#[test]
fn placement_rules_region_overwrite_replaces_state() {
    let mut dev = MemoryDevice::new(1 << 20);
    let first = sample_rules();
    assert_eq!(rules_at(&mut dev, &first).len(), 3);

    let second = vec![PlacementRule::Pin {
        query: Query::HasTag(TagId::new(99)),
        tier: StorageTier::Hot,
    }];
    let back = rules_at(&mut dev, &second);
    assert_eq!(back.len(), 1);
    assert_eq!(back, second);
}

// ---------- root block ----------

fn make_disk(id: u16, path: &str) -> DiskDescriptorOnDisk {
    DiskDescriptorOnDisk::new(
        id,
        MediaType::Ssd,
        StorageTier::Warm,
        DiskState::Online,
        1024 * 1024 * 1024,
        path,
    )
    .unwrap()
}

#[test]
fn pool_state_root_is_4096() {
    assert_eq!(PoolStateRoot::new_blank().to_bytes().len(), 4096);
}

#[test]
fn round_trip_pod_bytes() {
    let mut psr = PoolStateRoot::new_blank();
    psr.set_inline_disks(&vec![make_disk(1, "/disk1"), make_disk(2, "/disk2")]).unwrap();
    psr.recompute_crc();
    let bytes = psr.to_bytes();
    let back = PoolStateRoot::get(&bytes, 0);
    assert_eq!(back.disk_count, 2);
    back.verify_crc().unwrap();
}

#[test]
fn read_write_through_block_device() {
    let mut dev = MemoryDevice::new(1 << 20);

    let mut psr = PoolStateRoot::new_blank();
    psr.cluster_node_count = 1;
    psr.set_inline_disks(&vec![make_disk(0, "/disk0"), make_disk(1, "/disk1")]).unwrap();
    psr.write(&mut dev, 0).unwrap();

    let back = PoolStateRoot::read(&dev, 0).unwrap();
    assert_eq!(back.disk_count, 2);
    assert_eq!(back.cluster_node_count, 1);
    let names: Vec<_> =
        back.inline_iter().iter().map(|d| d.path_str().unwrap().to_string()).collect();
    assert_eq!(names, vec!["/disk0", "/disk1"]);
}

#[test]
fn corrupt_crc_rejected() {
    let mut dev = MemoryDevice::new(1 << 20);
    let mut psr = PoolStateRoot::new_blank();
    psr.write(&mut dev, 0).unwrap();

    let mut buf = dev.read_at(0, POOL_STATE_ROOT_SIZE).unwrap();
    buf[40] ^= 0xFF;
    dev.write_at(0, &buf).unwrap();

    let err = PoolStateRoot::read(&dev, 0).unwrap_err();
    assert!(matches!(err, PoolError::CrcMismatch { .. }));
}

#[test]
fn pool_wrong_block_kind_rejected() {
    let mut dev = MemoryDevice::new(1 << 20);
    let mut psr = PoolStateRoot::new_blank();
    psr.write(&mut dev, 0).unwrap();

    let mut buf = dev.read_at(0, POOL_STATE_ROOT_SIZE).unwrap();
    buf[4] = BlockKind::ZoneMap.code() as u8;
    buf[5] = 0;
    let new_crc = block_crc(&buf, 0, 4092);
    buf[4092..4096].copy_from_slice(&new_crc.to_le_bytes());
    dev.write_at(0, &buf).unwrap();

    let err = PoolStateRoot::read(&dev, 0).unwrap_err();
    assert!(matches!(err, PoolError::InvalidBlockKind(_)));
}

#[test]
fn root_beyond_the_device() {
    let mut dev = MemoryDevice::new(4095);
    assert!(matches!(PoolStateRoot::read(&dev, 0), Err(PoolError::Storage(_))));
    assert!(matches!(
        PoolStateRoot::new_blank().write(&mut dev, 0),
        Err(PoolError::Storage(_))
    ));
}

#[test]
fn overflow_inline_rejected() {
    let mut psr = PoolStateRoot::new_blank();
    let many: Vec<_> = (0..(POOL_STATE_ROOT_INLINE_DISKS as u16 + 1))
        .map(|i| make_disk(i, &format!("/d{i}")))
        .collect();
    let err = psr.set_inline_disks(&many).unwrap_err();
    assert!(matches!(err, PoolError::DiskOverflowUnsupported { .. }));
}

#[test]
fn fits_exactly_twelve() {
    let mut psr = PoolStateRoot::new_blank();
    let twelve: Vec<_> = (0..POOL_STATE_ROOT_INLINE_DISKS as u16)
        .map(|i| make_disk(i, &format!("/d{i}")))
        .collect();
    psr.set_inline_disks(&twelve).unwrap();
    assert_eq!(psr.inline_disk_count(), POOL_STATE_ROOT_INLINE_DISKS);
}

fn overflow_at(
    dev: &mut MemoryDevice,
    d: &Vec<DiskDescriptorOnDisk>,
) -> Vec<DiskDescriptorOnDisk> {
    flush_disks_overflow_to_region(d, dev, 0, |runs: &Vec<SortedRun<u16, _>>| {
        let mut out = Vec::new();
        for run in runs {
            for (id, d) in &run.entries {
                assert_eq!(*id, d.disk_id);
                d.put(&mut out);
            }
        }
        Ok(out)
    })
    .unwrap();
    load_disks_overflow_from_region(dev, 0, |bytes| {
        let disks = bytes.chunks(DISK_DESCRIPTOR_ON_DISK_SIZE);
        let entries = disks
            .map(|b| DiskDescriptorOnDisk::get(b, 0))
            .map(|d| (d.disk_id, d))
            .collect();
        Ok(vec![SortedRun { entries }])
    })
    .unwrap()
}

fn overflow_back(d: &Vec<DiskDescriptorOnDisk>) -> Vec<DiskDescriptorOnDisk> {
    overflow_at(&mut MemoryDevice::new(1 << 20), d)
}

#[test]
fn disks_overflow_region_round_trip_empty_returns_empty() {
    let dev = MemoryDevice::new(4096);
    let descriptors =
        load_disks_overflow_from_region(&dev, 0, |_| panic!()).unwrap();
    assert!(descriptors.is_empty());
    assert!(overflow_back(&vec![]).is_empty());
}

#[test]
fn disks_overflow_region_round_trip_preserves_descriptors() {
    let overflow: Vec<_> = (12u16..16).map(|i| make_disk(i, &format!("/disk{i}"))).collect();
    let back = overflow_back(&overflow);
    assert_eq!(back.len(), 4);
    for (i, d) in back.iter().enumerate() {
        assert_eq!(d.disk_id, 12 + i as u16);
        assert_eq!(d.path_str().unwrap(), format!("/disk{}", 12 + i));
    }
}

#[test]
fn disks_overflow_is_sorted_by_id() {
    let mixed = vec![make_disk(14, "/b"), make_disk(12, "/x"), make_disk(14, "/a")];
    let back = overflow_back(&mixed);
    let rows: Vec<_> = back.iter().map(|d| (d.disk_id, d.path_str().unwrap())).collect();
    assert_eq!(
        rows,
        vec![(12, "/x".to_string()), (14, "/b".to_string()), (14, "/a".to_string())]
    );
}

#[test]
fn disks_overflow_region_round_trip_single_descriptor() {
    let one = vec![make_disk(13, "/disk13")];
    let back = overflow_back(&one);
    assert_eq!(back.len(), 1);
    assert_eq!(back[0].disk_id, 13);
    assert_eq!(back[0].path_str().unwrap(), "/disk13");
}

#[test]
fn disks_overflow_region_overwrite_replaces_state() {
    let first: Vec<_> = (12u16..16).map(|i| make_disk(i, &format!("/old{i}"))).collect();
    let mut dev = MemoryDevice::new(1 << 20);
    assert_eq!(overflow_at(&mut dev, &first).len(), 4);
    let second = vec![make_disk(99, "/new99")];
    let back = overflow_at(&mut dev, &second);
    assert_eq!(back.len(), 1);
    assert_eq!(back[0].disk_id, 99);
}

// ---------- manager ----------

fn entry(
    id: u16,
    path: &str,
    tier: StorageTier,
    media: MediaType,
    cap: u64,
) -> DiskConfigEntry {
    DiskConfigEntry { id, path: path.to_string(), media_type: media, tier, capacity_bytes: cap }
}

fn small_pool() -> PoolConfig {
    PoolConfig {
        node_id: 1,
        disks: vec![
            entry(0, "disk0.img", StorageTier::Hot, MediaType::NVMe, 32 * 1024 * 1024),
            entry(1, "disk1.img", StorageTier::Cold, MediaType::Hdd, 32 * 1024 * 1024),
        ],
    }
}

const DEVICE_SIZE: usize = 64 * 1024;

fn devices(n: usize) -> Vec<MemoryDevice> {
    (0..n).map(|_| MemoryDevice::new(DEVICE_SIZE)).collect()
}

fn create(cfg: PoolConfig) -> Result<PoolManager<MemoryDevice>, PoolError> {
    let n = cfg.disks.len();
    PoolManager::create(cfg, devices(n))
}

fn created() -> PoolManager<MemoryDevice> {
    create(small_pool()).unwrap()
}

/// Devices that hold what those of the pool hold.
fn devices_of(mgr: &PoolManager<MemoryDevice>) -> Vec<MemoryDevice> {
    mgr.config()
        .disks
        .iter()
        .map(|d| {
            let bytes = mgr.runtime(d.id).unwrap().device.read_at(0, DEVICE_SIZE).unwrap();
            let mut copy = MemoryDevice::new(DEVICE_SIZE);
            copy.write_at(0, &bytes).unwrap();
            copy
        })
        .collect()
}

fn superblocks_of(mgr: &PoolManager<MemoryDevice>) -> Vec<Superblock> {
    mgr.config().disks.iter().map(|d| *mgr.disk_superblock(d.id).unwrap()).collect()
}

fn open_like(
    mgr: &PoolManager<MemoryDevice>,
    cfg: PoolConfig,
) -> Result<PoolManager<MemoryDevice>, PoolError> {
    PoolManager::open(cfg, devices_of(mgr), superblocks_of(mgr))
}

fn reopen(mgr: &PoolManager<MemoryDevice>) -> PoolManager<MemoryDevice> {
    open_like(mgr, mgr.config().clone()).ok().unwrap()
}

fn third_disk() -> DiskConfigEntry {
    entry(2, "disk2.img", StorageTier::Warm, MediaType::Ssd, 16 * 1024 * 1024)
}

#[test]
fn create_then_open_round_trip() {
    let mgr = created();
    let s = mgr.status();
    assert_eq!(s.node_id, 1);
    assert_eq!(s.disk_count, 2);

    let opened = reopen(&mgr);
    let s = opened.status();
    assert_eq!(s.disk_count, 2);
    for (_, state, _, _, _, _) in &s.disks {
        assert_eq!(*state, DiskState::Online);
    }
}

#[test]
fn empty_config_rejected() {
    let cfg = PoolConfig::new(1);
    assert!(matches!(create(cfg), Err(PoolError::EmptyPool)));
    assert!(matches!(
        PoolManager::open(PoolConfig::new(1), devices(0), vec![]),
        Err(PoolError::EmptyPool)
    ));
}

#[test]
fn duplicate_disk_id_rejected() {
    let cfg = PoolConfig {
        node_id: 1,
        disks: vec![
            entry(0, "dupe.img", StorageTier::Hot, MediaType::Ssd, 8 * 1024 * 1024),
            entry(0, "dupe.img", StorageTier::Hot, MediaType::Ssd, 8 * 1024 * 1024),
        ],
    };
    assert!(matches!(create(cfg), Err(PoolError::DuplicateDiskId(0))));
}

#[test]
fn too_many_disks_rejected() {
    let cfg = PoolConfig {
        node_id: 1,
        disks: (0..13).map(|i| entry(i, "d", StorageTier::Hot, MediaType::Ssd, 1)).collect(),
    };
    assert!(matches!(
        create(cfg),
        Err(PoolError::DiskOverflowUnsupported { count: 13, max: 12 })
    ));
}

#[test]
fn add_disk_persists() {
    let mut mgr = created();
    mgr.add_disk(third_disk(), MemoryDevice::new(DEVICE_SIZE)).unwrap();
    assert_eq!(mgr.status().disk_count, 3);

    let opened = reopen(&mgr);
    assert_eq!(opened.status().disk_count, 3);
    assert!(opened.runtime(2).is_some());
    assert!(opened.runtime(3).is_none());
}

#[test]
fn known_disk_is_not_added_again() {
    let mut mgr = created();
    let again = entry(1, "other", StorageTier::Hot, MediaType::Ssd, 1);
    assert!(matches!(mgr.check_add(1), Err(PoolError::DuplicateDiskId(1))));
    assert!(matches!(
        mgr.add_disk(again, MemoryDevice::new(DEVICE_SIZE)),
        Err(PoolError::DuplicateDiskId(1))
    ));
    assert_eq!(mgr.status().disk_count, 2);
}

#[test]
fn remove_disk_marks_draining() {
    let mut mgr = created();
    mgr.remove_disk(1).unwrap();
    let s = mgr.status();
    let (_, state, _, _, _, _) = s.disks.iter().find(|(id, ..)| *id == 1).unwrap();
    assert_eq!(*state, DiskState::Draining);
}

#[test]
fn draining_survives_a_restart() {
    let mut mgr = created();
    mgr.remove_disk(1).unwrap();
    let opened = reopen(&mgr);
    assert_eq!(opened.runtime(1).unwrap().state, DiskState::Draining);
    assert_eq!(opened.runtime(0).unwrap().state, DiskState::Online);
}

#[test]
fn remove_unknown_disk_errors() {
    let mut mgr = created();
    let err = mgr.remove_disk(99).unwrap_err();
    assert!(matches!(err, PoolError::DiskNotFound(99)));
}

#[test]
fn pick_disk_respects_tier() {
    let mgr = created();
    let hot = mgr.pick_disk(StorageTier::Hot, BucketDataType::Blob);
    let cold = mgr.pick_disk(StorageTier::Cold, BucketDataType::Blob);
    assert_eq!(hot, Some(0));
    assert_eq!(cold, Some(1));
    assert_eq!(mgr.pick_disk(StorageTier::Warm, BucketDataType::Blob), None);
}

#[test]
fn pick_disk_skips_draining() {
    let mut mgr = created();
    mgr.remove_disk(0).unwrap();
    assert_eq!(mgr.pick_disk(StorageTier::Hot, BucketDataType::Blob), None);
}

#[test]
fn pick_disk_prefers_room() {
    let mut cfg = small_pool();
    cfg.disks[1].tier = StorageTier::Hot;
    cfg.disks[1].capacity_bytes = 64 * 1024 * 1024;
    let mgr = create(cfg).unwrap();
    assert_eq!(mgr.pick_disk(StorageTier::Hot, BucketDataType::Blob), Some(1));
}

#[test]
fn placement_rule_round_trip() {
    let mut mgr = created();
    let rule =
        PlacementRule::Pin { query: Query::HasTag(TagId::new(7)), tier: StorageTier::Hot };
    mgr.add_placement_rule(rule.duplicate()).unwrap();
    assert_eq!(mgr.placement_rules().len(), 1);

    let back = rules_back(mgr.placement_rules());
    assert_eq!(back, vec![rule]);
}

#[test]
fn status_tier_breakdown() {
    let mgr = created();
    let s = mgr.status();
    let hot = s.by_tier.get(&StorageTier::Hot).unwrap();
    assert_eq!(hot.disk_count, 1);
    let cold = s.by_tier.get(&StorageTier::Cold).unwrap();
    assert_eq!(cold.disk_count, 1);
    assert_eq!(cold.capacity_bytes, 32 * 1024 * 1024);
    assert_eq!(s.total_capacity, 64 * 1024 * 1024);
    assert!(s.by_tier.get(&StorageTier::Warm).is_none());
    assert!(s.faulted_disks.is_empty());
}

#[test]
fn open_with_wrong_node_id_errors() {
    let cfg = small_pool();
    let mgr = create(cfg.clone()).unwrap();

    let mut bad = cfg;
    bad.node_id = 99;
    let err = open_like(&mgr, bad).err().unwrap();
    assert!(matches!(err, PoolError::NodeIdMismatch { .. }));
    assert_eq!(err, PoolError::NodeIdMismatch { disk: 0, pool: 99, disk_says: 1 });
}

#[test]
fn open_with_wrong_disk_id_errors() {
    let mgr = created();
    let mut bad = small_pool();
    bad.disks[1].id = 5;
    let err = open_like(&mgr, bad).err().unwrap();
    assert_eq!(err, PoolError::DiskIdMismatch { expected: 5, actual: 1 });
}

#[test]
fn open_without_a_root_errors() {
    let mgr = created();
    let err = PoolManager::open(small_pool(), devices(2), superblocks_of(&mgr)).err().unwrap();
    assert!(matches!(err, PoolError::CrcMismatch { .. } | PoolError::InvalidPayload(_)));
}

#[test]
fn disk_superblock_returns_some_for_each_disk() {
    let mgr = created();
    let sb0 = mgr.disk_superblock(0).expect("primary disk superblock");
    assert_eq!(sb0.node_id(), 1);
    assert_eq!(sb0.disk_id(), 0);
    let sb1 = mgr.disk_superblock(1).expect("secondary disk superblock");
    assert_eq!(sb1.node_id(), 1);
    assert_eq!(sb1.disk_id(), 1);
}

#[test]
fn disk_superblock_unknown_returns_none() {
    let mgr = created();
    assert!(mgr.disk_superblock(99).is_none());
}

#[test]
fn disk_superblock_after_add_disk_is_present() {
    let mut mgr = created();
    mgr.add_disk(third_disk(), MemoryDevice::new(DEVICE_SIZE)).unwrap();
    let sb2 = mgr.disk_superblock(2).expect("freshly added disk superblock");
    assert_eq!(sb2.disk_id(), 2);
    assert_eq!(sb2.tier, StorageTier::Warm);
}

#[test]
fn commit_is_callable_post_create() {
    let mut mgr = created();
    mgr.commit().unwrap();
    let root =
        PoolStateRoot::read(&mgr.runtime(0).unwrap().device, POOL_STATE_ROOT_OFFSET).unwrap();
    assert_eq!(root.disk_count, 2);
}

/// A device that counts its syncs, and refuses those past a limit.
struct SyncingDevice {
    inner: MemoryDevice,
    syncs: usize,
    limit: usize,
}

impl BlockDevice for SyncingDevice {
    fn read_at(&self, offset: u64, len: usize) -> Result<Vec<u8>, StorageError> {
        self.inner.read_at(offset, len)
    }

    fn write_at(&mut self, offset: u64, bytes: &[u8]) -> Result<(), StorageError> {
        self.inner.write_at(offset, bytes)
    }

    fn sync(&mut self) -> Result<(), StorageError> {
        if self.syncs >= self.limit {
            return Err(StorageError::Device("no sync".to_string()));
        }
        self.syncs += 1;
        Ok(())
    }
}

fn syncing_pool(limit: usize) -> Result<PoolManager<SyncingDevice>, PoolError> {
    let devices = devices(2)
        .into_iter()
        .map(|inner| SyncingDevice { inner, syncs: 0, limit })
        .collect();
    PoolManager::create(small_pool(), devices)
}

#[test]
fn the_root_is_synced() {
    let mut mgr = syncing_pool(2).ok().unwrap();
    assert_eq!(mgr.runtime(0).unwrap().device.syncs, 1);
    assert_eq!(mgr.runtime(1).unwrap().device.syncs, 0);
    mgr.commit().unwrap();
    assert_eq!(mgr.runtime(0).unwrap().device.syncs, 2);
    assert!(matches!(
        mgr.commit(),
        Err(PoolError::Storage(StorageError::Device(m))) if m == "no sync"
    ));
    assert!(matches!(syncing_pool(0), Err(PoolError::Storage(StorageError::Device(_)))));
}

#[test]
fn apply_a_root() {
    let mut mgr = created();
    let mut root = PoolStateRoot::new_blank();
    let mut d = make_disk(1, "disk1.img");
    d.state = disk_state_to_u8(DiskState::Faulted);
    d.used_bytes = 4096;
    root.set_inline_disks(&vec![d]).unwrap();
    mgr.apply_pool_state_root(&root).unwrap();
    let s = mgr.status();
    assert_eq!(s.faulted_disks, vec![1]);
    assert_eq!(s.total_used, 4096);

    d.state = 250;
    root.set_inline_disks(&vec![d]).unwrap();
    assert!(matches!(
        mgr.apply_pool_state_root(&root),
        Err(PoolError::InvalidDiskState(250))
    ));
}

#[test]
fn names_of_file_systems_and_zones() {
    assert_eq!(&fs_uuid_for(0x0102, 0x0304), b"\x02\x01\x04\x03MIMIPOOL\0\0\0\0");
    let plan = format_plan(32 * 1024 * 1024);
    assert_eq!(plan.wal.offset, 65536);
    assert_eq!(plan.wal.offset + plan.wal.length, plan.index_zone.offset);
    assert_eq!(plan.blob_zone.offset + plan.blob_zone.length, 32 * 1024 * 1024);
    assert_eq!(plan.blob_zone.length, 32 * 1024 * 1024 - 9502720);
    assert_eq!(format_plan(1).blob_zone.length, 0);
}
