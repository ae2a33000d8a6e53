use mimisbrunnr::meta::backpointer::{BackpointerKey, BackpointerTable, BackpointerValue, OwnerKind};
use mimisbrunnr::meta::error::MetaError;
use mimisbrunnr::meta::location::{
    LocationHeader, ObjectLocation, ReplicaRef, LOCATION_FLAG_CHUNKED, LOCATION_HEADER_SIZE,
    OBJECT_LOCATION_SIZE,
};
use mimisbrunnr::meta::location_leaf::{
    LocationLeaf, LOCATION_LEAF_BITMAP_OFFSET, LOCATION_LEAF_RECORDS_OFFSET, LOCATION_LEAF_SIZE,
    LOCATION_LEAF_TRAILER_OFFSET,
};
use mimisbrunnr::meta::location_table::LocationTable;
use mimisbrunnr::meta::object_leaf::{
    ObjectLeaf, OBJECT_LEAF_BITMAP_OFFSET, OBJECT_LEAF_RECORDS_OFFSET, OBJECT_LEAF_SIZE,
    OBJECT_LEAF_TRAILER_OFFSET,
};
use mimisbrunnr::meta::object_table::{ObjectTable, ObjectTableKey, ObjectTableValue};
use mimisbrunnr::meta::overflow::{OverflowHeader, OVERFLOW_HEADER_SIZE, OVERFLOW_RECORD_SIZE};
use mimisbrunnr::meta::radix::{
    oid_to_radix_path, oid_to_radix_path_location, radix_path_to_oid, radix_path_to_oid_location,
    INNER_FANOUT, LEAF_RECORDS, LEAF_RECORDS_LOCATION, MAX_LEVELS,
};
use mimisbrunnr::meta::record::{
    CompressionState, EncryptionState, ObjectRecord, ObjectState, OBJECT_FLAG_CHUNKED,
    OBJECT_FLAG_HAS_OVERFLOW, OBJECT_RECORD_SIZE,
};
use mimisbrunnr::storage::block::{BlockHeader, BlockKind, BtreeKind, BtreeNodeHeader};
use mimisbrunnr::storage::device::{BlockDevice, MemoryDevice};

// ---------- backpointers ----------

#[test]
fn key_size_is_8() {
    assert_eq!(core::mem::size_of::<BackpointerKey>(), 8);
    assert_eq!(BackpointerKey::new(1, 2, 3).to_bytes().len(), 8);
}

#[test]
fn value_size_is_24() {
    assert_eq!(core::mem::size_of::<BackpointerValue>(), 24);
    assert_eq!(BackpointerValue::default().to_bytes().len(), 24);
}

#[test]
fn owner_kind_discriminants_pinned() {
    assert_eq!(OwnerKind::BlobExtent.to_u8(), 1);
    assert_eq!(OwnerKind::Chunk.to_u8(), 2);
    assert_eq!(OwnerKind::BtreeNode.to_u8(), 3);
    assert_eq!(OwnerKind::TagBitmapExtent.to_u8(), 4);
    assert_eq!(OwnerKind::OverflowRecord.to_u8(), 5);
}

#[test]
fn owner_kind_round_trip() {
    for v in [1u8, 2, 3, 4, 5] {
        assert_eq!(OwnerKind::from_u8(v).unwrap().to_u8(), v);
    }
    assert!(OwnerKind::from_u8(0).is_none());
    assert!(OwnerKind::from_u8(6).is_none());
}

#[test]
fn invalid_owner_kind_decoding_errors() {
    let v = BackpointerValue { owner_kind: 99, ..BackpointerValue::default() };
    assert!(matches!(v.owner_kind(), Err(MetaError::InvalidOwnerKind(99))));
}

#[test]
fn key_orders_by_disk_then_bucket_then_sector() {
    let a = BackpointerKey::new(1, 100, 0);
    let b = BackpointerKey::new(1, 100, 5);
    let c = BackpointerKey::new(1, 200, 0);
    let d = BackpointerKey::new(2, 0, 0);
    assert!(a < b);
    assert!(b < c);
    assert!(c < d);
    // The images sort as the keys do.
    assert!(a.to_bytes() < b.to_bytes());
    assert!(b.to_bytes() < c.to_bytes());
    assert!(c.to_bytes() < d.to_bytes());
}

fn dummy_value(kind: OwnerKind, gen_: u32) -> BackpointerValue {
    BackpointerValue {
        owner_kind: kind.to_u8(),
        length_sectors: 1,
        bucket_gen: gen_,
        ..BackpointerValue::default()
    }
}

#[test]
fn range_in_bucket_scoped_to_disk_and_bucket() {
    let mut t = BackpointerTable::new();
    t.insert(BackpointerKey::new(1, 10, 0), dummy_value(OwnerKind::BlobExtent, 1));
    t.insert(BackpointerKey::new(1, 10, 7), dummy_value(OwnerKind::BlobExtent, 1));
    t.insert(BackpointerKey::new(1, 10, u16::MAX), dummy_value(OwnerKind::BlobExtent, 1));
    t.insert(BackpointerKey::new(1, 11, 0), dummy_value(OwnerKind::Chunk, 1));
    t.insert(BackpointerKey::new(2, 10, 0), dummy_value(OwnerKind::Chunk, 1));

    let hits: Vec<_> = t.range_in_bucket(1, 10).iter().map(|(k, _)| *k).collect();
    assert_eq!(hits.len(), 3);
    for k in &hits {
        let (disk, bucket) = (k.disk_id, k.bucket_no);
        assert_eq!(disk, 1);
        assert_eq!(bucket, 10);
    }
}

#[test]
fn range_on_disk_excludes_other_disks() {
    let mut t = BackpointerTable::new();
    t.insert(BackpointerKey::new(1, 0, 0), dummy_value(OwnerKind::BlobExtent, 1));
    t.insert(BackpointerKey::new(1, 5, 9), dummy_value(OwnerKind::Chunk, 1));
    t.insert(BackpointerKey::new(3, 0, 0), dummy_value(OwnerKind::Chunk, 1));
    let hits: Vec<_> = t.range_on_disk(1).iter().map(|(k, _)| k.disk_id).collect();
    assert_eq!(hits, vec![1, 1]);
}

#[test]
fn insert_remove_get_round_trip() {
    let mut t = BackpointerTable::new();
    let k = BackpointerKey::new(7, 42, 3);
    let v = dummy_value(OwnerKind::OverflowRecord, 99);
    assert!(t.is_empty());
    t.insert(k, v);
    assert_eq!(t.len(), 1);
    let got = t.get(&k).unwrap();
    assert_eq!(got.owner_kind, OwnerKind::OverflowRecord.to_u8());
    let removed = t.remove(&k).unwrap();
    assert_eq!(removed.owner_kind, OwnerKind::OverflowRecord.to_u8());
    assert!(t.is_empty());
}

#[test]
fn value_round_trip_via_bytemuck() {
    let v = BackpointerValue {
        owner_kind: OwnerKind::BlobExtent.to_u8(),
        length_sectors: 4,
        bucket_gen: 0xdead_beef,
        owner_key: [9u8; 16],
        ..BackpointerValue::default()
    };
    let bytes = v.to_bytes();
    assert_eq!(bytes.len(), 24);
    let v2 = BackpointerValue::from_bytes(&bytes);
    assert_eq!(v2.length_sectors, 4);
    assert_eq!(v2.bucket_gen, 0xdead_beef);
    assert_eq!(v2.owner_key, [9u8; 16]);
}

#[test]
fn key_round_trip_via_bytemuck() {
    let k = BackpointerKey::new(0xabcd, 0x1234_5678, 0xaabb);
    let bytes = k.to_bytes();
    assert_eq!(bytes.len(), 8);
    let k2 = BackpointerKey::from_bytes(&bytes);
    assert_eq!(k2, k);
}

#[test]
fn backpointer_iter_is_ascending() {
    let mut t = BackpointerTable::new();
    t.insert(BackpointerKey::new(2, 0, 0), dummy_value(OwnerKind::Chunk, 1));
    t.insert(BackpointerKey::new(1, 300, 0), dummy_value(OwnerKind::Chunk, 2));
    t.insert(BackpointerKey::new(1, 2, 9), dummy_value(OwnerKind::Chunk, 3));
    let gens: Vec<u32> = t.iter().iter().map(|(_, v)| v.bucket_gen).collect();
    assert_eq!(gens, vec![3, 2, 1]);
}

// ---------- locations ----------

#[test]
fn struct_sizes_match_spec() {
    assert_eq!(core::mem::size_of::<ReplicaRef>(), 8);
    assert_eq!(core::mem::size_of::<LocationHeader>(), 16);
    assert_eq!(core::mem::size_of::<ObjectLocation>(), 48);
}

#[test]
fn parse_round_trip_zero_replicas() {
    let loc = ObjectLocation::new(0, &[]).unwrap();
    let mut buf = Vec::new();
    let written = loc.serialize_into(&mut buf);
    assert_eq!(written, LOCATION_HEADER_SIZE);
    assert_eq!(buf.len(), LOCATION_HEADER_SIZE);

    let (parsed, consumed) = ObjectLocation::parse(&buf).unwrap();
    assert_eq!(consumed, LOCATION_HEADER_SIZE);
    assert_eq!(parsed.header.replica_count, 0);
    assert_eq!(parsed.header.extent_length, 0);
    assert_eq!(parsed.active_replicas().len(), 0);
}

#[test]
fn parse_round_trip_one_replica() {
    let r = ReplicaRef { disk_id: 3, sector_offset: 17, bucket_no: 0xabcd_1234 };
    let loc = ObjectLocation::new(0x1_0000, &[r]).unwrap();
    let mut buf = Vec::new();
    let written = loc.serialize_into(&mut buf);
    assert_eq!(written, LOCATION_HEADER_SIZE + 8);

    let (parsed, consumed) = ObjectLocation::parse(&buf).unwrap();
    assert_eq!(consumed, written);
    assert_eq!(parsed.header.replica_count, 1);
    assert_eq!(parsed.header.extent_length, 0x1_0000);
    assert_eq!(parsed.active_replicas(), &[r]);
    assert_eq!(parsed.replicas[1], ReplicaRef::default());
    assert_eq!(parsed.replicas[2], ReplicaRef::default());
    assert_eq!(parsed.replicas[3], ReplicaRef::default());
}

#[test]
fn parse_round_trip_three_replicas() {
    let rs = [
        ReplicaRef { disk_id: 1, sector_offset: 0, bucket_no: 100 },
        ReplicaRef { disk_id: 2, sector_offset: 1, bucket_no: 200 },
        ReplicaRef { disk_id: 3, sector_offset: 2, bucket_no: 300 },
    ];
    let mut loc = ObjectLocation::new(0x2_0000, &rs).unwrap();
    loc.header.flags = LOCATION_FLAG_CHUNKED;
    let mut buf = Vec::new();
    let written = loc.serialize_into(&mut buf);
    assert_eq!(written, LOCATION_HEADER_SIZE + 3 * 8);

    let (parsed, consumed) = ObjectLocation::parse(&buf).unwrap();
    assert_eq!(consumed, written);
    assert_eq!(parsed.header.flags, LOCATION_FLAG_CHUNKED);
    assert_eq!(parsed.header.replica_count, 3);
    assert_eq!(parsed.active_replicas(), &rs);
    assert_eq!(parsed.replicas[3], ReplicaRef::default());
}

#[test]
fn parse_buffer_too_small_for_header() {
    let buf = [0u8; 4];
    assert!(matches!(ObjectLocation::parse(&buf), Err(MetaError::BufferTooSmall { .. })));
}

#[test]
fn parse_buffer_too_small_for_tail() {
    let mut buf = [0u8; LOCATION_HEADER_SIZE + 8];
    buf[1] = 2;
    assert!(matches!(ObjectLocation::parse(&buf), Err(MetaError::BufferTooSmall { .. })));
}

#[test]
fn parse_invalid_replica_count() {
    let mut buf = [0u8; LOCATION_HEADER_SIZE];
    buf[1] = 5;
    assert!(matches!(ObjectLocation::parse(&buf), Err(MetaError::InvalidReplicaCount(5))));
}

#[test]
fn new_rejects_too_many_replicas() {
    let too_many = [ReplicaRef::default(); 5];
    assert!(matches!(ObjectLocation::new(0, &too_many), Err(MetaError::InvalidReplicaCount(5))));
}

#[test]
fn block_no_helper_round_trips() {
    let (b, s) = ObjectLocation::block_no_to_bucket_offset(0x301, 20);
    assert_eq!(b, 3);
    assert_eq!(s, 1);
}

// ---------- location leaf ----------

fn loc(extent: u64, replicas: &[ReplicaRef]) -> ObjectLocation {
    ObjectLocation::new(extent, replicas).unwrap()
}

#[test]
fn location_leaf_leaf_layout_offsets_match_spec() {
    assert_eq!(LOCATION_LEAF_BITMAP_OFFSET, 64);
    assert_eq!(LOCATION_LEAF_TRAILER_OFFSET, 744);
    assert_eq!(LOCATION_LEAF_RECORDS_OFFSET, 776);
    assert_eq!(LOCATION_LEAF_SIZE, 256 * 1024);
    assert_eq!(
        LOCATION_LEAF_RECORDS_OFFSET + LEAF_RECORDS_LOCATION * OBJECT_LOCATION_SIZE,
        261_896
    );
}

#[test]
fn location_leaf_round_trip_empty() {
    let mut leaf = LocationLeaf::new();
    let bytes = leaf.serialise();
    assert_eq!(bytes.len(), LOCATION_LEAF_SIZE);
    let back = LocationLeaf::parse(&bytes).unwrap();
    assert_eq!(back.occupied(), 0);
}

#[test]
fn round_trip_sparse_locations() {
    let mut leaf = LocationLeaf::new();
    let r = ReplicaRef { disk_id: 0, sector_offset: 0, bucket_no: 1 };
    leaf.set(0, loc(0x100, &[r])).unwrap();
    leaf.set(1234, loc(0x4000, &[r, r])).unwrap();
    leaf.set(5439, loc(0x80000, &[r, r, r, r])).unwrap();
    let bytes = leaf.serialise();
    let back = LocationLeaf::parse(&bytes).unwrap();
    assert_eq!(back.occupied(), 3);
    for &id in &[0u64, 1234, 5439] {
        let l = back.get(id).unwrap().expect("oid round-trip");
        assert!(l.header.extent_length > 0);
    }
    assert!(back.get(2).unwrap().is_none());
}

#[test]
fn location_leaf_out_of_range_oid_is_rejected() {
    let mut leaf = LocationLeaf::new();
    let r = ReplicaRef { disk_id: 0, sector_offset: 0, bucket_no: 0 };
    let err = leaf.set(LEAF_RECORDS_LOCATION as u64, loc(0x100, &[r])).unwrap_err();
    assert!(matches!(err, MetaError::OidOutOfRange { .. }));
}

#[test]
fn location_leaf_write_then_read_round_trip_via_block_device() {
    let mut dev = MemoryDevice::new(LOCATION_LEAF_SIZE * 2);
    let r = ReplicaRef { disk_id: 1, sector_offset: 7, bucket_no: 13 };
    let mut leaf = LocationLeaf::new();
    for id in &[0u64, 1, 5, 1234, 5439] {
        leaf.set(*id, loc(0x100 * (*id + 1), &[r])).unwrap();
    }
    leaf.write(&mut dev, 0).unwrap();

    let back = LocationLeaf::read(&dev, 0).unwrap();
    assert_eq!(back.occupied(), 5);
    for id in &[0u64, 1, 5, 1234, 5439] {
        let l = back.get(*id).unwrap().expect("oid round-trip");
        let bucket = l.active_replicas()[0].bucket_no;
        assert_eq!(bucket, 13);
    }
}

#[test]
fn location_table_insert_get_remove() {
    let mut t = LocationTable::new();
    assert!(t.is_empty());
    let r = ReplicaRef { disk_id: 0, sector_offset: 0, bucket_no: 1 };
    let loc = ObjectLocation::new(0x100, &[r]).unwrap();
    t.insert(42, loc);
    assert_eq!(t.len(), 1);
    let got = t.get(42).unwrap();
    assert_eq!(got.header.replica_count, 1);
    assert_eq!(t.remove(42).unwrap().header.replica_count, 1);
    assert!(t.is_empty());
}

// ---------- object leaf ----------

fn leaf_rec(id: u64) -> ObjectRecord {
    let mut r = ObjectRecord::new(id);
    r.generation = (id & 0xff) as u32;
    r.record_version = 1;
    r.content_hash = [(id & 0xff) as u8; 32];
    r.blob_offset = id * 0x1000;
    r.blob_length = 4096;
    r.tag_count = 2;
    r
}

#[test]
fn object_leaf_leaf_layout_offsets_match_spec() {
    assert_eq!(OBJECT_LEAF_BITMAP_OFFSET, 64);
    assert_eq!(OBJECT_LEAF_TRAILER_OFFSET, 320);
    assert_eq!(OBJECT_LEAF_RECORDS_OFFSET, 352);
    assert_eq!(OBJECT_LEAF_SIZE, 256 * 1024);
    assert_eq!(OBJECT_LEAF_RECORDS_OFFSET + LEAF_RECORDS * OBJECT_RECORD_SIZE, 261_984);
}

#[test]
fn round_trip_empty_leaf() {
    let mut leaf = ObjectLeaf::new();
    let bytes = leaf.serialise();
    assert_eq!(bytes.len(), OBJECT_LEAF_SIZE);
    let back = ObjectLeaf::parse(&bytes).unwrap();
    assert_eq!(back.occupied(), 0);
}

#[test]
fn round_trip_sparse_records() {
    let mut leaf = ObjectLeaf::new();
    leaf.set(0, leaf_rec(0)).unwrap();
    leaf.set(7, leaf_rec(7)).unwrap();
    leaf.set(2043, leaf_rec(2043)).unwrap();

    let bytes = leaf.serialise();
    let back = ObjectLeaf::parse(&bytes).unwrap();
    assert_eq!(back.occupied(), 3);
    for &id in &[0u64, 7, 2043] {
        let r = back.get(id).unwrap().expect("oid must round-trip");
        assert_eq!(r.id, id);
        assert_eq!(r.content_hash, leaf_rec(id).content_hash);
    }
    assert!(back.get(1).unwrap().is_none());
    assert!(back.get(2042).unwrap().is_none());
}

#[test]
fn occupancy_bitmap_reflects_only_set_slots() {
    let mut leaf = ObjectLeaf::new();
    leaf.set(0, leaf_rec(0)).unwrap();
    leaf.set(15, leaf_rec(15)).unwrap();
    leaf.set(16, leaf_rec(16)).unwrap();
    let bytes = leaf.serialise();
    assert_eq!(bytes[OBJECT_LEAF_BITMAP_OFFSET] & 0b0000_0001, 0b0000_0001);
    assert_eq!(bytes[OBJECT_LEAF_BITMAP_OFFSET + 1] & 0b1000_0000, 0b1000_0000);
    assert_eq!(bytes[OBJECT_LEAF_BITMAP_OFFSET + 2] & 0b0000_0001, 0b0000_0001);
    assert_eq!(bytes[OBJECT_LEAF_BITMAP_OFFSET + 1] & 0b0111_1111, 0);
}

#[test]
fn record_byte_image_at_spec_offset() {
    let mut leaf = ObjectLeaf::new();
    leaf.set(5, leaf_rec(5)).unwrap();
    let bytes = leaf.serialise();
    let off = OBJECT_LEAF_RECORDS_OFFSET + 5 * OBJECT_RECORD_SIZE;
    let parsed = ObjectRecord::get(&bytes, off);
    assert_eq!(parsed.id, 5);
    assert_eq!(parsed.content_hash, leaf_rec(5).content_hash);
}

#[test]
fn object_leaf_out_of_range_oid_is_rejected() {
    let mut leaf = ObjectLeaf::new();
    let err = leaf.set(LEAF_RECORDS as u64, leaf_rec(0)).unwrap_err();
    assert!(matches!(err, MetaError::OidOutOfRange { .. }));
}

#[test]
fn clear_removes_record_and_clears_bitmap_bit() {
    let mut leaf = ObjectLeaf::new();
    leaf.set(42, leaf_rec(42)).unwrap();
    let removed = leaf.clear(42).unwrap().expect("must remove");
    assert_eq!(removed.id, 42);
    let bytes = leaf.serialise();
    assert_eq!(bytes[OBJECT_LEAF_BITMAP_OFFSET + 5] & 0b0000_0100, 0);
}

#[test]
fn iter_yields_oids_in_slot_order() {
    let mut leaf = ObjectLeaf::new();
    leaf.set(100, leaf_rec(100)).unwrap();
    leaf.set(5, leaf_rec(5)).unwrap();
    leaf.set(2000, leaf_rec(2000)).unwrap();
    let oids: Vec<u64> = leaf.iter().iter().map(|(o, _)| *o).collect();
    assert_eq!(oids, vec![5, 100, 2000]);
}

#[test]
fn parse_rejects_wrong_btree_kind() {
    let mut leaf = ObjectLeaf::new();
    let bytes = leaf.serialise();
    let mut tampered = bytes.clone();
    tampered[4] = 4;
    tampered[5] = 0;
    let err = ObjectLeaf::parse(&tampered).unwrap_err();
    assert!(matches!(err, MetaError::Storage(_)));
}

#[test]
fn read_fresh_region_returns_empty() {
    let dev = MemoryDevice::new(OBJECT_LEAF_SIZE * 2);
    let leaf = ObjectLeaf::read(&dev, 0).unwrap();
    assert_eq!(leaf.occupied(), 0);
}

#[test]
fn object_leaf_write_then_read_round_trip_via_block_device() {
    let mut dev = MemoryDevice::new(OBJECT_LEAF_SIZE * 2);
    let mut leaf = ObjectLeaf::new();
    for id in &[0u64, 1, 2, 7, 100, 2043] {
        leaf.set(*id, leaf_rec(*id)).unwrap();
    }
    leaf.write(&mut dev, 0).unwrap();

    let back = ObjectLeaf::read(&dev, 0).unwrap();
    assert_eq!(back.occupied(), 6);
    for id in &[0u64, 1, 2, 7, 100, 2043] {
        let r = back.get(*id).unwrap().expect("oid round-trip");
        assert_eq!(r.id, *id);
    }
}

#[test]
fn leaf_beyond_the_device_is_reported() {
    let mut dev = MemoryDevice::new(OBJECT_LEAF_SIZE);
    let mut leaf = ObjectLeaf::new();
    assert!(matches!(leaf.write(&mut dev, 4096), Err(MetaError::Storage(_))));
    assert!(matches!(ObjectLeaf::read(&dev, OBJECT_LEAF_SIZE as u64), Err(MetaError::Storage(_))));
}

// ---------- object table ----------

#[test]
fn object_table_insert_get_remove() {
    let mut t = ObjectTable::new();
    assert!(t.is_empty());
    let r = ObjectRecord::new(0xabcd_0000_0001_0000);
    t.insert(r);
    assert_eq!(t.len(), 1);
    let got = t.get(r.id).unwrap();
    assert_eq!(got.id, r.id);
    let removed = t.remove(r.id).unwrap();
    assert_eq!(removed.id, r.id);
    assert!(t.is_empty());
}

#[test]
fn iter_ascending() {
    let mut t = ObjectTable::new();
    t.insert(ObjectRecord::new(3));
    t.insert(ObjectRecord::new(1));
    t.insert(ObjectRecord::new(2));
    let ids: Vec<u64> = t.iter().iter().map(|(id, _)| *id).collect();
    assert_eq!(ids, vec![1, 2, 3]);
}

#[test]
fn key_orders_by_oid_then_snapshot() {
    let a = ObjectTableKey { oid: 1, snapshot: 0 };
    let b = ObjectTableKey { oid: 1, snapshot: 1 };
    let c = ObjectTableKey { oid: 2, snapshot: 0 };
    assert!(a < b);
    assert!(b < c);
}

#[test]
fn value_round_trip_via_helpers() {
    let mut r = ObjectRecord::new(0xdead_beef);
    r.generation = 7;
    r.tag_count = 3;
    r.last_modify_lsn = 42;
    let v = ObjectTableValue::from_record(&r);
    assert_eq!(v.0.len(), OBJECT_RECORD_SIZE);
    let back = v.to_record().unwrap();
    assert_eq!(back.id, r.id);
    assert_eq!(back.generation, r.generation);
    assert_eq!(back.tag_count, r.tag_count);
    assert_eq!(back.last_modify_lsn, r.last_modify_lsn);
}

#[test]
fn value_decode_rejects_wrong_size() {
    let v = ObjectTableValue(vec![0u8; 10]);
    assert!(matches!(
        v.to_record(),
        Err(MetaError::BufferTooSmall { needed: OBJECT_RECORD_SIZE, got: 10 })
    ));
}

fn rec(id: u64) -> ObjectRecord {
    let mut r = ObjectRecord::new(id);
    r.generation = (id & 0xff) as u32;
    r.record_version = 1;
    r.content_hash = [(id & 0xff) as u8; 32];
    r.blob_offset = id * 0x1000;
    r.blob_length = 4096;
    r.created_ns = 1_700_000_000_000_000_000;
    r.modified_ns = 1_700_001_000_000_000_000;
    r.tag_count = 2;
    r.attr_count = 1;
    r.relation_count = 0;
    r.inline_tags = [10, 20, 30, 40];
    r.last_modify_lsn = id;
    r
}

fn assert_record_eq(a: &ObjectRecord, b: &ObjectRecord) {
    assert_eq!(a.as_bytes(), b.as_bytes());
}

#[test]
fn empty_loaded_node_round_trip() {
    let t = ObjectTable::new();
    let node = t.to_loaded_node();
    assert_eq!(node.sorted_runs.len(), 0);
    let back = ObjectTable::from_loaded_node(&node).unwrap();
    assert!(back.is_empty());
}

#[test]
fn loaded_node_round_trip_preserves_records() {
    let mut t = ObjectTable::new();
    for i in 1u64..=10 {
        t.insert(rec(i));
    }
    let node = t.to_loaded_node();
    assert_eq!(node.sorted_runs.len(), 1);
    let back = ObjectTable::from_loaded_node(&node).unwrap();
    assert_eq!(back.len(), 10);
    for i in 1u64..=10 {
        assert_record_eq(back.get(i).unwrap(), &rec(i));
    }
}

#[test]
fn object_table_region_round_trip_empty() {
    let dev = MemoryDevice::new(1 << 20);
    let t = ObjectTable::load_from_region(&dev, 0).unwrap();
    assert!(t.is_empty());
}

#[test]
fn object_table_region_round_trip_preserves_records() {
    let mut dev = MemoryDevice::new(1 << 20);
    let mut t = ObjectTable::new();
    for i in 1u64..=50 {
        t.insert(rec(i));
    }
    t.flush_to_region(&mut dev, 0).unwrap();
    let back = ObjectTable::load_from_region(&dev, 0).unwrap();
    assert_eq!(back.len(), 50);
    for i in 1u64..=50 {
        let original = rec(i);
        let loaded = back.get(i).expect("oid missing");
        assert_record_eq(loaded, &original);
    }
}

#[test]
fn object_table_region_round_trip_single_record() {
    let mut dev = MemoryDevice::new(1 << 20);
    let mut t = ObjectTable::new();
    t.insert(rec(42));
    t.flush_to_region(&mut dev, 0).unwrap();
    let back = ObjectTable::load_from_region(&dev, 0).unwrap();
    assert_eq!(back.len(), 1);
    assert_record_eq(back.get(42).unwrap(), &rec(42));
}

#[test]
fn object_table_region_overwrite_replaces_state() {
    let mut dev = MemoryDevice::new(1 << 20);
    let mut first = ObjectTable::new();
    first.insert(rec(1));
    first.insert(rec(2));
    first.flush_to_region(&mut dev, 0).unwrap();

    let mut second = ObjectTable::new();
    second.insert(rec(99));
    second.flush_to_region(&mut dev, 0).unwrap();

    let back = ObjectTable::load_from_region(&dev, 0).unwrap();
    assert_eq!(back.len(), 1);
    assert_record_eq(back.get(99).unwrap(), &rec(99));
    assert!(back.get(1).is_none());
}

#[test]
fn object_table_region_load_kind_mismatch_fails() {
    let mut dev = MemoryDevice::new(1 << 20);
    let header = BtreeNodeHeader::new(BtreeKind::Backpointer, 1, 0, 18);
    let mut bytes = Vec::new();
    header.put(&mut bytes);
    dev.write_at(0, &bytes).unwrap();

    let err = ObjectTable::load_from_region(&dev, 0).unwrap_err();
    match err {
        MetaError::Storage(_) => {}
        other => panic!("expected MetaError::Storage, got {other:?}"),
    }
}

// ---------- overflow records ----------

#[test]
fn header_size_is_56() {
    assert_eq!(core::mem::size_of::<OverflowHeader>(), 56);
}

#[test]
fn record_size_is_4_kib() {
    assert_eq!(OVERFLOW_RECORD_SIZE, 4096);
}

#[test]
fn overflow_round_trip_via_bytemuck() {
    let hdr = OverflowHeader {
        header: BlockHeader::new(BlockKind::Overflow, 1, 4060),
        object_id: 0xdead_beef_cafe_babe,
        tag_count: 17,
        attr_count: 3,
        relation_count: 5,
        _pad: 0,
        next_overflow: 0x1234_5678,
    };
    let bytes = hdr.to_bytes();
    assert_eq!(bytes.len(), OVERFLOW_HEADER_SIZE);

    let hdr2 = OverflowHeader::from_bytes(&bytes);
    assert_eq!(hdr2.object_id, 0xdead_beef_cafe_babe);
    assert_eq!(hdr2.tag_count, 17);
    assert_eq!(hdr2.attr_count, 3);
    assert_eq!(hdr2.relation_count, 5);
    assert_eq!(hdr2.next_overflow, 0x1234_5678);
}

// ---------- radix paths ----------

#[test]
fn leaf_only_zero() {
    let p = oid_to_radix_path(0, 0).unwrap();
    assert_eq!(p.leaf_slot, 0);
    assert_eq!(p.child_path, [0, 0, 0]);
    assert_eq!(p.used_levels, 0);
}

#[test]
fn leaf_only_max() {
    let p = oid_to_radix_path(2043, 0).unwrap();
    assert_eq!(p.leaf_slot, 2043);
    assert_eq!(p.child_path, [0, 0, 0]);
    assert_eq!(p.used_levels, 0);
}

#[test]
fn first_oid_in_second_leaf() {
    let p = oid_to_radix_path(2044, 1).unwrap();
    assert_eq!(p.leaf_slot, 0);
    assert_eq!(p.child_path[0], 1);
    assert_eq!(p.used_levels, 1);
}

#[test]
fn round_trip_object_table_samples() {
    let cases: &[(u64, u8)] = &[
        (0, 0),
        (2043, 0),
        (2044, 1),
        (2044 + 17, 1),
        (2044 * (INNER_FANOUT as u64) - 1, 1),
        (2044 * (INNER_FANOUT as u64), 2),
        (123_456_789, 2),
        (1_234_567_890_123, 3),
    ];
    for (oid, lvl) in cases.iter().copied() {
        let p = oid_to_radix_path(oid, lvl).unwrap();
        let back = radix_path_to_oid(&p, lvl);
        assert_eq!(back, oid, "round-trip failed for oid={} lvl={}", oid, lvl);
    }
}

#[test]
fn round_trip_location_table_samples() {
    let cases: &[(u64, u8)] = &[
        (0, 0),
        (5439, 0),
        (5440, 1),
        (5440 * (INNER_FANOUT as u64), 2),
        (1_000_000_000_000, 3),
    ];
    for (oid, lvl) in cases.iter().copied() {
        let p = oid_to_radix_path_location(oid, lvl).unwrap();
        let back = radix_path_to_oid_location(&p, lvl);
        assert_eq!(back, oid, "location round-trip failed for oid={} lvl={}", oid, lvl);
    }
}

#[test]
fn out_of_range_at_depth_zero() {
    let r = oid_to_radix_path(LEAF_RECORDS as u64, 0);
    assert!(matches!(r, Err(MetaError::OidOutOfRange { .. })));
}

#[test]
fn out_of_range_at_depth_one() {
    let cap = (LEAF_RECORDS as u64) * (INNER_FANOUT as u64);
    let r = oid_to_radix_path(cap, 1);
    assert!(matches!(r, Err(MetaError::OidOutOfRange { .. })));
}

#[test]
fn rejects_root_level_above_max() {
    let r = oid_to_radix_path(0, (MAX_LEVELS as u8) + 1);
    assert!(matches!(r, Err(MetaError::OidOutOfRange { .. })));
}

#[test]
fn radix_path_lists_the_root_first() {
    // The second child of the root, its first child, the third slot.
    let oid = 2044 * (INNER_FANOUT as u64) + 2;
    let p = oid_to_radix_path(oid, 2).unwrap();
    assert_eq!(p.child_path[0], 1);
    assert_eq!(p.child_path[1], 0);
    assert_eq!(p.leaf_slot, 2);
    assert_eq!(p.used_levels, 2);
}

// ---------- object records ----------

#[test]
fn size_and_alignment_match_spec() {
    assert_eq!(core::mem::size_of::<ObjectRecord>(), 128);
    assert_eq!(core::mem::align_of::<ObjectRecord>(), 8);
}

/// Every field stands at its offset in the byte image.
#[test]
fn field_offsets_match_spec() {
    let blank = ObjectRecord::get(&[0u8; 128], 0);
    let first = |r: &ObjectRecord| -> usize {
        let a = blank.as_bytes();
        let b = r.as_bytes();
        (0..128).find(|i| a[*i] != b[*i]).unwrap()
    };
    let mut r = blank;
    r.id = 1;
    assert_eq!(first(&r), 0);
    r = blank;
    r.generation = 1;
    assert_eq!(first(&r), 8);
    r = blank;
    r.state = 1;
    assert_eq!(first(&r), 12);
    r = blank;
    r.flags = 1;
    assert_eq!(first(&r), 13);
    r = blank;
    r.record_version = 1;
    assert_eq!(first(&r), 14);
    r = blank;
    r.content_hash[0] = 1;
    assert_eq!(first(&r), 16);
    r = blank;
    r.blob_offset = 1;
    assert_eq!(first(&r), 48);
    r = blank;
    r.blob_length = 1;
    assert_eq!(first(&r), 56);
    r = blank;
    r.created_ns = 1;
    assert_eq!(first(&r), 64);
    r = blank;
    r.modified_ns = 1;
    assert_eq!(first(&r), 72);
    r = blank;
    r.tag_count = 1;
    assert_eq!(first(&r), 80);
    r = blank;
    r.attr_count = 1;
    assert_eq!(first(&r), 82);
    r = blank;
    r.compression = 1;
    assert_eq!(first(&r), 84);
    r = blank;
    r.encryption = 1;
    assert_eq!(first(&r), 85);
    r = blank;
    r.relation_count = 1;
    assert_eq!(first(&r), 86);
    r = blank;
    r.inline_tags[0] = 1;
    assert_eq!(first(&r), 88);
    r = blank;
    r.overflow_offset = 1;
    assert_eq!(first(&r), 104);
    r = blank;
    r.stored_size = 1;
    assert_eq!(first(&r), 112);
    r = blank;
    r.last_modify_lsn = 1;
    assert_eq!(first(&r), 120);
}

#[test]
fn record_round_trip_via_bytemuck() {
    let mut rec = ObjectRecord::new(0xabcd_0000_0001_2345);
    rec.generation = 7;
    rec.set_state(ObjectState::Active);
    rec.flags = OBJECT_FLAG_CHUNKED;
    rec.record_version = 1;
    rec.content_hash = [0xAB; 32];
    rec.blob_offset = 0x1000;
    rec.blob_length = 0x2000;
    rec.created_ns = 1_700_000_000_000_000_000;
    rec.modified_ns = 1_700_001_000_000_000_000;
    rec.tag_count = 5;
    rec.attr_count = 3;
    rec.set_compression(CompressionState::Zstd);
    rec.set_encryption(EncryptionState::Hctr2Aes128);
    rec.relation_count = 2;
    rec.inline_tags = [10, 20, 30, 40];
    rec.overflow_offset = 0x5000;
    rec.stored_size = 0x1800;
    rec.last_modify_lsn = 9_999_999;

    let bytes = rec.to_bytes();
    assert_eq!(bytes.len(), OBJECT_RECORD_SIZE);

    let rec2 = ObjectRecord::ref_from_bytes(&bytes);
    assert_eq!(rec2.id, rec.id);
    assert_eq!(rec2.generation, rec.generation);
    assert_eq!(rec2.state, rec.state);
    assert_eq!(rec2.flags, rec.flags);
    assert_eq!(rec2.record_version, rec.record_version);
    assert_eq!(rec2.content_hash, rec.content_hash);
    assert_eq!(rec2.blob_offset, rec.blob_offset);
    assert_eq!(rec2.blob_length, rec.blob_length);
    assert_eq!(rec2.created_ns, rec.created_ns);
    assert_eq!(rec2.modified_ns, rec.modified_ns);
    assert_eq!(rec2.tag_count, rec.tag_count);
    assert_eq!(rec2.attr_count, rec.attr_count);
    assert_eq!(rec2.compression, rec.compression);
    assert_eq!(rec2.encryption, rec.encryption);
    assert_eq!(rec2.relation_count, rec.relation_count);
    assert_eq!(rec2.inline_tags, rec.inline_tags);
    assert_eq!(rec2.overflow_offset, rec.overflow_offset);
    assert_eq!(rec2.stored_size, rec.stored_size);
    assert_eq!(rec2.last_modify_lsn, rec.last_modify_lsn);
}

#[test]
fn typed_state_round_trip() {
    let mut rec = ObjectRecord::new(0);
    rec.set_state(ObjectState::Active);
    assert_eq!(rec.state, 0);
    assert_eq!(rec.state().unwrap(), ObjectState::Active);

    rec.set_state(ObjectState::Tombstoned);
    assert_eq!(rec.state, 1);
    assert_eq!(rec.state().unwrap(), ObjectState::Tombstoned);
}

#[test]
fn invalid_state_discriminant_errors() {
    let mut rec = ObjectRecord::new(0);
    rec.state = 99;
    match rec.state() {
        Err(MetaError::InvalidObjectState(99)) => {}
        other => panic!("expected InvalidObjectState(99), got {:?}", other),
    }
}

#[test]
fn invalid_compression_and_encryption_discriminants() {
    let mut rec = ObjectRecord::new(0);
    rec.compression = 200;
    rec.encryption = 201;
    assert!(matches!(rec.compression(), Err(MetaError::InvalidCompressionState(200))));
    assert!(matches!(rec.encryption(), Err(MetaError::InvalidEncryptionState(201))));
}

#[test]
fn id_typed_decodes_object_id() {
    let raw: u64 = (0xabcdu64 << 48) | 0x0000_0001_2345_6789u64;
    let rec = ObjectRecord::new(raw);
    let oid = rec.id_typed();
    assert_eq!(oid.node_id(), 0xabcd);
    assert_eq!(oid.local_seq(), 0x0000_0001_2345_6789);
}

#[test]
fn flag_helpers() {
    let mut rec = ObjectRecord::new(0);
    assert!(!rec.has_overflow());
    assert!(!rec.is_chunked());
    rec.flags |= OBJECT_FLAG_HAS_OVERFLOW;
    assert!(rec.has_overflow());
    rec.flags |= OBJECT_FLAG_CHUNKED;
    assert!(rec.is_chunked());
}

#[test]
fn slice_cast_round_trip() {
    let r1 = ObjectRecord::new(1);
    let r2 = ObjectRecord::new(2);
    let mut buf = vec![0u8; OBJECT_RECORD_SIZE * 2];
    buf[..OBJECT_RECORD_SIZE].copy_from_slice(&r1.as_bytes());
    buf[OBJECT_RECORD_SIZE..].copy_from_slice(&r2.as_bytes());
    let recs = ObjectRecord::slice_from_bytes(&buf);
    assert_eq!(recs.len(), 2);
    assert_eq!(recs[0].id, 1);
    assert_eq!(recs[1].id, 2);
}
