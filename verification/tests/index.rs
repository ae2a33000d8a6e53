use mimisbrunnr::index::chunk_index::{
    ChunkHashKey, ChunkIndex, ChunkIndexLeafEntry, ChunkIndexValue, CHUNK_INDEX_VALUE_SIZE,
};
use mimisbrunnr::index::chunk_list::{
    ChunkListEntry, ChunkParamsRecord, CHUNKING_ALGO_FAST_CDC, CHUNKING_ALGO_FIXED_SIZE,
    CHUNKING_ALGO_NONE,
};
use mimisbrunnr::index::error::IndexError;
use mimisbrunnr::index::faceted::FacetedExplorer;
use mimisbrunnr::index::forward_index::{ForwardIndex, ForwardIndexKey, ForwardIndexValue};
use mimisbrunnr::index::kv_bucket::{
    KvBucketBlock, KvBucketEntry, KvBucketError, KV_BUCKET_MAX_ENTRIES,
};
use mimisbrunnr::index::kv_directory::{
    KvDirectoryBlock, KvDirectoryError, KV_DIRECTORY_BLOCK_SIZE,
};
use mimisbrunnr::index::kv_index::{KvHashBucketHeader, KvHashDirectoryHeader, KvIndex};
use mimisbrunnr::index::leaf_entry::{
    LeafEntry, LEAF_ENTRY_INLINE_SPILL_THRESHOLD, LEAF_ENTRY_SPILL_FLAG, LEAF_ENTRY_TOTAL_MASK,
};
use mimisbrunnr::index::normalised_key::{NormalisedKey, NORMALISED_KEY_LEN, TYPE_TAG_SCOPED};
use mimisbrunnr::index::overflow_chain::FORWARD_OVERFLOW_REGION_CAPACITY;
use mimisbrunnr::index::packed::{
    PackedAssertion, PACKED_ASSERTION_KIND_ATTR, PACKED_ASSERTION_KIND_RELATION,
    PACKED_ASSERTION_KIND_TAG, PACKED_ASSERTION_ORIGIN_DIRECT,
};
use mimisbrunnr::index::range_index::{RangeIndex, RangeIndexKey, RangeIndexValue};
use mimisbrunnr::index::tag_bitmap_page::{
    TagBitmapPage, TagBitmapPageError, TAG_BITMAP_PAGE_SIZE,
};
use mimisbrunnr::index::tag_index::{TagIndex, TagIndexKey, TagIndexLeafEntry, TagIndexValue};
use mimisbrunnr::index::tag_store::{TagStore, TagStoreKind};
use mimisbrunnr::index::value_hash::{sip_hash, value_hash};
use mimisbrunnr::storage::block::{BlobRef, BlockKind, BlockRef, BtreeKind};
use mimisbrunnr::storage::crc::block_crc;
use mimisbrunnr::storage::device::{BlockDevice, MemoryDevice, StorageError};
use mimisbrunnr::storage::node::SortedRun;
use mimisbrunnr::storage::region::load_node;
use mimisbrunnr::types::assertion::{Assertion, TagOrigin};
use mimisbrunnr::types::id::{ObjectId, TagId};
use mimisbrunnr::types::value::Value;
use roaring::RoaringBitmap;
use std::hash::Hasher;

fn oid(local: u64) -> ObjectId {
    ObjectId::from_parts(0, local)
}

fn t(id: u32) -> TagId {
    TagId::new(id)
}

fn tag(id: u32) -> TagId {
    TagId::new(id)
}

fn float(x: f64) -> Value {
    Value::Float(x.to_bits())
}

// ---------- chunk index ----------

fn h(byte: u8) -> [u8; 32] {
    [byte; 32]
}

fn b(no: u32) -> BlobRef {
    BlobRef { disk_id: 0, _pad: 0, block_no: no, length: 4096 }
}

const TEST_LEN: u32 = 4096;

#[test]
fn chunk_index_leaf_entry_size_is_56() {
    assert_eq!(core::mem::size_of::<ChunkIndexLeafEntry>(), 56);
}

#[test]
fn chunk_index_value_size_is_24() {
    assert_eq!(core::mem::size_of::<ChunkIndexValue>(), 24);
}

#[test]
fn insert_and_dedup_bumps_refcount() {
    let mut idx = ChunkIndex::new();
    let r1 = idx.insert_or_bump(h(1), b(100), TEST_LEN);
    let r2 = idx.insert_or_bump(h(1), b(200), 9999);
    assert_eq!(r1, r2);
    assert_eq!(idx.ref_count(&h(1)), 2);
    assert_eq!(idx.length(&h(1)), TEST_LEN);
    assert_eq!(idx.chunk_count(), 1);
}

#[test]
fn decrement_removes_when_zero() {
    let mut idx = ChunkIndex::new();
    idx.insert_or_bump(h(1), b(100), TEST_LEN);
    idx.insert_or_bump(h(1), b(100), TEST_LEN);
    assert_eq!(idx.ref_count(&h(1)), 2);
    assert!(!idx.decrement(&h(1)));
    assert_eq!(idx.ref_count(&h(1)), 1);
    assert!(idx.decrement(&h(1)));
    assert_eq!(idx.chunk_count(), 0);
}

#[test]
fn lookup_absent_returns_none() {
    let mut idx = ChunkIndex::new();
    assert!(idx.lookup(&h(99)).is_none());
    assert_eq!(idx.length(&h(99)), 0);
    assert!(!idx.decrement(&h(99)));
}

#[test]
fn entry_returns_full_triple() {
    let mut idx = ChunkIndex::new();
    idx.insert_or_bump(h(5), b(50), 2048);
    let (blob, rc, len) = idx.entry(&h(5)).unwrap();
    assert_eq!(blob, b(50));
    assert_eq!(rc, 1);
    assert_eq!(len, 2048);
}

/// Runs as bytes: their number, and for each the number of its entries and the
/// entries.
fn encode_runs<K, V>(
    runs: &[SortedRun<K, V>],
    put: impl Fn(&K, &V, &mut Vec<u8>),
) -> Result<Vec<u8>, StorageError> {
    let mut out = vec![runs.len() as u8];
    for run in runs {
        out.extend_from_slice(&(run.entries.len() as u32).to_le_bytes());
        for (k, v) in &run.entries {
            put(k, v, &mut out);
        }
    }
    Ok(out)
}

fn decode_runs<K, V>(
    bytes: Vec<u8>,
    get: impl Fn(&mut &[u8]) -> (K, V),
) -> Result<Vec<SortedRun<K, V>>, StorageError> {
    let mut rest = &bytes[..];
    let count = take(&mut rest, 1)[0];
    let mut runs = Vec::new();
    for _ in 0..count {
        let n = take_u32(&mut rest);
        runs.push(SortedRun { entries: (0..n).map(|_| get(&mut rest)).collect() });
    }
    Ok(runs)
}

fn take<'a>(rest: &mut &'a [u8], n: usize) -> &'a [u8] {
    let (head, tail) = rest.split_at(n);
    *rest = tail;
    head
}

fn take_u32(rest: &mut &[u8]) -> u32 {
    u32::from_le_bytes(take(rest, 4).try_into().unwrap())
}

fn take_vec(rest: &mut &[u8]) -> Vec<u8> {
    let n = take_u32(rest);
    take(rest, n as usize).to_vec()
}

fn put_vec(bytes: &[u8], out: &mut Vec<u8>) {
    out.extend_from_slice(&(bytes.len() as u32).to_le_bytes());
    out.extend_from_slice(bytes);
}

fn region_device() -> MemoryDevice {
    MemoryDevice::new(1 << 20)
}

fn flush_chunks(idx: &ChunkIndex, dev: &mut MemoryDevice, offset: u64) -> Result<(), IndexError> {
    idx.flush_to_region(dev, offset, |runs: &Vec<SortedRun<ChunkHashKey, ChunkIndexValue>>| {
        encode_runs(runs, |k, v, out| {
            out.extend_from_slice(k.as_bytes());
            out.extend_from_slice(&v.to_bytes());
        })
    })
}

fn load_chunks(dev: &MemoryDevice, offset: u64) -> Result<ChunkIndex, IndexError> {
    ChunkIndex::load_from_region(dev, offset, |bytes| {
        decode_runs(bytes, |rest| {
            let key = ChunkHashKey(take(rest, 32).try_into().unwrap());
            (key, ChunkIndexValue::from_bytes(take(rest, 24)))
        })
    })
}

fn chunks_at(dev: &mut MemoryDevice, offset: u64, idx: &ChunkIndex) -> ChunkIndex {
    flush_chunks(idx, dev, offset).unwrap();
    load_chunks(dev, offset).unwrap()
}

/// The index that comes back from its region.
fn chunks_back(idx: &ChunkIndex) -> ChunkIndex {
    chunks_at(&mut region_device(), 512, idx)
}

#[test]
fn region_round_trip_empty_returns_default() {
    let dev = MemoryDevice::new(4096);
    let idx = ChunkIndex::load_from_region(&dev, 0, |_| panic!()).unwrap();
    assert_eq!(idx.chunk_count(), 0);
    assert_eq!(chunks_back(&idx).chunk_count(), 0);
}

#[test]
fn region_faults() {
    let mut dev = region_device();
    let beyond = load_chunks(&dev, (1 << 20) - 7);
    assert!(matches!(beyond, Err(IndexError::Storage(StorageError::OutOfBounds { .. }))));

    let mut idx = ChunkIndex::new();
    idx.insert_or_bump(h(1), b(1), TEST_LEN);
    let failed = idx.flush_to_region(&mut dev, 0, |_: &Vec<_>| {
        Err(StorageError::Device("no".to_string()))
    });
    assert!(matches!(failed, Err(IndexError::Storage(StorageError::Device(_)))));
    assert_eq!(load_chunks(&dev, 0).unwrap().chunk_count(), 0);

    let full = idx.flush_to_region(&mut dev, 0, |_: &Vec<_>| Ok(vec![0; 258049]));
    assert_eq!(
        full.unwrap_err(),
        IndexError::Storage(StorageError::RegionFull { needed: 262145, size: 262144 })
    );

    flush_chunks(&idx, &mut dev, 0).unwrap();
    let failed = ChunkIndex::load_from_region(&dev, 0, |_| {
        Err(StorageError::Device("no".to_string()))
    });
    assert!(matches!(failed, Err(IndexError::Storage(StorageError::Device(_)))));

    dev.write_at(6, &[9]).unwrap();
    assert!(matches!(
        load_chunks(&dev, 0),
        Err(IndexError::Storage(StorageError::UnsupportedFormatVersion(9)))
    ));
    dev.write_at(4, &[200]).unwrap();
    assert!(matches!(
        load_chunks(&dev, 0),
        Err(IndexError::Storage(StorageError::InvalidBtreeKind(200)))
    ));
    dev.write_at(0, b"XYZW").unwrap();
    let err = load_chunks(&dev, 0).err().unwrap();
    assert!(matches!(
        &err,
        IndexError::Storage(StorageError::InvalidMagic { actual: [88, 89, 90, 87], .. })
    ));
    if let IndexError::Storage(e) = err {
        assert_eq!(
            e.message(),
            "invalid magic: expected [77, 73, 77, 66], got [88, 89, 90, 87]"
        );
    }
}

#[test]
fn region_round_trip_preserves_entries_refcounts_and_lengths() {
    let mut idx = ChunkIndex::new();
    for i in 1u8..=10 {
        idx.insert_or_bump(h(i), b(i as u32 * 100), i as u32 * 1024);
    }
    idx.insert_or_bump(h(3), b(300), 3 * 1024);
    idx.insert_or_bump(h(3), b(300), 3 * 1024);
    idx.insert_or_bump(h(7), b(700), 7 * 1024);

    let back = chunks_back(&idx);

    assert_eq!(back.chunk_count(), idx.chunk_count());
    for i in 1u8..=10 {
        assert_eq!(back.lookup(&h(i)), Some(b(i as u32 * 100)), "blob {i}");
        assert_eq!(back.ref_count(&h(i)), idx.ref_count(&h(i)), "rc {i}");
        assert_eq!(back.length(&h(i)), i as u32 * 1024, "len {i}");
    }
}

#[test]
fn region_round_trip_single_entry() {
    let mut idx = ChunkIndex::new();
    idx.insert_or_bump(h(42), b(4242), 8192);
    let back = chunks_back(&idx);
    assert_eq!(back.chunk_count(), 1);
    assert_eq!(back.lookup(&h(42)), Some(b(4242)));
    assert_eq!(back.ref_count(&h(42)), 1);
    assert_eq!(back.length(&h(42)), 8192);
}

#[test]
fn region_round_trip_with_shared_disk_id_value_prefix() {
    let mut idx = ChunkIndex::new();
    for i in 0u8..32 {
        idx.insert_or_bump(h(i + 1), b(i as u32 + 1), 1024);
    }
    let back = chunks_back(&idx);
    assert_eq!(back.chunk_count(), 32);
    for i in 0u8..32 {
        assert_eq!(back.lookup(&h(i + 1)), Some(b(i as u32 + 1)));
    }
}

#[test]
fn region_overwrite_replaces_state() {
    let mut dev = region_device();
    let mut first = ChunkIndex::new();
    first.insert_or_bump(h(1), b(100), TEST_LEN);
    first.insert_or_bump(h(2), b(200), TEST_LEN);
    assert_eq!(chunks_at(&mut dev, 0, &first).chunk_count(), 2);

    let mut second = ChunkIndex::new();
    second.insert_or_bump(h(9), b(900), TEST_LEN);
    let back = chunks_at(&mut dev, 0, &second);
    assert_eq!(back.chunk_count(), 1);
    assert_eq!(back.lookup(&h(9)), Some(b(900)));
    assert!(back.lookup(&h(1)).is_none());
}

#[test]
fn empty_index_round_trips_through_loaded_node() {
    let idx = ChunkIndex::new();
    let node = idx.to_loaded_node();
    assert_eq!(node.sorted_runs.len(), 0);
    let back = ChunkIndex::from_loaded_node(&node);
    assert_eq!(back.chunk_count(), 0);
}

#[test]
fn loaded_node_round_trip_preserves_all_entries() {
    let mut idx = ChunkIndex::new();
    for i in 1u8..=5 {
        idx.insert_or_bump(h(i), b(i as u32 * 10), i as u32 * 100);
    }
    idx.insert_or_bump(h(3), b(30), 300);
    idx.insert_or_bump(h(3), b(30), 300);

    let node = idx.to_loaded_node();
    assert_eq!(node.sorted_runs.len(), 1);
    assert_eq!(node.sorted_runs[0].entries.len(), 5);
    let back = ChunkIndex::from_loaded_node(&node);
    assert_eq!(back.chunk_count(), 5);
    for i in 1u8..=5 {
        assert_eq!(back.lookup(&h(i)), Some(b(i as u32 * 10)));
        assert_eq!(back.length(&h(i)), i as u32 * 100);
    }
    assert_eq!(back.ref_count(&h(3)), 3);
}

fn hash_no(i: u32) -> [u8; 32] {
    let mut hash = [0u8; 32];
    for (j, slot) in hash.iter_mut().enumerate() {
        *slot = ((i.wrapping_mul(j as u32 + 17) ^ 0xa5) & 0xff) as u8;
    }
    hash
}

#[test]
fn region_round_trip_100_random_hashes() {
    let mut idx = ChunkIndex::new();
    for i in 0u32..100 {
        idx.insert_or_bump(hash_no(i), b(i + 1), i + 1);
    }
    assert_eq!(idx.chunk_count(), 100);
    let back = chunks_back(&idx);
    assert_eq!(back.chunk_count(), 100);
    for i in 0u32..100 {
        assert_eq!(back.lookup(&hash_no(i)), Some(b(i + 1)));
        assert_eq!(back.length(&hash_no(i)), i + 1);
    }
}

#[test]
fn chunk_hash_key_packable_round_trip() {
    let mut bytes = [0u8; 32];
    for (i, slot) in bytes.iter_mut().enumerate() {
        *slot = (i * 7 + 3) as u8;
    }
    let key = ChunkHashKey(bytes);
    let fields = key.field_values();
    assert_eq!(fields.len(), 4);
    assert_eq!(fields[0], u64::from_be_bytes(bytes[..8].try_into().unwrap()));
    let recovered = ChunkHashKey::from_components(&fields).unwrap();
    assert_eq!(recovered, key);
    assert!(matches!(
        ChunkHashKey::from_components(&vec![1, 2, 3]),
        Err(IndexError::MalformedKey("ChunkHashKey: wrong field count"))
    ));
}

#[test]
fn chunk_hash_key_in_hexadecimal() {
    let mut bytes = [0u8; 32];
    bytes[0] = 0xAB;
    bytes[31] = 0x0F;
    let key = ChunkHashKey(bytes);
    let text = key.to_hex();
    assert_eq!(text.len(), 64);
    assert!(text.starts_with("ab00"));
    assert!(text.ends_with("0f"));
    assert_eq!(ChunkHashKey::from_hex(&text).unwrap(), key);
    assert_eq!(ChunkHashKey::from_hex(&text.to_uppercase()).unwrap(), key);
    assert_eq!(
        ChunkHashKey::from_hex("abc").unwrap_err(),
        IndexError::CborDecode("expected 64 hex chars, got 3".to_string())
    );
    assert_eq!(
        ChunkHashKey::from_hex(&"g".repeat(64)).unwrap_err(),
        IndexError::CborDecode("non-hex character in ChunkHashKey".to_string())
    );
}

#[test]
fn chunk_index_value_byte_image_round_trip() {
    let v = ChunkIndexValue::new(b(42), 7, 8192);
    let bytes = v.to_bytes();
    assert_eq!(bytes.len(), CHUNK_INDEX_VALUE_SIZE);
    let back = ChunkIndexValue::from_bytes(&bytes);
    assert_eq!(back, v);
    assert_eq!(back.blob_ref(), b(42));
    assert_eq!(back.ref_count(), 7);
    assert_eq!(back.length(), 8192);
    // Too few bytes read as zeros.
    assert_eq!(ChunkIndexValue::from_bytes(&bytes[..4]).ref_count(), 7);
    assert_eq!(ChunkIndexValue::from_bytes(&bytes[..4]).length(), 0);
}

#[test]
fn two_regions_at_distinct_offsets_dont_interfere() {
    let mut idx_a = ChunkIndex::new();
    idx_a.insert_or_bump(h(1), b(11), TEST_LEN);
    idx_a.insert_or_bump(h(2), b(22), TEST_LEN);
    let mut idx_b = ChunkIndex::new();
    idx_b.insert_or_bump(h(9), b(99), TEST_LEN);

    let mut dev = region_device();
    flush_chunks(&idx_a, &mut dev, 0).unwrap();
    flush_chunks(&idx_b, &mut dev, 256 * 1024).unwrap();
    let back_a = load_chunks(&dev, 0).unwrap();
    let back_b = load_chunks(&dev, 256 * 1024).unwrap();
    assert_eq!(back_a.chunk_count(), 2);
    assert_eq!(back_b.chunk_count(), 1);
    assert_eq!(back_a.lookup(&h(1)), Some(b(11)));
    assert_eq!(back_b.lookup(&h(9)), Some(b(99)));
}

// ---------- chunk lists ----------

#[test]
fn chunk_params_record_size_is_16() {
    assert_eq!(core::mem::size_of::<ChunkParamsRecord>(), 16);
}

#[test]
fn chunk_list_entry_size_is_40() {
    assert_eq!(core::mem::size_of::<ChunkListEntry>(), 40);
}

#[test]
fn chunking_algo_discriminants_pinned() {
    assert_eq!(CHUNKING_ALGO_NONE, 0);
    assert_eq!(CHUNKING_ALGO_FIXED_SIZE, 1);
    assert_eq!(CHUNKING_ALGO_FAST_CDC, 2);
}

#[test]
fn fast_cdc_record_round_trip() {
    let r = ChunkParamsRecord::fast_cdc(1024, 4096, 16384);
    let bytes = r.as_bytes();
    let parsed = ChunkParamsRecord::parse(&bytes).unwrap();
    assert_eq!(parsed.algo, CHUNKING_ALGO_FAST_CDC);
    assert_eq!(parsed.min_size, 1024);
    assert_eq!(parsed.avg_size, 4096);
    assert_eq!(parsed.max_size, 16384);
    assert_eq!(&bytes[4..8], &[0, 4, 0, 0]);
}

#[test]
fn short_chunk_params_are_refused() {
    assert!(matches!(
        ChunkParamsRecord::parse(&[0u8; 15]),
        Err(IndexError::BufferTooSmall { need: 16, have: 15 })
    ));
    assert_eq!(ChunkParamsRecord::none().max_size, 0);
    assert_eq!(ChunkParamsRecord::fixed_size(512).avg_size, 512);
}

// ---------- facets ----------

#[test]
fn facets_for_overlapping_tags() {
    let mut idx = TagIndex::new();
    for i in 1..=4u64 {
        idx.add_member(t(1), oid(i));
    }
    for i in [2u64, 3, 5] {
        idx.add_member(t(2), oid(i));
    }
    idx.add_member(t(3), oid(99));

    let mut selection = RoaringBitmap::new();
    selection.insert(2);
    selection.insert(3);

    let facets = FacetedExplorer::facets_for(&idx, &selection);
    assert_eq!(facets.len(), 2);
    assert_eq!(facets[0].count, 2);
    assert_eq!(facets[1].count, 2);
    let mut tags: Vec<u32> = facets.iter().map(|f| f.tag.raw()).collect();
    tags.sort();
    assert_eq!(tags, vec![1, 2]);
    // Equal counts: the lower tag first.
    assert_eq!(facets[0].tag, t(1));
}

#[test]
fn facets_for_empty_selection() {
    let mut idx = TagIndex::new();
    idx.add_member(t(1), oid(1));
    let selection = RoaringBitmap::new();
    let facets = FacetedExplorer::facets_for(&idx, &selection);
    assert!(facets.is_empty());
}

#[test]
fn facets_sorted_by_descending_count() {
    let mut idx = TagIndex::new();
    for i in 1..=5u64 {
        idx.add_member(t(1), oid(i));
    }
    idx.add_member(t(2), oid(1));
    idx.add_member(t(2), oid(2));
    idx.add_member(t(3), oid(1));

    let mut selection = RoaringBitmap::new();
    for i in 1..=5u32 {
        selection.insert(i);
    }
    let facets = FacetedExplorer::facets_for(&idx, &selection);
    assert_eq!(facets[0].tag, t(1));
    assert_eq!(facets[0].count, 5);
    assert_eq!(facets[1].tag, t(2));
    assert_eq!(facets[1].count, 2);
    assert_eq!(facets[2].tag, t(3));
    assert_eq!(facets[2].count, 1);
}

// ---------- forward index ----------

#[test]
fn packed_assertion_size_is_16() {
    assert_eq!(core::mem::size_of::<PackedAssertion>(), 16);
}

#[test]
fn flag_constants_match_spec() {
    assert_eq!(LEAF_ENTRY_SPILL_FLAG, 1 << 15);
    assert_eq!(LEAF_ENTRY_TOTAL_MASK, 0x7FFF);
    assert_eq!(LEAF_ENTRY_INLINE_SPILL_THRESHOLD, 8);
}

#[test]
fn packed_assertion_round_trip_tag() {
    let a = Assertion::Tag(tag(42));
    let pa = PackedAssertion::from_logical(&a, TagOrigin::Direct, 0);
    assert_eq!(pa.kind, PACKED_ASSERTION_KIND_TAG);
    assert_eq!(pa.a, 42);
    let (back, origin) = pa.to_logical(None).unwrap();
    assert_eq!(back, a);
    assert_eq!(origin, TagOrigin::Direct);
}

#[test]
fn packed_assertion_round_trip_attr() {
    let v = Value::Text("Aphex".into());
    let h = value_hash(&v, &[0u8; 16]);
    let a = Assertion::Attr { key: tag(7), value: v.clone() };
    let pa = PackedAssertion::from_logical(&a, TagOrigin::Materialized, h);
    assert_eq!(pa.kind, PACKED_ASSERTION_KIND_ATTR);
    assert_eq!(pa.a, 7);
    assert_eq!(pa.b, h);
    let (back, origin) = pa.to_logical(Some(v.clone())).unwrap();
    if let Assertion::Attr { key, value } = back {
        assert_eq!(key, tag(7));
        assert_eq!(value, v);
    } else {
        panic!("expected Attr");
    }
    assert_eq!(origin, TagOrigin::Materialized);
}

#[test]
fn packed_assertion_round_trip_relation() {
    let target = ObjectId::from_u64(0xDEAD_BEEF_CAFE_BABE);
    let a = Assertion::Relation { predicate: tag(13), target };
    let pa = PackedAssertion::from_logical(&a, TagOrigin::Direct, 0);
    assert_eq!(pa.kind, PACKED_ASSERTION_KIND_RELATION);
    assert_eq!(pa.a, 13);
    assert_eq!(pa.b, target.to_u64());
    let (back, origin) = pa.to_logical(None).unwrap();
    assert_eq!(back, a);
    assert_eq!(origin, TagOrigin::Direct);
}

#[test]
fn packed_assertion_invalid_origin() {
    let pa = PackedAssertion { kind: PACKED_ASSERTION_KIND_TAG, origin: 99, _pad: 0, a: 1, b: 0 };
    assert!(matches!(pa.origin(), Err(IndexError::InvalidAssertionOrigin(99))));
}

#[test]
fn packed_assertion_invalid_kind() {
    let pa =
        PackedAssertion { kind: 77, origin: PACKED_ASSERTION_ORIGIN_DIRECT, _pad: 0, a: 1, b: 0 };
    assert!(matches!(pa.to_logical(None), Err(IndexError::InvalidAssertionKind(77))));
}

fn build_packed_assertion_n(n: usize) -> Vec<PackedAssertion> {
    (0..n)
        .map(|i| PackedAssertion {
            kind: PACKED_ASSERTION_KIND_TAG,
            origin: PACKED_ASSERTION_ORIGIN_DIRECT,
            _pad: 0,
            a: i as u32,
            b: 0,
        })
        .collect()
}

#[test]
fn leaf_entry_inline_round_trip_n1() {
    let le = LeafEntry::inline(100, 1, build_packed_assertion_n(1)).unwrap();
    let bytes = le.serialise();
    assert_eq!(bytes.len(), le.serialised_size());
    let (parsed, used) = LeafEntry::parse(&bytes).unwrap();
    assert_eq!(used, bytes.len());
    assert_eq!(parsed, le);
    assert!(!parsed.is_spill());
    assert_eq!(parsed.total(), 1);
}

#[test]
fn leaf_entry_inline_round_trip_n4() {
    let le = LeafEntry::inline(101, 7, build_packed_assertion_n(4)).unwrap();
    let bytes = le.serialise();
    let (parsed, _) = LeafEntry::parse(&bytes).unwrap();
    assert_eq!(parsed, le);
    assert_eq!(parsed.total(), 4);
}

#[test]
fn leaf_entry_inline_round_trip_n8() {
    let le = LeafEntry::inline(102, 0, build_packed_assertion_n(8)).unwrap();
    let bytes = le.serialise();
    let (parsed, _) = LeafEntry::parse(&bytes).unwrap();
    assert_eq!(parsed, le);
    assert_eq!(parsed.total(), 8);
}

#[test]
fn leaf_entry_spill_round_trip() {
    let blob = BlobRef { disk_id: 1, _pad: 0, block_no: 1234, length: 4096 };
    let le = LeafEntry::spill(200, 0, 1234, blob).unwrap();
    let bytes = le.serialise();
    let (parsed, _) = LeafEntry::parse(&bytes).unwrap();
    assert_eq!(parsed, le);
    assert!(parsed.is_spill());
    assert_eq!(parsed.total(), 1234);
}

#[test]
fn leaf_entry_bounds() {
    assert!(matches!(
        LeafEntry::spill(1, 0, 0x8000, b(1)),
        Err(IndexError::AssertionCountOverflow { count: 0x8000 })
    ));
    let bytes = LeafEntry::inline(1, 0, build_packed_assertion_n(2)).unwrap().serialise();
    assert!(matches!(LeafEntry::parse(&bytes[..13]), Err(IndexError::BufferTooSmall { .. })));
    assert!(matches!(LeafEntry::parse(&bytes[..40]), Err(IndexError::BufferTooSmall { .. })));
}

#[test]
fn forward_index_add_and_query() {
    let mut fi = ForwardIndex::new();
    fi.add_assertion(oid(1), Assertion::Tag(tag(10)), TagOrigin::Direct);
    fi.add_assertion(oid(1), Assertion::Tag(tag(20)), TagOrigin::Materialized);
    assert_eq!(fi.assertions_of(oid(1)).len(), 2);
    assert_eq!(fi.direct_tags(oid(1)), vec![tag(10)]);
    assert_eq!(fi.materialized_tags(oid(1)), vec![tag(20)]);
}

#[test]
fn forward_index_would_spill_at_threshold_plus_one() {
    let mut fi = ForwardIndex::new();
    for i in 0..LEAF_ENTRY_INLINE_SPILL_THRESHOLD as u32 {
        fi.add_assertion(oid(1), Assertion::Tag(tag(i)), TagOrigin::Direct);
    }
    assert!(!fi.would_spill(oid(1)));
    fi.add_assertion(oid(1), Assertion::Tag(tag(99)), TagOrigin::Direct);
    assert!(fi.would_spill(oid(1)));
}

/// Whether an attribute, the tag, the value, and whether materialised.
type PlainAssertion = (bool, u32, i64, bool);

fn plain_entries(fi: &ForwardIndex) -> Vec<(u64, Vec<PlainAssertion>)> {
    let plain = |(assertion, origin): &(Assertion, TagOrigin)| {
        let materialised = *origin == TagOrigin::Materialized;
        match assertion {
            Assertion::Tag(t) => (false, t.raw(), 0, materialised),
            Assertion::Attr { key, value: Value::Int(i) } => (true, key.raw(), *i, materialised),
            other => panic!("{other:?}"),
        }
    };
    fi.iter().into_iter().map(|(o, l)| (o.to_u64(), l.iter().map(plain).collect())).collect()
}

fn forward_of(plain: Vec<(u64, Vec<PlainAssertion>)>) -> ForwardIndex {
    let assertion = |(attr, id, value, materialised): PlainAssertion| {
        let a = if attr {
            Assertion::Attr { key: tag(id), value: Value::Int(value) }
        } else {
            Assertion::Tag(tag(id))
        };
        (a, if materialised { TagOrigin::Materialized } else { TagOrigin::Direct })
    };
    let entries =
        plain.into_iter().map(|(o, l)| (o, l.into_iter().map(assertion).collect())).collect();
    ForwardIndex::from_entries(&entries)
}

#[test]
fn forward_index_of_entries() {
    let one = |id| vec![(Assertion::Tag(tag(id)), TagOrigin::Direct)];
    let fi = ForwardIndex::from_entries(&vec![(7, one(1)), (3, vec![]), (7, one(2))]);
    assert_eq!(fi.object_count(), 2);
    assert_eq!(fi.assertions_of(ObjectId::from_u64(7)), one(2));
    assert!(fi.assertions_of(ObjectId::from_u64(3)).is_empty());
}

#[test]
fn forward_index_cbor_round_trip() {
    let mut fi = ForwardIndex::new();
    fi.add_assertion(oid(1), Assertion::Tag(tag(10)), TagOrigin::Direct);
    fi.add_assertion(
        oid(2),
        Assertion::Attr { key: tag(5), value: Value::Int(42) },
        TagOrigin::Materialized,
    );
    let mut bytes = Vec::new();
    ciborium::ser::into_writer(&plain_entries(&fi), &mut bytes).unwrap();
    let plain: Vec<(u64, Vec<PlainAssertion>)> =
        ciborium::de::from_reader(bytes.as_slice()).unwrap();
    let back = forward_of(plain);
    assert_eq!(back.assertions_of(oid(1)).len(), 1);
    assert_eq!(back.assertions_of(oid(2)).len(), 1);
    assert_eq!(back.assertions_of(oid(2)), fi.assertions_of(oid(2)));
}

#[test]
fn forward_index_iter_yields_all_pairs() {
    let mut fi = ForwardIndex::new();
    fi.add_assertion(oid(1), Assertion::Tag(tag(10)), TagOrigin::Direct);
    fi.add_assertion(oid(1), Assertion::Tag(tag(11)), TagOrigin::Direct);
    fi.add_assertion(oid(2), Assertion::Tag(tag(20)), TagOrigin::Direct);
    fi.add_assertion(oid(2), Assertion::Tag(tag(21)), TagOrigin::Materialized);
    fi.add_assertion(oid(3), Assertion::Tag(tag(30)), TagOrigin::Direct);
    fi.add_assertion(oid(3), Assertion::Tag(tag(31)), TagOrigin::Materialized);

    let mut total_pairs = 0usize;
    let mut seen_oids = std::collections::HashSet::new();
    for (o, asserts) in fi.iter() {
        seen_oids.insert(o.to_u64());
        total_pairs += asserts.len();
    }
    assert_eq!(total_pairs, 6);
    assert_eq!(seen_oids.len(), 3);
    assert!(seen_oids.contains(&oid(1).to_u64()));
    assert!(seen_oids.contains(&oid(2).to_u64()));
    assert!(seen_oids.contains(&oid(3).to_u64()));
}

#[test]
fn forward_index_remove_assertion_and_object() {
    let mut fi = ForwardIndex::new();
    fi.add_assertion(oid(1), Assertion::Tag(tag(10)), TagOrigin::Direct);
    fi.add_assertion(oid(1), Assertion::Tag(tag(20)), TagOrigin::Direct);
    assert!(fi.remove_assertion(oid(1), &Assertion::Tag(tag(10))));
    assert_eq!(fi.assertions_of(oid(1)).len(), 1);
    let removed = fi.remove_object(oid(1));
    assert_eq!(removed.len(), 1);
    assert_eq!(fi.object_count(), 0);
}

#[test]
fn removal_moves_the_last_assertion_up() {
    let mut fi = ForwardIndex::new();
    for i in 1..=3 {
        fi.add_assertion(oid(1), Assertion::Tag(tag(i)), TagOrigin::Direct);
    }
    assert!(fi.remove_assertion(oid(1), &Assertion::Tag(tag(1))));
    assert_eq!(fi.direct_tags(oid(1)), vec![tag(3), tag(2)]);
    assert!(!fi.remove_assertion(oid(1), &Assertion::Tag(tag(9))));
    assert!(fi.remove_assertion(oid(1), &Assertion::Tag(tag(2))));
    assert!(fi.remove_assertion(oid(1), &Assertion::Tag(tag(3))));
    assert_eq!(fi.object_count(), 0);
}

#[test]
fn added_assertion_is_removed_again() {
    let mut fi = ForwardIndex::new();
    for i in 1..=3 {
        fi.add_assertion(oid(1), Assertion::Tag(tag(i)), TagOrigin::Direct);
    }
    let before = fi.assertions_of(oid(1));
    fi.add_assertion(oid(1), Assertion::Tag(tag(9)), TagOrigin::Materialized);
    assert!(fi.remove_assertion(oid(1), &Assertion::Tag(tag(9))));
    assert_eq!(fi.assertions_of(oid(1)), before);
    // What is not a number is equal to nothing, and so is never found.
    let nan = Assertion::Attr { key: tag(5), value: float(f64::NAN) };
    fi.add_assertion(oid(2), nan.clone(), TagOrigin::Direct);
    assert!(!fi.remove_assertion(oid(2), &nan));
}

const TEST_OVERFLOW_AREA_OFFSET: u64 = 256 * 1024;
const TEST_OVERFLOW_AREA_REGIONS: usize = 8;

fn forward_device() -> MemoryDevice {
    MemoryDevice::new(8 << 20)
}

fn flush_forward(idx: &ForwardIndex, dev: &mut MemoryDevice) -> Result<usize, IndexError> {
    flush_forward_at(idx, dev, TEST_OVERFLOW_AREA_OFFSET, TEST_OVERFLOW_AREA_REGIONS)
}

fn flush_forward_at(
    idx: &ForwardIndex,
    dev: &mut MemoryDevice,
    area: u64,
    cap: usize,
) -> Result<usize, IndexError> {
    idx.flush_to_region(
        dev,
        0,
        area,
        cap,
        |runs: &Vec<SortedRun<ForwardIndexKey, ForwardIndexValue>>| {
            encode_runs(runs, |k, v, out| {
                out.extend_from_slice(&k.oid.to_le_bytes());
                out.extend_from_slice(&k.snapshot.to_le_bytes());
                put_vec(&v.0, out);
            })
        },
    )
}

fn decode_forward(
    bytes: Vec<u8>,
) -> Result<Vec<SortedRun<ForwardIndexKey, ForwardIndexValue>>, StorageError> {
    decode_runs(bytes, |rest| {
        let oid = u64::from_le_bytes(take(rest, 8).try_into().unwrap());
        let snapshot = take_u32(rest);
        (ForwardIndexKey { oid, snapshot }, ForwardIndexValue(take_vec(rest)))
    })
}

fn load_forward(dev: &MemoryDevice) -> Result<ForwardIndex, IndexError> {
    ForwardIndex::load_from_region(dev, 0, decode_forward)
}

#[test]
fn forward_region_round_trip_empty_returns_default() {
    let mut dev = forward_device();
    let idx = ForwardIndex::load_from_region(&dev, 0, |_| panic!()).unwrap();
    assert_eq!(idx.object_count(), 0);
    let pages = flush_forward(&ForwardIndex::new(), &mut dev).unwrap();
    assert_eq!(pages, 0);
    let idx = load_forward(&dev).unwrap();
    assert_eq!(idx.object_count(), 0);
}

#[test]
fn forward_region_round_trip_inline_only() {
    let mut dev = forward_device();
    let mut fi = ForwardIndex::new();
    fi.add_assertion(oid(1), Assertion::Tag(tag(10)), TagOrigin::Direct);
    fi.add_assertion(oid(1), Assertion::Tag(tag(11)), TagOrigin::Materialized);
    fi.add_assertion(
        oid(2),
        Assertion::Attr { key: tag(7), value: Value::Text("Aphex".into()) },
        TagOrigin::Direct,
    );
    fi.add_assertion(
        oid(3),
        Assertion::Relation { predicate: tag(99), target: oid(42) },
        TagOrigin::Direct,
    );

    let pages = flush_forward(&fi, &mut dev).unwrap();
    assert_eq!(pages, 0, "no spills for inline-only fixture");
    let back = load_forward(&dev).unwrap();

    assert_eq!(back.object_count(), 3);
    let a1 = back.assertions_of(oid(1));
    assert_eq!(a1.len(), 2);
    assert_eq!(back.direct_tags(oid(1)), vec![tag(10)]);
    assert_eq!(back.materialized_tags(oid(1)), vec![tag(11)]);
    let a2 = back.assertions_of(oid(2));
    assert_eq!(a2.len(), 1);
    assert!(matches!(&a2[0].0, Assertion::Attr { .. }));
    let a3 = back.assertions_of(oid(3));
    assert_eq!(a3.len(), 1);
    if let Assertion::Relation { predicate, target } = &a3[0].0 {
        assert_eq!(*predicate, tag(99));
        assert_eq!(*target, oid(42));
    } else {
        panic!("expected Relation");
    }
}

#[test]
fn forward_region_round_trip_single_object() {
    let mut dev = forward_device();
    let mut fi = ForwardIndex::new();
    fi.add_assertion(oid(7), Assertion::Tag(tag(700)), TagOrigin::Direct);
    let pages = flush_forward(&fi, &mut dev).unwrap();
    assert_eq!(pages, 0);
    let back = load_forward(&dev).unwrap();
    assert_eq!(back.object_count(), 1);
    assert_eq!(back.direct_tags(oid(7)), vec![tag(700)]);
}

#[test]
fn forward_region_round_trip_with_spill() {
    let mut dev = forward_device();
    let mut fi = ForwardIndex::new();
    for i in 0u32..9 {
        fi.add_assertion(oid(1), Assertion::Tag(tag(i)), TagOrigin::Direct);
    }
    let pages = flush_forward(&fi, &mut dev).unwrap();
    assert_eq!(pages, 1, "exactly one overflow region for 9 assertions");
    let back = load_forward(&dev).unwrap();
    assert_eq!(back.assertions_of(oid(1)).len(), 9);
    for i in 0u32..9 {
        assert!(
            back.assertions_of(oid(1))
                .iter()
                .any(|(a, _)| matches!(a, Assertion::Tag(t) if t.raw() == i)),
            "tag {i} missing after spill round-trip",
        );
    }
}

#[test]
fn forward_region_round_trip_multi_region_chain() {
    let mut dev = forward_device();
    let mut fi = ForwardIndex::new();
    let n = FORWARD_OVERFLOW_REGION_CAPACITY + 5;
    for i in 0u64..n as u64 {
        fi.add_assertion(
            oid(1),
            Assertion::Relation { predicate: tag(1), target: oid(i) },
            TagOrigin::Direct,
        );
    }
    let pages = flush_forward(&fi, &mut dev).unwrap();
    assert_eq!(pages, 2, "two overflow regions for the chain");
    let back = load_forward(&dev).unwrap();
    assert_eq!(back.assertions_of(oid(1)).len(), n);
    let asserts = back.assertions_of(oid(1));
    let last_target = asserts.last().unwrap();
    if let (Assertion::Relation { target, .. }, _) = last_target {
        assert_eq!(target.to_u64(), oid(n as u64 - 1).to_u64());
    } else {
        panic!("expected Relation");
    }
}

#[test]
fn forward_region_overwrite_replaces_state() {
    let mut dev = forward_device();
    let mut first = ForwardIndex::new();
    first.add_assertion(oid(1), Assertion::Tag(tag(10)), TagOrigin::Direct);
    first.add_assertion(oid(2), Assertion::Tag(tag(20)), TagOrigin::Direct);
    flush_forward(&first, &mut dev).unwrap();

    let mut second = ForwardIndex::new();
    second.add_assertion(oid(9), Assertion::Tag(tag(900)), TagOrigin::Direct);
    flush_forward(&second, &mut dev).unwrap();

    let back = load_forward(&dev).unwrap();
    assert_eq!(back.object_count(), 1);
    assert_eq!(back.direct_tags(oid(9)), vec![tag(900)]);
    assert!(back.assertions_of(oid(1)).is_empty());
}

#[test]
fn forward_region_kind_mismatch_detected() {
    let mut dev = forward_device();
    let mut fi = ForwardIndex::new();
    fi.add_assertion(oid(1), Assertion::Tag(tag(10)), TagOrigin::Direct);
    flush_forward(&fi, &mut dev).unwrap();
    let res = load_node(&dev, 0, Some(BtreeKind::Range), decode_forward);
    assert!(res.is_err());
    assert!(load_node(&dev, 0, Some(BtreeKind::Forward), decode_forward).is_ok());
}

#[test]
fn forward_region_round_trip_50_objects() {
    let mut dev = forward_device();
    let mut fi = ForwardIndex::new();
    for i in 0u64..50 {
        fi.add_assertion(oid(i), Assertion::Tag(tag(i as u32)), TagOrigin::Direct);
        fi.add_assertion(
            oid(i),
            Assertion::Attr { key: tag(i as u32 + 1000), value: Value::Int(i as i64 * 7) },
            TagOrigin::Materialized,
        );
    }
    flush_forward(&fi, &mut dev).unwrap();
    let back = load_forward(&dev).unwrap();
    assert_eq!(back.object_count(), 50);
    for i in 0u64..50 {
        assert_eq!(back.assertions_of(oid(i)).len(), 2);
    }
}

#[test]
fn flushed_attributes_come_back_with_the_value_zero() {
    let mut dev = forward_device();
    let mut fi = ForwardIndex::new();
    fi.add_assertion(
        oid(1),
        Assertion::Attr { key: tag(3), value: Value::Text("x".into()) },
        TagOrigin::Direct,
    );
    flush_forward(&fi, &mut dev).unwrap();
    let back = load_forward(&dev).unwrap();
    assert_eq!(
        back.assertions_of(oid(1)),
        vec![(Assertion::Attr { key: tag(3), value: Value::Int(0) }, TagOrigin::Direct)]
    );
}

#[test]
fn inline_threshold_boundary() {
    let mut dev = forward_device();
    let mut fi = ForwardIndex::new();
    for i in 0u32..LEAF_ENTRY_INLINE_SPILL_THRESHOLD as u32 {
        fi.add_assertion(oid(1), Assertion::Tag(tag(i)), TagOrigin::Direct);
    }
    let pages = flush_forward(&fi, &mut dev).unwrap();
    assert_eq!(pages, 0, "exactly threshold: no spill");

    let mut fi2 = ForwardIndex::new();
    for i in 0u32..(LEAF_ENTRY_INLINE_SPILL_THRESHOLD + 1) as u32 {
        fi2.add_assertion(oid(1), Assertion::Tag(tag(i)), TagOrigin::Direct);
    }
    let pages = flush_forward(&fi2, &mut dev).unwrap();
    assert_eq!(pages, 1, "threshold + 1: spill to one region");
}

#[test]
fn corrupt_chain_detected() {
    let mut dev = forward_device();
    let mut fi = ForwardIndex::new();
    for i in 0u32..9 {
        fi.add_assertion(oid(1), Assertion::Tag(tag(i)), TagOrigin::Direct);
    }
    flush_forward(&fi, &mut dev).unwrap();

    let zero = [0u8; 8];
    dev.write_at(TEST_OVERFLOW_AREA_OFFSET, &zero).unwrap();
    let err = load_forward(&dev).unwrap_err();
    assert!(matches!(
        err,
        IndexError::Storage(_)
            | IndexError::CorruptOverflowChain(_)
            | IndexError::BufferTooSmall { .. }
    ));
}

#[test]
fn overflow_area_exhausted_errors() {
    let mut dev = forward_device();
    let mut fi = ForwardIndex::new();
    for o in 0u64..(TEST_OVERFLOW_AREA_REGIONS as u64 + 1) {
        for i in 0u32..9 {
            fi.add_assertion(oid(o), Assertion::Tag(tag(i)), TagOrigin::Direct);
        }
    }
    let err = flush_forward(&fi, &mut dev).err().unwrap();
    assert!(matches!(err, IndexError::OverflowAreaExhausted { .. }));
}

#[test]
fn forward_keys_have_two_components() {
    let k = ForwardIndexKey { oid: 7, snapshot: 3 };
    assert_eq!(k.field_values(), vec![7, 3]);
    assert_eq!(ForwardIndexKey::from_components(&vec![7, 3]).unwrap(), k);
    assert!(matches!(
        ForwardIndexKey::from_components(&vec![7]),
        Err(IndexError::MalformedKey("ForwardIndexKey: wrong field count"))
    ));
    assert!(matches!(
        ForwardIndexKey::from_components(&vec![7, 1 << 32]),
        Err(IndexError::MalformedKey("ForwardIndexKey: snapshot overflow"))
    ));
}

// ---------- hash buckets ----------

#[test]
fn kv_bucket_block_size_is_4096() {
    assert_eq!(KvBucketBlock::new(0).to_bytes().len(), 4096);
}

#[test]
fn entry_size_is_28() {
    let e = KvBucketEntry { tag_id: 1, value_hash: 2, bitmap_ref: BlockRef::default() };
    let mut out = Vec::new();
    e.put(&mut out);
    assert_eq!(out.len(), 28);
}

fn block_ref(block_no: u32) -> BlockRef {
    BlockRef { disk_id: 0, _pad: 0, block_no, generation: 1 }
}

#[test]
fn upsert_then_lookup() {
    let mut b = KvBucketBlock::new(3);
    let r = block_ref(100);
    b.upsert(7, 0xdeadbeef, r).unwrap();
    b.upsert(7, 0xbaadf00d, r).unwrap();
    assert_eq!(b.len(), 2);
    let got = b.lookup(7, 0xdeadbeef).unwrap();
    assert_eq!(got.block_no, 100);
    assert!(b.lookup(7, 0xc0ffee).is_none());
}

#[test]
fn upsert_replaces_in_place() {
    let mut b = KvBucketBlock::new(0);
    b.upsert(1, 0x1, block_ref(1)).unwrap();
    b.upsert(1, 0x1, block_ref(2)).unwrap();
    assert_eq!(b.len(), 1);
    assert_eq!(b.lookup(1, 0x1).unwrap().block_no, 2);
}

#[test]
fn fills_at_capacity_then_errors() {
    let mut b = KvBucketBlock::new(0);
    let r = BlockRef::default();
    assert!(b.is_empty());
    for i in 0..KV_BUCKET_MAX_ENTRIES as u64 {
        b.upsert(0, i, r).unwrap();
    }
    assert!(b.is_full());
    let err = b.upsert(0, KV_BUCKET_MAX_ENTRIES as u64, r).unwrap_err();
    assert!(matches!(err, KvBucketError::BucketFull));
    assert_eq!(b.iter().len(), KV_BUCKET_MAX_ENTRIES);
}

#[test]
fn kv_bucket_round_trip_via_block_device() {
    let mut dev = MemoryDevice::new(1 << 20);
    let mut b = KvBucketBlock::new(2);
    let r = BlockRef { disk_id: 1, _pad: 0, block_no: 4242, generation: 13 };
    b.upsert(99, 0xfeed, r).unwrap();
    b.upsert(100, 0xbeef, r).unwrap();
    b.write(&mut dev, 0).unwrap();

    let back = KvBucketBlock::read(&dev, 0).unwrap();
    assert_eq!(back.len(), 2);
    assert_eq!(back.lookup(99, 0xfeed).unwrap().block_no, 4242);
}

#[test]
fn kv_bucket_over_capacity_rejected() {
    let mut dev = MemoryDevice::new(4096);
    let mut b = KvBucketBlock::new(0);
    b.entry_count = 145;
    b.write(&mut dev, 0).unwrap();
    assert!(matches!(KvBucketBlock::read(&dev, 0), Err(KvBucketError::OverCapacity(145))));
    assert!(matches!(
        KvBucketBlock::read(&dev, 1),
        Err(KvBucketError::CrcMismatch { expected: 0, actual: 0 })
    ));
}

// ---------- hash directory ----------

#[test]
fn kv_directory_block_size_is_4096() {
    assert_eq!(KvDirectoryBlock::new(0).unwrap().to_bytes().len(), 4096);
}

#[test]
fn new_at_depth_zero_has_one_bucket() {
    let dir = KvDirectoryBlock::new(0).unwrap();
    assert_eq!(dir.count(), 1);
    assert_eq!(dir.global_depth, 0);
}

#[test]
fn new_at_depth_seven_has_128_buckets() {
    let dir = KvDirectoryBlock::new(7).unwrap();
    assert_eq!(dir.count(), 128);
}

#[test]
fn depth_above_seven_rejected_under_r1c() {
    let err = KvDirectoryBlock::new(8).unwrap_err();
    assert!(matches!(err, KvDirectoryError::SpilloverUnsupported(8)));
}

#[test]
fn kv_directory_round_trip_via_block_device() {
    let mut dev = MemoryDevice::new(1 << 20);
    let mut block = KvDirectoryBlock::new(3).unwrap();
    let r = BlockRef { disk_id: 0, _pad: 0, block_no: 42, generation: 7 };
    block.set_entry(0, r);
    block.set_entry(7, r);
    block.write(&mut dev, 0).unwrap();

    let back = KvDirectoryBlock::read(&dev, 0).unwrap();
    assert_eq!(back.count(), 8);
    let e0 = back.get_entry(0);
    assert_eq!(e0.block_no, 42);
    assert_eq!(e0.generation, 7);
    let e7 = back.get_entry(7);
    assert_eq!(e7.block_no, 42);
    let e1 = back.get_entry(1);
    assert_eq!(e1.block_no, 0);
    // Beyond the count there is nothing.
    let mut more = back;
    more.set_entry(8, r);
    assert_eq!(more.get_entry(8), BlockRef::default());
}

#[test]
fn kv_directory_corrupted_crc_rejected() {
    let mut dev = MemoryDevice::new(1 << 20);
    let mut block = KvDirectoryBlock::new(2).unwrap();
    block.write(&mut dev, 0).unwrap();

    let mut buf = dev.read_at(0, KV_DIRECTORY_BLOCK_SIZE).unwrap();
    buf[40] ^= 0xFF;
    dev.write_at(0, &buf).unwrap();

    let err = KvDirectoryBlock::read(&dev, 0).unwrap_err();
    assert!(matches!(err, KvDirectoryError::CrcMismatch { .. }));
}

#[test]
fn kv_directory_wrong_block_kind_rejected() {
    let mut dev = MemoryDevice::new(1 << 20);
    let mut block = KvDirectoryBlock::new(0).unwrap();
    block.write(&mut dev, 0).unwrap();

    let mut buf = dev.read_at(0, KV_DIRECTORY_BLOCK_SIZE).unwrap();
    buf[4] = BlockKind::KvHashBucket.code() as u8;
    buf[5] = 0;
    let new_crc = block_crc(&buf, 0, 4092);
    buf[4092..4096].copy_from_slice(&new_crc.to_le_bytes());
    dev.write_at(0, &buf).unwrap();

    let err = KvDirectoryBlock::read(&dev, 0).unwrap_err();
    assert!(matches!(err, KvDirectoryError::InvalidBlockKind(_)));
}

#[test]
fn kv_directory_faults_in_order() {
    let mut dev = MemoryDevice::new(4096);
    let mut block = KvDirectoryBlock::new(1).unwrap();
    block.bucket_count = 3;
    block.write(&mut dev, 0).unwrap();
    assert!(matches!(
        KvDirectoryBlock::read(&dev, 0),
        Err(KvDirectoryError::InconsistentBucketCount { got: 3, expected: 2 })
    ));
    block.global_depth = 9;
    block.write(&mut dev, 0).unwrap();
    assert!(matches!(
        KvDirectoryBlock::read(&dev, 0),
        Err(KvDirectoryError::SpilloverUnsupported(9))
    ));
    block.header.pre.format_version = 2;
    block.write(&mut dev, 0).unwrap();
    assert!(matches!(
        KvDirectoryBlock::read(&dev, 0),
        Err(KvDirectoryError::InvalidFormatVersion(2))
    ));
    block.header.pre.magic = [1, 2, 3, 4];
    block.write(&mut dev, 0).unwrap();
    assert!(matches!(
        KvDirectoryBlock::read(&dev, 0),
        Err(KvDirectoryError::InvalidMagic { actual: [1, 2, 3, 4] })
    ));
}

#[test]
fn crc32c_check_value() {
    assert_eq!(block_crc(b"123456789", 0, 9), 0xE306_9283);
}

// ---------- equality index ----------

#[test]
fn directory_header_size_is_8() {
    assert_eq!(core::mem::size_of::<KvHashDirectoryHeader>(), 8);
}

#[test]
fn bucket_header_size_is_4() {
    assert_eq!(core::mem::size_of::<KvHashBucketHeader>(), 4);
}

#[test]
fn lookup_same_value_form_independent() {
    let mut idx = KvIndex::new();
    let v1 = Value::Int(42);
    let v2 = Value::Int(42);
    idx.insert(t(1), &v1, 100);
    idx.insert(t(1), &v1, 200);
    let r1 = idx.lookup(t(1), &v1);
    let r2 = idx.lookup(t(1), &v2);
    assert_eq!(r1, r2);
    assert_eq!(r1.len(), 2);
}

#[test]
fn lookup_distinguishes_int_and_text_42() {
    let mut idx = KvIndex::new();
    idx.insert(t(1), &Value::Int(42), 100);
    idx.insert(t(1), &Value::Text("42".into()), 200);
    let int_hits = idx.lookup(t(1), &Value::Int(42));
    let text_hits = idx.lookup(t(1), &Value::Text("42".into()));
    assert_eq!(int_hits.len(), 1);
    assert_eq!(text_hits.len(), 1);
    assert!(int_hits.contains(100));
    assert!(text_hits.contains(200));
}

#[test]
fn kv_index_remove_and_empty_cleanup() {
    let mut idx = KvIndex::new();
    idx.insert(t(1), &Value::Int(7), 1);
    assert_eq!(idx.entry_count(), 1);
    assert!(idx.remove(t(1), &Value::Int(7), 1));
    assert_eq!(idx.entry_count(), 0);
}

#[test]
fn lookup_missing_returns_empty() {
    let idx = KvIndex::new();
    assert!(idx.lookup(t(99), &Value::Int(0)).is_empty());
}

#[test]
fn kv_index_cbor_round_trip() {
    let mut idx = KvIndex::with_secret([7u8; 16]);
    idx.insert(t(1), &Value::Int(42), 100);
    idx.insert(t(2), &Value::Text("foo".into()), 200);
    let image = idx.to_image();
    let back = KvIndex::from_image(&image).unwrap();
    assert_eq!(back.entry_count(), 2);
    assert!(back.lookup(t(1), &Value::Int(42)).contains(100));
    assert!(back.lookup(t(2), &Value::Text("foo".into())).contains(200));
}

#[test]
fn value_hashes_are_those_of_the_tag() {
    let mut idx = KvIndex::new();
    idx.insert(t(1), &Value::Int(1), 1);
    idx.insert(t(1), &Value::Int(2), 1);
    idx.insert(t(2), &Value::Int(3), 1);
    let mut want = vec![
        value_hash(&Value::Int(1), &[0u8; 16]),
        value_hash(&Value::Int(2), &[0u8; 16]),
    ];
    want.sort();
    assert_eq!(idx.value_hashes_for(t(1)), want);
}

#[test]
#[allow(deprecated)]
fn hash_is_the_keyed_hash_of_the_standard_library() {
    for n in 0..40usize {
        let data: Vec<u8> = (0..n).map(|i| (i * 37 + 11) as u8).collect();
        let (k0, k1) = (0x0706_0504_0302_0100u64, 0x0f0e_0d0c_0b0a_0908u64);
        let mut std_hash = std::hash::SipHasher::new_with_keys(k0, k1);
        std_hash.write(&data);
        assert_eq!(sip_hash(k0, k1, &data), std_hash.finish());
    }
}

#[test]
fn secret_changes_the_hash() {
    let v = Value::Int(42);
    assert_ne!(value_hash(&v, &[0u8; 16]), value_hash(&v, &[7u8; 16]));
}

// ---------- keys ----------

#[test]
fn int_ordering_preserved() {
    let a = NormalisedKey::from_value(&Value::Int(1));
    let b = NormalisedKey::from_value(&Value::Int(2));
    let c = NormalisedKey::from_value(&Value::Int(100));
    assert!(a < b);
    assert!(b < c);
}

#[test]
fn negative_ints_sort_below_positive() {
    let neg = NormalisedKey::from_value(&Value::Int(-5));
    let zero = NormalisedKey::from_value(&Value::Int(0));
    let pos = NormalisedKey::from_value(&Value::Int(5));
    assert!(neg < zero);
    assert!(zero < pos);
}

#[test]
fn text_ordering_preserved() {
    let a = NormalisedKey::from_value(&Value::Text("a".into()));
    let b = NormalisedKey::from_value(&Value::Text("b".into()));
    assert!(a < b);
}

#[test]
fn different_types_ordered_by_type_tag() {
    let text = NormalisedKey::from_value(&Value::Text("zzz".into()));
    let int = NormalisedKey::from_value(&Value::Int(0));
    let float = NormalisedKey::from_value(&float(0.0));
    assert!(text < int);
    assert!(int < float);
}

#[test]
fn float_negative_sorts_below_positive() {
    let neg = NormalisedKey::from_value(&float(-1.0));
    let zero = NormalisedKey::from_value(&float(0.0));
    let pos = NormalisedKey::from_value(&float(1.0));
    assert!(neg < zero);
    assert!(zero < pos);
    assert!(neg.before(&zero));
}

#[test]
fn long_text_continuation_flag_set() {
    let short = NormalisedKey::from_value(&Value::Text("hi".into()));
    let long = NormalisedKey::from_value(&Value::Text("a".repeat(50)));
    assert_eq!(short.0[14], 0);
    assert_eq!(long.0[14], 1);
}

#[test]
fn timestamp_ordering_preserved() {
    let early = NormalisedKey::from_value(&Value::Timestamp(100));
    let late = NormalisedKey::from_value(&Value::Timestamp(200));
    assert!(early < late);
}

#[test]
fn scoped_keeps_context_prefix() {
    let inner = Value::Int(42);
    let scoped = Value::scoped(TagId::new(7), inner.clone()).unwrap();
    let key = NormalisedKey::from_value(&scoped);
    assert_eq!(key.0[0], TYPE_TAG_SCOPED);
    let ctx = u32::from_be_bytes(key.0[1..5].try_into().unwrap());
    assert_eq!(ctx, 7);
}

#[test]
fn key_size_is_16() {
    assert_eq!(NORMALISED_KEY_LEN, 16);
    assert_eq!(core::mem::size_of::<NormalisedKey>(), 16);
}

#[test]
fn int_key_bytes() {
    let key = NormalisedKey::from_value(&Value::Int(1));
    assert_eq!(key.as_bytes(), &[1, 0x80, 0, 0, 0, 0, 0, 0, 1, 0, 0, 0, 0, 0, 0, 0]);
}

// ---------- range index ----------

#[test]
fn equality_lookup() {
    let mut idx = RangeIndex::new();
    idx.insert(t(1), &Value::Int(2024), 100);
    idx.insert(t(1), &Value::Int(2024), 101);
    idx.insert(t(1), &Value::Int(2023), 200);
    let r = idx.lookup(t(1), &Value::Int(2024));
    assert_eq!(r.len(), 2);
    assert!(r.contains(100));
    assert!(r.contains(101));
}

#[test]
fn range_scan_int() {
    let mut idx = RangeIndex::new();
    for year in 2020..2025i64 {
        idx.insert(t(1), &Value::Int(year), year as u32);
    }
    let scan = idx.range_scan(t(1), &Value::Int(2021), &Value::Int(2024));
    assert_eq!(scan.len(), 3);
    assert!(scan.contains(2021));
    assert!(scan.contains(2022));
    assert!(scan.contains(2023));
    assert!(!scan.contains(2024));
}

#[test]
fn range_index_cbor_round_trip() {
    let mut idx = RangeIndex::new();
    idx.insert(t(1), &Value::Int(42), 1);
    idx.insert(t(2), &Value::Text("foo".into()), 2);
    let entries = idx.to_entries();
    let back = RangeIndex::from_entries(&entries).unwrap();
    assert_eq!(back.entry_count(), 2);
    assert_eq!(back.lookup(t(1), &Value::Int(42)).len(), 1);
}

#[test]
fn range_index_remove_and_empty_cleanup() {
    let mut idx = RangeIndex::new();
    idx.insert(t(1), &Value::Int(1), 10);
    assert!(idx.remove(t(1), &Value::Int(1), 10));
    assert_eq!(idx.entry_count(), 0);
}

fn flush_range(idx: &RangeIndex, dev: &mut MemoryDevice) -> Result<(), IndexError> {
    idx.flush_to_region(dev, 0, |runs: &Vec<SortedRun<RangeIndexKey, RangeIndexValue>>| {
        encode_runs(runs, |k, v, out| {
            out.extend_from_slice(&k.tag_id.to_le_bytes());
            out.extend_from_slice(k.norm_key.as_bytes());
            out.extend_from_slice(&k.snapshot.to_le_bytes());
            put_vec(&v.0, out);
        })
    })
}

fn decode_range(
    bytes: Vec<u8>,
) -> Result<Vec<SortedRun<RangeIndexKey, RangeIndexValue>>, StorageError> {
    decode_runs(bytes, |rest| {
        let tag_id = take_u32(rest);
        let norm_key = NormalisedKey(take(rest, 16).try_into().unwrap());
        let snapshot = take_u32(rest);
        (RangeIndexKey { tag_id, norm_key, snapshot }, RangeIndexValue(take_vec(rest)))
    })
}

fn range_at(dev: &mut MemoryDevice, idx: &RangeIndex) -> RangeIndex {
    flush_range(idx, dev).unwrap();
    RangeIndex::load_from_region(dev, 0, decode_range).unwrap()
}

fn range_back(idx: &RangeIndex) -> RangeIndex {
    range_at(&mut region_device(), idx)
}

#[test]
fn range_region_round_trip_empty_returns_default() {
    let dev = MemoryDevice::new(4096);
    let idx = RangeIndex::load_from_region(&dev, 0, |_| panic!()).unwrap();
    assert_eq!(idx.entry_count(), 0);
    assert_eq!(range_back(&idx).entry_count(), 0);
}

#[test]
fn range_region_round_trip_preserves_entries() {
    let mut idx = RangeIndex::new();
    for year in 2020..2025i64 {
        idx.insert(t(1), &Value::Int(year), year as u32);
        idx.insert(t(1), &Value::Int(year), (year + 1000) as u32);
    }
    idx.insert(t(2), &Value::Text("alpha".into()), 1);
    idx.insert(t(2), &Value::Text("beta".into()), 2);
    idx.insert(t(2), &Value::Text("alpha".into()), 3);

    let back = range_back(&idx);

    assert_eq!(back.entry_count(), idx.entry_count());
    let r = back.lookup(t(1), &Value::Int(2024));
    assert_eq!(r.len(), 2);
    assert!(r.contains(2024));
    assert!(r.contains(3024));
    let scan = back.range_scan(t(1), &Value::Int(2021), &Value::Int(2024));
    assert_eq!(scan.len(), 6);
    let r2 = back.lookup(t(2), &Value::Text("alpha".into()));
    assert_eq!(r2.len(), 2);
}

#[test]
fn range_region_round_trip_single_entry() {
    let mut idx = RangeIndex::new();
    idx.insert(t(7), &Value::Int(42), 700);
    let back = range_back(&idx);
    assert_eq!(back.entry_count(), 1);
    let r = back.lookup(t(7), &Value::Int(42));
    assert_eq!(r.len(), 1);
    assert!(r.contains(700));
}

#[test]
fn range_region_overwrite_replaces_state() {
    let mut first = RangeIndex::new();
    first.insert(t(1), &Value::Int(1), 10);
    first.insert(t(1), &Value::Int(2), 20);
    let mut dev = region_device();
    assert_eq!(range_at(&mut dev, &first).entry_count(), 2);

    let mut second = RangeIndex::new();
    second.insert(t(99), &Value::Int(999), 9000);
    let back = range_at(&mut dev, &second);
    assert_eq!(back.entry_count(), 1);
    let r = back.lookup(t(99), &Value::Int(999));
    assert_eq!(r.len(), 1);
    assert!(r.contains(9000));
    assert_eq!(back.lookup(t(1), &Value::Int(1)).len(), 0);
}

#[test]
fn range_loaded_node_round_trip_empty() {
    let idx = RangeIndex::new();
    let node = idx.to_loaded_node();
    assert_eq!(node.sorted_runs.len(), 0);
    let back = RangeIndex::from_loaded_node(&node).unwrap();
    assert_eq!(back.entry_count(), 0);
}

#[test]
fn range_loaded_node_keys_carry_zero_snapshot() {
    let mut idx = RangeIndex::new();
    idx.insert(t(7), &Value::Int(42), 1);
    let node = idx.to_loaded_node();
    assert_eq!(node.sorted_runs[0].entries[0].0.snapshot, 0);
    assert_eq!(node.sorted_runs[0].entries[0].0.tag_id, 7);
}

#[test]
fn range_region_round_trip_50_entries() {
    let mut idx = RangeIndex::new();
    for i in 0u32..50 {
        for member in 0u32..3 {
            idx.insert(t(i / 5), &Value::Int(i as i64 * 13 + 1), i * 10 + member);
        }
    }
    let n_before = idx.entry_count();
    assert_eq!(n_before, 50);
    let back = range_back(&idx);
    assert_eq!(back.entry_count(), n_before);
    for i in 0u32..50 {
        let bm = back.lookup(t(i / 5), &Value::Int(i as i64 * 13 + 1));
        assert_eq!(bm.len(), 3);
    }
}

#[test]
fn range_region_kind_mismatch_detected() {
    let mut dev = region_device();
    let mut idx = RangeIndex::new();
    idx.insert(t(1), &Value::Int(42), 1);
    flush_range(&idx, &mut dev).unwrap();
    let res = load_node(&dev, 0, Some(BtreeKind::Forward), decode_range);
    assert!(res.is_err());
}

#[test]
fn range_index_refuses_bytes_that_are_no_bitmap() {
    let mut idx = RangeIndex::new();
    idx.insert(t(1), &Value::Int(1), 1);
    let mut entries = idx.to_entries();
    entries[0].1 = vec![1, 2, 3];
    assert!(matches!(RangeIndex::from_entries(&entries), Err(IndexError::Roaring(_))));
}

// ---------- bitmap pages ----------

#[test]
fn tag_bitmap_page_block_size_is_4096() {
    let page = TagBitmapPage::from_bitmap(&RoaringBitmap::new()).unwrap();
    assert_eq!(page.to_bytes().len(), 4096);
}

#[test]
fn round_trip_small_bitmap() {
    let mut bm = RoaringBitmap::new();
    for i in 0..1000 {
        bm.insert(i * 17);
    }
    let mut page = TagBitmapPage::from_bitmap(&bm).unwrap();
    page.recompute_crc();
    let back = page.to_bitmap().unwrap();
    assert_eq!(back.len(), bm.len());
}

#[test]
fn tag_bitmap_page_round_trip_via_block_device() {
    let mut dev = MemoryDevice::new(1 << 20);
    let mut bm = RoaringBitmap::new();
    bm.insert(1);
    bm.insert(2);
    bm.insert(1_000_000);
    let mut page = TagBitmapPage::from_bitmap(&bm).unwrap();
    page.write(&mut dev, 0).unwrap();

    let back = TagBitmapPage::read(&dev, 0).unwrap();
    let bm2 = back.to_bitmap().unwrap();
    assert_eq!(bm2.len(), 3);
    assert!(bm2.contains(1_000_000));
}

#[test]
fn tag_bitmap_page_corrupted_crc_rejected() {
    let mut dev = MemoryDevice::new(1 << 20);
    let mut page = TagBitmapPage::from_bitmap(&RoaringBitmap::new()).unwrap();
    page.write(&mut dev, 0).unwrap();
    let mut buf = dev.read_at(0, TAG_BITMAP_PAGE_SIZE).unwrap();
    buf[40] ^= 0xFF;
    dev.write_at(0, &buf).unwrap();
    let err = TagBitmapPage::read(&dev, 0).unwrap_err();
    assert!(matches!(err, TagBitmapPageError::CrcMismatch { .. }));
}

#[test]
fn tag_bitmap_page_faults() {
    let mut dense = RoaringBitmap::new();
    for i in 0..5000u32 {
        dense.insert(i * 3);
    }
    assert!(matches!(
        TagBitmapPage::from_bitmap(&dense),
        Err(TagBitmapPageError::Oversize { got }) if got > 4036
    ));
    let mut page = TagBitmapPage::from_bitmap(&RoaringBitmap::new()).unwrap();
    page.bitmap_len = 5000;
    assert!(matches!(page.to_bitmap(), Err(TagBitmapPageError::Oversize { got: 5000 })));
    page.bitmap_len = 3;
    assert!(matches!(page.to_bitmap(), Err(TagBitmapPageError::Roaring(_))));
    let mut dev = MemoryDevice::new(4096);
    assert!(matches!(page.write(&mut dev, 1), Err(TagBitmapPageError::Io)));
    assert!(matches!(
        TagBitmapPage::read(&dev, 0),
        Err(TagBitmapPageError::InvalidMagic { actual: [0, 0, 0, 0] })
    ));
    page.header.pre.kind = 9999;
    page.write(&mut dev, 0).unwrap();
    assert!(matches!(
        TagBitmapPage::read(&dev, 0),
        Err(TagBitmapPageError::InvalidBlockKind(9999))
    ));
    page = TagBitmapPage::from_bitmap(&RoaringBitmap::new()).unwrap();
    page.header.pre.format_version = 7;
    page.write(&mut dev, 0).unwrap();
    assert!(matches!(
        TagBitmapPage::read(&dev, 0),
        Err(TagBitmapPageError::InvalidFormatVersion(7))
    ));
}

#[test]
fn tag_bitmap_page_messages() {
    let e = TagBitmapPageError::CrcMismatch { expected: 0x12, actual: 0xDEAD_BEEF };
    assert_eq!(
        e.message(),
        "TagBitmapPage CRC mismatch: expected 0x00000012, got 0xdeadbeef"
    );
    let e = TagBitmapPageError::InvalidMagic { actual: [1, 20, 255, 0] };
    assert_eq!(e.message(), "invalid magic: expected MIMR, got [1, 20, 255, 0]");
    assert_eq!(TagBitmapPageError::Io.message(), "device I/O failure");
}

// ---------- tag index ----------

#[test]
fn tag_index_leaf_entry_size_is_48() {
    assert_eq!(core::mem::size_of::<TagIndexLeafEntry>(), 48);
}

#[test]
fn add_remove_round_trip() {
    let mut idx = TagIndex::new();
    idx.add_member(t(1), oid(10));
    idx.add_member(t(1), oid(20));
    assert_eq!(idx.query_simple(t(1)).unwrap().len(), 2);
    assert!(idx.contains(t(1), oid(10)));
    assert!(idx.remove_member(t(1), oid(10)));
    assert!(!idx.contains(t(1), oid(10)));
    assert_eq!(idx.query_simple(t(1)).unwrap().len(), 1);
}

#[test]
fn intersect_and_union() {
    let mut idx = TagIndex::new();
    idx.add_member(t(1), oid(1));
    idx.add_member(t(1), oid(2));
    idx.add_member(t(1), oid(3));
    idx.add_member(t(2), oid(2));
    idx.add_member(t(2), oid(3));
    idx.add_member(t(2), oid(4));

    let inter = idx.intersect(&[t(1), t(2)]);
    assert_eq!(inter.len(), 2);
    assert!(inter.contains(2));
    assert!(inter.contains(3));

    let uni = idx.union(&[t(1), t(2)]);
    assert_eq!(uni.len(), 4);

    assert!(idx.intersect(&[]).is_empty());
    assert!(idx.intersect(&[t(1), t(9)]).is_empty());
    assert_eq!(idx.union(&[t(9), t(1)]).len(), 3);
}

#[test]
fn upgrade_to_ordered_preserves_members() {
    let mut idx = TagIndex::new();
    idx.add_member(t(1), oid(7));
    idx.add_member(t(1), oid(9));
    idx.upgrade_to_ordered(t(1)).unwrap();
    let s = idx.get(t(1)).unwrap();
    assert!(matches!(s, TagStore::Ordered { .. }));
    assert!(s.contains(oid(7)));
    assert!(s.contains(oid(9)));
    assert!(matches!(idx.upgrade_to_ordered(t(2)), Err(IndexError::TagNotFound)));
}

#[test]
fn remove_object_from_all() {
    let mut idx = TagIndex::new();
    idx.add_member(t(1), oid(5));
    idx.add_member(t(2), oid(5));
    idx.add_member(t(3), oid(5));
    idx.add_member(t(1), oid(6));
    let mut removed = idx.remove_object_from_all(oid(5));
    removed.sort();
    assert_eq!(removed, vec![t(1), t(2), t(3)]);
    assert!(!idx.contains(t(1), oid(5)));
    assert!(idx.contains(t(1), oid(6)));
}

#[test]
fn tag_index_cbor_round_trip() {
    let mut idx = TagIndex::new();
    idx.add_member(t(1), oid(10));
    idx.add_member(t(2), oid(20));
    idx.upgrade_to_ordered(t(1)).unwrap();
    let mut back = TagIndex::new();
    for (tag, store) in idx.iter() {
        back.insert(tag, TagStore::from_image(store.to_image()).unwrap());
    }
    assert_eq!(back.tag_count(), 2);
    assert!(back.contains(t(1), oid(10)));
    assert!(back.contains(t(2), oid(20)));
    assert_eq!(back.get(t(1)).unwrap().sequence().unwrap(), &vec![oid(10)]);
}

const TEST_BITMAP_AREA_OFFSET: u64 = 256 * 1024;
const TEST_BITMAP_AREA_PAGES: usize = 64;

fn tag_device() -> MemoryDevice {
    MemoryDevice::new(1 << 20)
}

fn flush_tags(idx: &TagIndex, dev: &mut MemoryDevice) -> Result<usize, IndexError> {
    flush_tags_at(idx, dev, TEST_BITMAP_AREA_OFFSET, TEST_BITMAP_AREA_PAGES)
}

fn flush_tags_at(
    idx: &TagIndex,
    dev: &mut MemoryDevice,
    area: u64,
    cap: usize,
) -> Result<usize, IndexError> {
    idx.flush_to_region(
        dev,
        0,
        area,
        cap,
        |runs: &Vec<SortedRun<TagIndexKey, TagIndexValue>>| {
            encode_runs(runs, |k, v, out| {
                out.extend_from_slice(&k.tag_id.to_le_bytes());
                out.extend_from_slice(&k.snapshot.to_le_bytes());
                out.extend_from_slice(&v.to_bytes());
            })
        },
    )
}

fn decode_tags(
    bytes: Vec<u8>,
) -> Result<Vec<SortedRun<TagIndexKey, TagIndexValue>>, StorageError> {
    decode_runs(bytes, |rest| {
        let tag_id = take_u32(rest);
        let snapshot = take_u32(rest);
        (TagIndexKey { tag_id, snapshot }, TagIndexValue::from_bytes(take(rest, 40)))
    })
}

fn load_tags(dev: &MemoryDevice) -> Result<TagIndex, IndexError> {
    TagIndex::load_from_region(dev, 0, decode_tags)
}

#[test]
fn areas_of_any_size_are_accepted() {
    let mut tags = TagIndex::new();
    tags.add_member(t(1), oid(10));
    let mut dev = tag_device();
    assert_eq!(flush_tags_at(&tags, &mut dev, TEST_BITMAP_AREA_OFFSET, usize::MAX).unwrap(), 1);
    assert!(load_tags(&dev).unwrap().contains(t(1), oid(10)));
    assert!(matches!(
        flush_tags_at(&tags, &mut dev, u64::MAX - 4095, usize::MAX),
        Err(IndexError::Roaring(_))
    ));
    tags.add_member(t(2), oid(11));
    assert!(matches!(
        flush_tags_at(&tags, &mut dev, u64::MAX, 1),
        Err(IndexError::Roaring(_))
    ));

    let mut fi = ForwardIndex::new();
    for i in 0..9 {
        fi.add_assertion(oid(1), Assertion::Tag(tag(i)), TagOrigin::Direct);
    }
    let mut dev = forward_device();
    let area = TEST_OVERFLOW_AREA_OFFSET;
    assert_eq!(flush_forward_at(&fi, &mut dev, area, usize::MAX).unwrap(), 1);
    assert_eq!(load_forward(&dev).unwrap().assertions_of(oid(1)), fi.assertions_of(oid(1)));
    assert!(matches!(
        flush_forward_at(&fi, &mut dev, u64::MAX, usize::MAX),
        Err(IndexError::Storage(_))
    ));
    // What spills nowhere needs no area.
    let small = ForwardIndex::from_entries(&vec![(
        1,
        vec![(Assertion::Tag(tag(1)), TagOrigin::Direct)],
    )]);
    assert_eq!(flush_forward_at(&small, &mut dev, 1, 0).unwrap(), 0);
    assert_eq!(load_forward(&dev).unwrap().object_count(), 1);
}

#[test]
fn tag_region_round_trip_empty_returns_default() {
    let mut dev = tag_device();
    let idx = TagIndex::load_from_region(&dev, 0, |_| panic!()).unwrap();
    assert_eq!(idx.tag_count(), 0);
    flush_tags(&TagIndex::new(), &mut dev).unwrap();
    let idx = load_tags(&dev).unwrap();
    assert_eq!(idx.tag_count(), 0);
}

#[test]
fn tag_region_round_trip_simple_stores() {
    let mut dev = tag_device();
    let mut idx = TagIndex::new();
    for tag_no in 1u32..=10 {
        for member in 0u64..(tag_no as u64) {
            idx.add_member(t(tag_no), oid(tag_no as u64 * 100 + member));
        }
    }
    let pages = flush_tags(&idx, &mut dev).unwrap();
    assert_eq!(pages, 10, "one bitmap page per tag (small bitmaps)");
    let back = load_tags(&dev).unwrap();
    assert_eq!(back.tag_count(), 10);
    for tag_no in 1u32..=10 {
        for member in 0u64..(tag_no as u64) {
            assert!(
                back.contains(t(tag_no), oid(tag_no as u64 * 100 + member)),
                "tag {tag_no} member {member}",
            );
        }
    }
}

#[test]
fn tag_region_round_trip_single_tag() {
    let mut dev = tag_device();
    let mut idx = TagIndex::new();
    idx.add_member(t(42), oid(100));
    idx.add_member(t(42), oid(200));
    flush_tags(&idx, &mut dev).unwrap();
    let dir = load_node(&dev, 0, None, decode_tags).unwrap().unwrap();
    assert_eq!(dir.sorted_runs[0].entries[0].1.cardinality, 2);
    let back = load_tags(&dev).unwrap();
    assert_eq!(back.tag_count(), 1);
    assert!(back.contains(t(42), oid(100)));
    assert!(back.contains(t(42), oid(200)));
}

#[test]
fn tag_region_overwrite_replaces_state() {
    let mut dev = tag_device();
    let mut first = TagIndex::new();
    first.add_member(t(1), oid(10));
    first.add_member(t(2), oid(20));
    flush_tags(&first, &mut dev).unwrap();

    let mut second = TagIndex::new();
    second.add_member(t(99), oid(900));
    flush_tags(&second, &mut dev).unwrap();

    let back = load_tags(&dev).unwrap();
    assert_eq!(back.tag_count(), 1);
    assert!(back.contains(t(99), oid(900)));
    assert!(back.get(t(1)).is_none());
}

#[test]
fn flush_rejects_ordered_store() {
    let mut dev = tag_device();
    let mut idx = TagIndex::new();
    idx.add_member(t(1), oid(10));
    idx.upgrade_to_ordered(t(1)).unwrap();
    let err = flush_tags(&idx, &mut dev).err().unwrap();
    assert!(matches!(
        err,
        IndexError::UnsupportedStoreKind(k) if k == TagStoreKind::Ordered.to_u8()
    ));
}

#[test]
fn flush_rejects_ranked_store() {
    let mut dev = tag_device();
    let mut idx = TagIndex::new();
    idx.add_member(t(1), oid(10));
    idx.upgrade_to_ranked(t(1)).unwrap();
    let err = flush_tags(&idx, &mut dev).err().unwrap();
    assert!(matches!(
        err,
        IndexError::UnsupportedStoreKind(k) if k == TagStoreKind::Ranked.to_u8()
    ));
}

#[test]
fn single_page_bitmap_has_zero_next_link() {
    let mut dev = tag_device();
    let mut idx = TagIndex::new();
    for m in 0u64..100 {
        idx.add_member(t(7), oid(m));
    }
    flush_tags(&idx, &mut dev).unwrap();
    let page = TagBitmapPage::read(&dev, TEST_BITMAP_AREA_OFFSET).unwrap();
    assert_eq!(page.next_link(), BlockRef::default());
}

#[test]
fn multi_page_bitmap_chain() {
    let mut dev = tag_device();
    let mut idx = TagIndex::new();
    let mut store = TagStore::new_simple();
    for m in 0u64..50_000 {
        store.add_member(oid(m));
    }
    idx.insert(t(1), store);
    let pages = flush_tags(&idx, &mut dev).unwrap();
    assert!(pages >= 2, "expected multi-page chain, got {pages}");

    let mut chain_len = 0usize;
    let mut cur = BlockRef {
        disk_id: 0,
        _pad: 0,
        block_no: (TEST_BITMAP_AREA_OFFSET / 4096) as u32,
        generation: 1,
    };
    while !cur.points_nowhere() {
        let page = TagBitmapPage::read(&dev, (cur.block_no as u64) * 4096).unwrap();
        chain_len += 1;
        cur = page.next_link();
        assert!(chain_len <= TEST_BITMAP_AREA_PAGES, "infinite loop guard");
    }
    assert_eq!(chain_len, pages);

    let back = load_tags(&dev).unwrap();
    for m in 0u64..50_000 {
        assert!(back.contains(t(1), oid(m)), "missing member {m}");
    }
}

#[test]
fn bitmap_chain_that_does_not_end_is_refused() {
    let mut dev = tag_device();
    let mut idx = TagIndex::new();
    idx.add_member(t(1), oid(5));
    flush_tags(&idx, &mut dev).unwrap();
    // Let the page point to itself.
    let mut page = TagBitmapPage::read(&dev, TEST_BITMAP_AREA_OFFSET).unwrap();
    let dir = load_node(&dev, 0, None, decode_tags).unwrap().unwrap();
    page.next_page = dir.sorted_runs[0].entries[0].1.store_root;
    page.write(&mut dev, TEST_BITMAP_AREA_OFFSET).unwrap();
    assert_eq!(
        load_tags(&dev).err().unwrap(),
        IndexError::Roaring("bitmap page chain does not end".to_string())
    );
}

#[test]
fn bitmap_area_exhausted_errors() {
    let mut dev = tag_device();
    let mut idx = TagIndex::new();
    for tag_no in 0..(TEST_BITMAP_AREA_PAGES + 1) as u32 {
        idx.add_member(t(tag_no), oid(0));
    }
    let err = flush_tags(&idx, &mut dev).err().unwrap();
    assert!(matches!(err, IndexError::BitmapAreaExhausted { .. }));
}

#[test]
fn tag_region_round_trip_50_tags() {
    let mut dev = tag_device();
    let mut idx = TagIndex::new();
    for i in 0u32..50 {
        for member in 0u64..3 {
            idx.add_member(t(i), oid(i as u64 * 100 + member));
        }
    }
    flush_tags(&idx, &mut dev).unwrap();
    let back = load_tags(&dev).unwrap();
    assert_eq!(back.tag_count(), 50);
    for i in 0u32..50 {
        assert!(back.contains(t(i), oid(i as u64 * 100)));
    }
}

#[test]
fn leaf_entries_of_other_kinds_are_refused() {
    let v = TagIndexValue {
        last_modify_lsn: 0,
        store_root: BlockRef::default(),
        cardinality: 0,
        generation: 1,
        store_kind: 2,
        _pad: [0; 7],
    };
    assert_eq!(v.to_bytes().len(), 40);
    assert_eq!(TagIndexValue::from_bytes(&v.to_bytes()).store_kind, 2);
    let entries = [(TagIndexKey { tag_id: 1, snapshot: 0 }, v)];
    let r = TagIndex::from_leaf_entries(&entries, |_| Ok(RoaringBitmap::new()));
    assert!(matches!(r, Err(IndexError::UnsupportedStoreKind(2))));
}

#[test]
fn tag_keys_have_two_components() {
    let k = TagIndexKey { tag_id: 7, snapshot: 3 };
    assert_eq!(k.field_values(), vec![7, 3]);
    assert_eq!(TagIndexKey::from_components(&vec![7, 3]).unwrap(), k);
    assert!(matches!(
        TagIndexKey::from_components(&vec![1 << 32, 3]),
        Err(IndexError::MalformedKey("TagIndexKey: field overflow"))
    ));
}

// ---------- tag stores ----------

#[test]
fn simple_store_membership() {
    let mut s = TagStore::new_simple();
    s.add_member(oid(1));
    s.add_member(oid(7));
    assert!(s.contains(oid(1)));
    assert!(!s.contains(oid(2)));
    assert_eq!(s.cardinality(), 2);
    assert!(s.remove_member(oid(1)));
    assert!(!s.contains(oid(1)));
}

#[test]
fn ordered_store_sequence() {
    let mut s = TagStore::new_ordered();
    s.push_ordered(oid(3));
    s.push_ordered(oid(1));
    s.push_ordered(oid(2));
    assert_eq!(s.sequence().unwrap(), &[oid(3), oid(1), oid(2)]);
    assert_eq!(s.cardinality(), 3);
    assert!(s.remove_member(oid(1)));
    assert_eq!(s.sequence().unwrap(), &[oid(3), oid(2)]);
}

#[test]
fn ranked_store_sorted_descending() {
    let mut s = TagStore::new_ranked();
    s.insert_ranked(oid(1), 5);
    s.insert_ranked(oid(2), 9);
    s.insert_ranked(oid(3), 1);
    let r = s.ranked().unwrap();
    assert_eq!(r[0].0, oid(2));
    assert_eq!(r[1].0, oid(1));
    assert_eq!(r[2].0, oid(3));
}

#[test]
fn equal_scores_keep_their_order() {
    let mut s = TagStore::new_ranked();
    s.insert_ranked(oid(3), 5);
    s.insert_ranked(oid(1), 5);
    s.insert_ranked(oid(2), 7);
    s.insert_ranked(oid(4), 5);
    let ids: Vec<u64> = s.ranked().unwrap().iter().map(|e| e.0.to_u64()).collect();
    assert_eq!(ids, vec![2, 3, 1, 4]);
    assert!(s.remove_member(oid(1)));
    assert_eq!(s.ranked().unwrap().len(), 3);
}

#[test]
fn upgrade_simple_to_ordered_preserves_members() {
    let mut s = TagStore::new_simple();
    s.add_member(oid(1));
    s.add_member(oid(2));
    s.upgrade_to_ordered();
    assert!(matches!(s, TagStore::Ordered { .. }));
    assert!(s.contains(oid(1)));
    assert!(s.contains(oid(2)));
}

#[test]
fn upgrade_to_ranked_preserves_members() {
    let mut s = TagStore::new_simple();
    s.add_member(oid(1));
    s.upgrade_to_ranked();
    assert!(matches!(s, TagStore::Ranked { .. }));
    assert!(s.contains(oid(1)));
}

#[test]
fn store_images() {
    let mut s = TagStore::new_ranked();
    s.insert_ranked(oid(9), 4);
    let mut image = s.to_image();
    assert_eq!(image.kind, 2);
    let back = TagStore::from_image(image.clone()).unwrap();
    assert_eq!(back.ranked().unwrap(), s.ranked().unwrap());
    assert_eq!(back.kind(), TagStoreKind::Ranked);
    image.kind = 3;
    assert_eq!(
        TagStore::from_image(image.clone()).err().unwrap(),
        IndexError::CborDecode("unknown TagStore kind: 3".to_string())
    );
    image.bitmap_bytes = vec![0];
    assert!(matches!(TagStore::from_image(image), Err(IndexError::Roaring(_))));
    assert!(matches!(
        TagStoreKind::from_u8(3),
        Err(IndexError::InvalidAssertionKind(3))
    ));
}

#[test]
fn members_can_be_changed_in_place() {
    let mut s = TagStore::new_ordered();
    assert!(s.is_empty());
    s.members_mut().insert(77);
    assert!(s.contains(oid(77)));
    let copy = s.clone();
    assert_eq!(copy.cardinality(), 1);
    assert!(copy.sequence().unwrap().is_empty());
}
