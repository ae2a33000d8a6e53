//! The range index: from a tag and an interval of values to the objects that
//! have one of them.

use vstd::prelude::*;
use crate::bytes::{lemma_lex_total, lemma_lex_transitive, lex_less};
use crate::index::bitmap::{bitmap_bytes, bitmap_decoded, bitmap_new, bitmap_or, bitmap_set};
use crate::index::error::IndexError;
use crate::index::normalised_key::{key_of, NormalisedKey};
use crate::index::postings::{decoded_postings, entry_models, posting, posting_removed,
    postings_round_trip, serialises, Postings};
use crate::ordmap::Key;
use crate::storage::block::BtreeKind;
use crate::storage::device::{BlockDevice, StorageError};
use crate::storage::node::{LoadedNode, SortedRun};
use crate::storage::region::{codec_fits, load_node, node_loaded, node_stored, store_node,
    stored_region_loads};
use crate::types::id::TagId;
use crate::types::value::Value;

verus! {

/// Size of the region that holds the index.
pub const RANGE_INDEX_REGION_SIZE: u64 = 262144;

/// Binary logarithm of [`RANGE_INDEX_REGION_SIZE`].
pub const REGION_SIZE_LOG2: u8 = 18;

impl Key for (TagId, NormalisedKey) {
    type Model = (TagId, Seq<u8>);

    open spec fn model(&self) -> (TagId, Seq<u8>) {
        (self.0, self.1.0@)
    }

    open spec fn precedes(a: (TagId, Seq<u8>), b: (TagId, Seq<u8>)) -> bool {
        a.0.id < b.0.id || (a.0.id == b.0.id && lex_less(a.1, b.1))
    }

    proof fn precedes_is_order(
        a: (TagId, Seq<u8>),
        b: (TagId, Seq<u8>),
        c: (TagId, Seq<u8>),
    ) {
        lemma_lex_total(a.1, a.1);
        lemma_lex_total(a.1, b.1);
        if lex_less(a.1, b.1) && lex_less(b.1, c.1) {
            lemma_lex_transitive(a.1, b.1, c.1);
        }
    }

    fn is_before(&self, other: &(TagId, NormalisedKey)) -> (r: bool) {
        self.0.id < other.0.id || (self.0.id == other.0.id && self.1.before(&other.1))
    }

    fn copy_key(&self) -> (r: (TagId, NormalisedKey)) {
        (self.0, self.1)
    }
}

/// One end of an interval of keys.
#[derive(Clone, Copy, Debug)]
pub struct KeyBound {
    pub key: NormalisedKey,
    /// The key itself belongs to the interval.
    pub inclusive: bool,
}

impl KeyBound {
    /// `k` is not below this lower end.
    pub open spec fn admits_above(&self, k: Seq<u8>) -> bool {
        lex_less(self.key.0@, k) || (self.inclusive && k == self.key.0@)
    }

    /// `k` is not above this upper end.
    pub open spec fn admits_below(&self, k: Seq<u8>) -> bool {
        lex_less(k, self.key.0@) || (self.inclusive && k == self.key.0@)
    }
}

/// `x` has a key between the ends for `tag`.
pub open spec fn in_interval(
    m: Map<(TagId, Seq<u8>), Set<u32>>,
    tag: TagId,
    low: KeyBound,
    high: KeyBound,
    x: u32,
) -> bool {
    exists|k: Seq<u8>| #[trigger]
        posting(m, (tag, k)).contains(x) && low.admits_above(k) && high.admits_below(k)
}

/// `x` has a key for `tag` from `low` on, below `high`.
pub open spec fn in_range_of(
    m: Map<(TagId, Seq<u8>), Set<u32>>,
    tag: TagId,
    low: Seq<u8>,
    high: Seq<u8>,
    x: u32,
) -> bool {
    exists|k: Seq<u8>| #[trigger]
        posting(m, (tag, k)).contains(x) && !lex_less(k, low) && lex_less(k, high)
}

/// The objects that have a value, by tag and key of the value.
#[derive(Clone, Debug)]
pub struct RangeIndex {
    map: Postings<(TagId, NormalisedKey)>,
}

impl Default for RangeIndex {
    fn default() -> (r: Self)
        ensures
            r.wf(),
            r@ == Map::<(TagId, Seq<u8>), Set<u32>>::empty(),
    {
        RangeIndex::new()
    }
}

impl RangeIndex {
    pub closed spec fn view(&self) -> Map<(TagId, Seq<u8>), Set<u32>> {
        self.map@
    }

    pub closed spec fn wf(&self) -> bool {
        self.map.wf()
    }

    /// The entries in ascending order.
    pub closed spec fn items(&self) -> Seq<((TagId, Seq<u8>), roaring::RoaringBitmap)> {
        self.map.items()
    }

    /// An empty index.
    pub fn new() -> (r: Self)
        ensures
            r.wf(),
            r@ == Map::<(TagId, Seq<u8>), Set<u32>>::empty(),
    {
        RangeIndex { map: Postings::new() }
    }

    /// Note that an object has a value.
    pub fn insert(&mut self, tag: TagId, value: &Value, oid_local: u32)
        requires
            old(self).wf(),
        ensures
            final(self).wf(),
            final(self)@ == old(self)@.insert(
                (tag, key_of(value@)),
                posting(old(self)@, (tag, key_of(value@))).insert(oid_local),
            ),
    {
        self.map.insert((tag, NormalisedKey::from_value(value)), oid_local);
    }

    /// Note that an object no longer has a value. Whether it had.
    pub fn remove(&mut self, tag: TagId, value: &Value, oid_local: u32) -> (r: bool)
        requires
            old(self).wf(),
        ensures
            final(self).wf(),
            r == posting(old(self)@, (tag, key_of(value@))).contains(oid_local),
            final(self)@ == posting_removed(old(self)@, (tag, key_of(value@)), oid_local),
    {
        self.map.remove((tag, NormalisedKey::from_value(value)), oid_local)
    }

    /// The objects whose value has the same key.
    pub fn lookup(&self, tag: TagId, value: &Value) -> (r: roaring::RoaringBitmap)
        requires
            self.wf(),
        ensures
            bitmap_set(r) == posting(self@, (tag, key_of(value@))),
    {
        self.map.lookup(&(tag, NormalisedKey::from_value(value)))
    }

    /// The objects whose value is at least `low` and less than `high`.
    pub fn range_scan(&self, tag: TagId, low: &Value, high: &Value) -> (r: roaring::RoaringBitmap)
        requires
            self.wf(),
            !lex_less(key_of(high@), key_of(low@)),
        ensures
            forall|x: u32| #[trigger]
                bitmap_set(r).contains(x) == in_range_of(
                    self@,
                    tag,
                    key_of(low@),
                    key_of(high@),
                    x,
                ),
    {
        let from = KeyBound { key: NormalisedKey::from_value(low), inclusive: true };
        let to = KeyBound { key: NormalisedKey::from_value(high), inclusive: false };
        let r = self.scan_keys(tag, &from, &to);
        proof {
            assert forall|x: u32| #[trigger] bitmap_set(r).contains(x) == in_range_of(
                self@,
                tag,
                key_of(low@),
                key_of(high@),
                x,
            ) by {
                if in_interval(self@, tag, from, to, x) {
                    let k = choose|k: Seq<u8>| #[trigger]
                        posting(self@, (tag, k)).contains(x) && from.admits_above(k)
                            && to.admits_below(k);
                    lemma_lex_total(k, key_of(low@));
                    assert(posting(self@, (tag, k)).contains(x));
                }
                if in_range_of(self@, tag, key_of(low@), key_of(high@), x) {
                    let k = choose|k: Seq<u8>| #[trigger]
                        posting(self@, (tag, k)).contains(x) && !lex_less(k, key_of(low@))
                            && lex_less(k, key_of(high@));
                    lemma_lex_total(k, key_of(low@));
                    assert(posting(self@, (tag, k)).contains(x));
                }
            }
        }
        r
    }

    /// The objects whose value has a key between the two ends.
    pub fn scan_keys(&self, tag: TagId, low: &KeyBound, high: &KeyBound) -> (r:
        roaring::RoaringBitmap)
        requires
            self.wf(),
        ensures
            forall|x: u32| #[trigger]
                bitmap_set(r).contains(x) == in_interval(self@, tag, *low, *high, x),
    {
        let total = self.map.len();
        let ghost items = self.map.items();
        let mut acc = bitmap_new();
        let mut i: usize = 0;
        proof {
            self.map.lemma_items();
        }
        while i < total
            invariant
                i <= total,
                items == self.map.items(),
                total == items.len(),
                forall|x: u32| #[trigger]
                    bitmap_set(acc).contains(x) == exists|a: int|
                        0 <= a < i && #[trigger] item_counts(items[a], tag, *low, *high, x),
            decreases total - i,
        {
            let key = self.map.key_at(i);
            let ghost before = bitmap_set(acc);
            let k = &key.1;
            let above = low.key.before(k) || (low.inclusive && !k.before(&low.key));
            let below = k.before(&high.key) || (high.inclusive && !high.key.before(k));
            proof {
                lemma_lex_total(low.key.0@, k.0@);
                lemma_lex_total(k.0@, high.key.0@);
            }
            let hit = key.0 == tag && above && below;
            if hit {
                bitmap_or(&mut acc, self.map.list_at(i));
            }
            proof {
                assert forall|x: u32| #[trigger] bitmap_set(acc).contains(x) == exists|a: int|
                    0 <= a < i + 1 && #[trigger] item_counts(items[a], tag, *low, *high, x) by {
                    let now = item_counts(items[i as int], tag, *low, *high, x);
                    assert(now == (hit && bitmap_set(items[i as int].1).contains(x)));
                    assert(bitmap_set(acc).contains(x) == (before.contains(x) || now));
                    if before.contains(x) {
                        let a = choose|a: int|
                            0 <= a < i && #[trigger] item_counts(items[a], tag, *low, *high, x);
                        assert(item_counts(items[a], tag, *low, *high, x));
                    }
                }
            }
            i = i + 1;
        }
        proof {
            assert forall|x: u32| #[trigger] bitmap_set(acc).contains(x) == in_interval(
                self@,
                tag,
                *low,
                *high,
                x,
            ) by {
                if bitmap_set(acc).contains(x) {
                    let a = choose|a: int|
                        0 <= a < i && #[trigger] item_counts(items[a], tag, *low, *high, x);
                    let k = items[a].0.1;
                    assert(items[a].0 == (tag, k));
                    assert(posting(self@, (tag, k)).contains(x));
                }
                if in_interval(self@, tag, *low, *high, x) {
                    let k = choose|k: Seq<u8>| #[trigger]
                        posting(self@, (tag, k)).contains(x) && low.admits_above(k)
                            && high.admits_below(k);
                    let a = choose|a: int|
                        0 <= a < items.len() && (#[trigger] items[a]).0 == (tag, k);
                    assert(item_counts(items[a], tag, *low, *high, x));
                }
            }
        }
        acc
    }

    /// Number of keys.
    pub fn entry_count(&self) -> (r: usize)
        requires
            self.wf(),
        ensures
            r == self@.len(),
    {
        self.map.len()
    }

    /// The index as plain data, in ascending order.
    pub fn to_entries(&self) -> (r: Vec<((TagId, NormalisedKey), Vec<u8>)>)
        requires
            self.wf(),
        ensures
            serialises(r@, self.items()),
    {
        self.map.to_entries()
    }

    /// The index that plain data stand for.
    pub fn from_entries(entries: &Vec<((TagId, NormalisedKey), Vec<u8>)>) -> (r: Result<
        Self,
        IndexError,
    >)
        ensures
            match decoded_postings(entry_models(entries@), entries@.len() as int) {
                Some(m) => r is Ok && r->Ok_0.wf() && r->Ok_0@ == m,
                None => r is Err && r->Err_0 is Roaring,
            },
    {
        match Postings::from_entries(entries) {
            Ok(map) => Ok(RangeIndex { map }),
            Err(e) => Err(e),
        }
    }

    /// The index as the node that goes to disk.
    pub fn to_loaded_node(&self) -> (r: LoadedNode<RangeIndexKey, RangeIndexValue>)
        requires
            self.wf(),
        ensures
            r.fresh(BtreeKind::Range, REGION_SIZE_LOG2),
            node_of_range(r.entries(), self.items()),
    {
        let plain = self.map.to_entries();
        let mut entries: Vec<(RangeIndexKey, RangeIndexValue)> = Vec::new();
        let mut i: usize = 0;
        while i < plain.len()
            invariant
                i <= plain@.len(),
                serialises(plain@, self.items()),
                entries@.len() == i,
                forall|j: int|
                    0 <= j < i ==> (#[trigger] entries@[j]).0.tag_id == plain@[j].0.0.id
                        && entries@[j].0.norm_key == plain@[j].0.1 && entries@[j].0.snapshot == 0
                        && entries@[j].1.0@ == plain@[j].1@,
            decreases plain@.len() - i,
        {
            let bytes = crate::bytes::copy_range(
                plain[i].1.as_slice(),
                0,
                plain[i].1.len(),
            );
            proof {
                assert(bytes@ =~= plain@[i as int].1@);
            }
            entries.push(
                (
                    RangeIndexKey {
                        tag_id: plain[i].0.0.raw(),
                        norm_key: plain[i].0.1,
                        snapshot: 0,
                    },
                    RangeIndexValue(bytes),
                ),
            );
            i = i + 1;
        }
        proof {
            let items = self.items();
            assert forall|j: int| 0 <= j < items.len() implies range_entry(
                #[trigger] entries@[j],
                items[j],
            ) by {
                assert(plain@[j].0.model() == items[j].0);
            }
        }
        if entries.len() == 0 {
            LoadedNode::new(BtreeKind::Range, 0, REGION_SIZE_LOG2)
        } else {
            LoadedNode::with_run(BtreeKind::Range, 0, REGION_SIZE_LOG2, entries)
        }
    }

    /// The index that a node from disk stands for.
    pub fn from_loaded_node(node: &LoadedNode<RangeIndexKey, RangeIndexValue>) -> (r: Result<
        Self,
        IndexError,
    >)
        ensures
            match decoded_postings(node_models(node.entries()), node.entries().len() as int) {
                Some(m) => r is Ok && r->Ok_0.wf() && r->Ok_0@ == m,
                None => r is Err && r->Err_0 is Roaring,
            },
    {
        let all = node.merge_iter();
        let ghost es = node.entries();
        let mut plain: Vec<((TagId, NormalisedKey), Vec<u8>)> = Vec::new();
        let mut i: usize = 0;
        while i < all.len()
            invariant
                i <= all@.len(),
                es == node.entries(),
                all@.len() == es.len(),
                forall|j: int| 0 <= j < all@.len() ==> *(#[trigger] all@[j]) == es[j],
                plain@.len() == i,
                forall|j: int|
                    0 <= j < i ==> (#[trigger] plain@[j]).0.0.id == es[j].0.tag_id
                        && plain@[j].0.1 == es[j].0.norm_key && plain@[j].1@ == es[j].1.0@,
            decreases all@.len() - i,
        {
            let e = all[i];
            let bytes = crate::bytes::copy_range(e.1.0.as_slice(), 0, e.1.0.len());
            proof {
                assert(*all@[i as int] == es[i as int]);
                assert(bytes@ =~= es[i as int].1.0@);
            }
            plain.push(((TagId::new(e.0.tag_id), e.0.norm_key), bytes));
            i = i + 1;
        }
        proof {
            let a = entry_models(plain@);
            let b = node_models(es);
            assert forall|j: int| 0 <= j < a.len() implies a[j] == b[j] by {
                assert(plain@[j].0.0.id == es[j].0.tag_id);
                assert(plain@[j].0.0 == TagId { id: es[j].0.tag_id });
            }
            assert(a =~= b);
        }
        RangeIndex::from_entries(&plain)
    }

    /// Write the index to the region at `offset` on `device`. `encode` turns the
    /// runs of the node into bytes.
    pub fn flush_to_region<
        D: BlockDevice,
        F: Fn(&Vec<SortedRun<RangeIndexKey, RangeIndexValue>>) -> Result<Vec<u8>, StorageError>,
    >(&self, device: &mut D, offset: u64, encode: F) -> (r: Result<(), IndexError>)
        requires
            self.wf(),
            forall|runs: &Vec<SortedRun<RangeIndexKey, RangeIndexValue>>| encode.requires((runs,)),
        ensures
            old(device).reliable() ==> final(device).reliable(),
            exists|
                node: LoadedNode<RangeIndexKey, RangeIndexValue>,
                encoded: Result<Vec<u8>, StorageError>,
                stored: Result<(), StorageError>,
            |
                {
                    &&& #[trigger] is_range_node(node, self@)
                    &&& node_of_range(node.entries(), self.items())
                    &&& #[trigger] encode.ensures((&node.sorted_runs,), encoded)
                    &&& #[trigger] node_stored(
                        old(device).contents(),
                        final(device).contents(),
                        old(device).reliable(),
                        offset as int,
                        node.header,
                        encoded,
                        stored,
                    )
                    &&& r == match stored {
                        Ok(_) => Ok::<(), IndexError>(()),
                        Err(e) => Err(IndexError::Storage(e)),
                    }
                },
    {
        let node = self.to_loaded_node();
        proof {
            self.node_round_trip(node.entries());
            assert(is_range_node(node, self@));
        }
        match store_node(device, offset, &node, encode) {
            Ok(_) => Ok(()),
            Err(e) => Err(IndexError::Storage(e)),
        }
    }

    /// Read the index from the region at `offset` on `device`; a blank region
    /// is the empty index. `decode` turns the bytes of the runs into runs.
    pub fn load_from_region<
        D: BlockDevice,
        G: Fn(Vec<u8>) -> Result<Vec<SortedRun<RangeIndexKey, RangeIndexValue>>, StorageError>,
    >(device: &D, offset: u64, decode: G) -> (r: Result<Self, IndexError>)
        requires
            forall|bytes: Vec<u8>| decode.requires((bytes,)),
        ensures
            r is Ok ==> r->Ok_0.wf(),
            exists|read: Result<Option<LoadedNode<RangeIndexKey, RangeIndexValue>>, StorageError>|
                #[trigger] node_loaded(
                    device.contents(),
                    device.reliable(),
                    offset as int,
                    None,
                    decode,
                    read,
                ) && range_read(read, match r {
                    Ok(i) => Ok(i@),
                    Err(e) => Err(e),
                }),
    {
        match load_node(device, offset, None, decode) {
            Ok(Some(node)) => RangeIndex::from_loaded_node(&node),
            Ok(None) => Ok(RangeIndex::new()),
            Err(e) => Err(IndexError::Storage(e)),
        }
    }

    /// The index is what its node stands for.
    pub proof fn node_round_trip(&self, entries: Seq<(RangeIndexKey, RangeIndexValue)>)
        requires
            self.wf(),
            node_of_range(entries, self.items()),
        ensures
            decoded_postings(node_models(entries), entries.len() as int) == Some(self@),
    {
        let s = node_models(entries);
        let items = self.items();
        assert forall|j: int| 0 <= j < s.len() implies (#[trigger] s[j]).0 == items[j].0
            && bitmap_decoded(s[j].1) == Some(bitmap_set(items[j].1)) by {
            assert(range_entry(entries[j], items[j]));
        }
        postings_round_trip(&self.map, s);
    }
}

/// The entry makes `x` part of the interval.
spec fn item_counts(
    item: ((TagId, Seq<u8>), roaring::RoaringBitmap),
    tag: TagId,
    low: KeyBound,
    high: KeyBound,
    x: u32,
) -> bool {
    &&& item.0.0 == tag
    &&& low.admits_above(item.0.1)
    &&& high.admits_below(item.0.1)
    &&& bitmap_set(item.1).contains(x)
}

/// Key of an entry on disk: the tag, the value's key, then the snapshot.
#[derive(Clone, Copy, Debug)]
pub struct RangeIndexKey {
    pub tag_id: u32,
    pub norm_key: NormalisedKey,
    /// `0` is the live state.
    pub snapshot: u32,
}

/// Value of an entry on disk: a serialised bitmap.
#[derive(Clone, Debug, PartialEq, Eq)]
pub struct RangeIndexValue(pub Vec<u8>);

/// The entry on disk for a key and its objects.
pub open spec fn range_entry(
    e: (RangeIndexKey, RangeIndexValue),
    item: ((TagId, Seq<u8>), roaring::RoaringBitmap),
) -> bool {
    &&& TagId { id: e.0.tag_id } == item.0.0
    &&& e.0.norm_key.0@ == item.0.1
    &&& e.0.snapshot == 0
    &&& e.1.0@ == bitmap_bytes(item.1)
    &&& bitmap_decoded(e.1.0@) == Some(bitmap_set(item.1))
}

/// The entries on disk are those of the index, in ascending order.
pub open spec fn node_of_range(
    entries: Seq<(RangeIndexKey, RangeIndexValue)>,
    items: Seq<((TagId, Seq<u8>), roaring::RoaringBitmap)>,
) -> bool {
    &&& entries.len() == items.len()
    &&& forall|j: int| 0 <= j < entries.len() ==> range_entry(#[trigger] entries[j], items[j])
}

/// The content of the entries on disk.
pub open spec fn node_models(entries: Seq<(RangeIndexKey, RangeIndexValue)>) -> Seq<
    ((TagId, Seq<u8>), Seq<u8>),
> {
    entries.map_values(
        |e: (RangeIndexKey, RangeIndexValue)| ((TagId { id: e.0.tag_id }, e.0.norm_key.0@), e.1.0@),
    )
}

/// The node holds the index.
pub open spec fn is_range_node(
    node: LoadedNode<RangeIndexKey, RangeIndexValue>,
    m: Map<(TagId, Seq<u8>), Set<u32>>,
) -> bool {
    &&& node.fresh(BtreeKind::Range, REGION_SIZE_LOG2)
    &&& decoded_postings(node_models(node.entries()), node.entries().len() as int) == Some(m)
}

/// `r` is the index that was read.
pub open spec fn range_read(
    read: Result<Option<LoadedNode<RangeIndexKey, RangeIndexValue>>, StorageError>,
    r: Result<Map<(TagId, Seq<u8>), Set<u32>>, IndexError>,
) -> bool {
    match read {
        Ok(None) => r == Ok::<Map<(TagId, Seq<u8>), Set<u32>>, IndexError>(Map::empty()),
        Ok(Some(node)) => match decoded_postings(
            node_models(node.entries()),
            node.entries().len() as int,
        ) {
            Some(m) => r == Ok::<Map<(TagId, Seq<u8>), Set<u32>>, IndexError>(m),
            None => r is Err && r->Err_0 is Roaring,
        },
        Err(e) => r == Err::<Map<(TagId, Seq<u8>), Set<u32>>, IndexError>(IndexError::Storage(e)),
    }
}

/// Entries that hold the same objects under the same keys.
pub open spec fn same_ranges() -> spec_fn(
    Seq<(RangeIndexKey, RangeIndexValue)>,
    Seq<(RangeIndexKey, RangeIndexValue)>,
) -> bool {
    |
        a: Seq<(RangeIndexKey, RangeIndexValue)>,
        b: Seq<(RangeIndexKey, RangeIndexValue)>,
    |
        decoded_postings(node_models(a), a.len() as int) == decoded_postings(
            node_models(b),
            b.len() as int,
        )
}

/// An index that was flushed is loaded again as it was, if the two functions
/// for its runs belong together.
pub proof fn range_flush_then_load<
    F: Fn(&Vec<SortedRun<RangeIndexKey, RangeIndexValue>>) -> Result<Vec<u8>, StorageError>,
    G: Fn(Vec<u8>) -> Result<Vec<SortedRun<RangeIndexKey, RangeIndexValue>>, StorageError>,
>(
    m: Map<(TagId, Seq<u8>), Set<u32>>,
    before: Seq<u8>,
    after: Seq<u8>,
    offset: int,
    node: LoadedNode<RangeIndexKey, RangeIndexValue>,
    encode: F,
    encoded: Result<Vec<u8>, StorageError>,
    decode: G,
    read: Result<Option<LoadedNode<RangeIndexKey, RangeIndexValue>>, StorageError>,
    r: Result<Map<(TagId, Seq<u8>), Set<u32>>, IndexError>,
)
    requires
        0 <= offset <= u64::MAX - 4096,
        codec_fits(encode, decode, same_ranges()),
        is_range_node(node, m),
        encode.ensures((&node.sorted_runs,), encoded),
        node_stored(before, after, true, offset, node.header, encoded, Ok(())),
        node_loaded(after, true, offset, None, decode, read),
        range_read(read, r),
    ensures
        r == Ok::<Map<(TagId, Seq<u8>), Set<u32>>, IndexError>(m),
{
    stored_region_loads(
        before,
        after,
        offset,
        node,
        BtreeKind::Range,
        None,
        encode,
        encoded,
        decode,
        same_ranges(),
        read,
    );
}

} // verus!
