//! The tag index: from a tag to its members.

use vstd::prelude::*;
use crate::bytes::{copy_range, get_array, get_u32, get_u64, le, lemma_adjacent, lemma_cat_eq,
    lemma_le_len, lemma_u32_image, lemma_u64_image, put_bytes, put_le, put_zeros, zeros};
use crate::index::bitmap::{bitmap_and, bitmap_clone, bitmap_new, bitmap_or, bitmap_set};
use crate::index::error::IndexError;
use crate::index::tag_store::{entry_of, lists_members, ranked_ids, StoreModel, TagStore};
use crate::ordmap::{lemma_items_map, Key, OrdMap};
use crate::storage::block::BlockRef;
use crate::types::id::{ObjectId, TagId};

verus! {

/// Size of the region that holds the directory.
pub const TAG_INDEX_REGION_SIZE: u64 = 262144;

/// Binary logarithm of [`TAG_INDEX_REGION_SIZE`].
pub const REGION_SIZE_LOG2: u8 = 18;

/// Size of a [`TagIndexLeafEntry`].
pub const TAG_INDEX_LEAF_ENTRY_SIZE: usize = 48;

/// Size of a [`TagIndexValue`].
pub const TAG_INDEX_VALUE_SIZE: usize = 40;

/// A directory entry with its key.
#[derive(Clone, Copy, Debug)]
pub struct TagIndexLeafEntry {
    /// `[0..8]`
    pub last_modify_lsn: u64,
    /// `[8..24]`
    pub store_root: BlockRef,
    /// `[24..28]`
    pub tag_id: u32,
    /// `[28..32]`
    pub snapshot: u32,
    /// `[32..36]`
    pub cardinality: u32,
    /// `[36..40]`
    pub generation: u32,
    /// `[40..41]`
    pub store_kind: u8,
    /// `[41..48]`
    pub _pad: [u8; 7],
}

impl TagIndexLeafEntry {
    /// The bytes on disk.
    pub open spec fn image(&self) -> Seq<u8> {
        le(self.last_modify_lsn as nat, 8) + self.store_root.image() + le(self.tag_id as nat, 4)
            + le(self.snapshot as nat, 4) + le(self.cardinality as nat, 4)
            + le(self.generation as nat, 4) + seq![self.store_kind] + self._pad@
    }

    /// Append the bytes on disk to `out`.
    pub fn put(&self, out: &mut Vec<u8>)
        ensures
            final(out)@ == old(out)@ + self.image(),
    {
        let ghost start = out@;
        put_le(out, self.last_modify_lsn, 8);
        self.store_root.put(out);
        put_le(out, self.tag_id as u64, 4);
        put_le(out, self.snapshot as u64, 4);
        put_le(out, self.cardinality as u64, 4);
        put_le(out, self.generation as u64, 4);
        out.push(self.store_kind);
        put_bytes(out, self._pad.as_slice());
        proof {
            assert(out@ =~= start + self.image());
        }
    }

    /// The value whose bytes stand at `at`.
    pub fn get(s: &[u8], at: usize) -> (r: Self)
        requires
            at + 48 <= s@.len(),
        ensures
            r.image() == s@.subrange(at as int, at + 48),
    {
        let total = s.len();
        let r = TagIndexLeafEntry {
            last_modify_lsn: get_u64(s, at),
            store_root: BlockRef::get(s, at + 8),
            tag_id: get_u32(s, at + 24),
            snapshot: get_u32(s, at + 28),
            cardinality: get_u32(s, at + 32),
            generation: get_u32(s, at + 36),
            store_kind: s[at + 40],
            _pad: get_array::<7>(s, at + 41),
        };
        proof {
            assert(seq![r.store_kind] =~= s@.subrange(at + 40, at + 41));
            lemma_adjacent(s@, at as int, at + 8, at + 24);
            lemma_adjacent(s@, at as int, at + 24, at + 28);
            lemma_adjacent(s@, at as int, at + 28, at + 32);
            lemma_adjacent(s@, at as int, at + 32, at + 36);
            lemma_adjacent(s@, at as int, at + 36, at + 40);
            lemma_adjacent(s@, at as int, at + 40, at + 41);
            lemma_adjacent(s@, at as int, at + 41, at + 48);
        }
        r
    }

    /// An image has 48 bytes.
    pub proof fn image_len(&self)
        ensures
            self.image().len() == 48,
    {
        broadcast use lemma_le_len;

        self.store_root.image_len();
    }

    /// The image determines the value.
    pub proof fn image_injective(x: TagIndexLeafEntry, y: TagIndexLeafEntry)
        requires
            x.image() == y.image(),
        ensures
            x == y,
    {
        broadcast use lemma_le_len;

        x.store_root.image_len();
        y.store_root.image_len();
        let x1 = le(x.last_modify_lsn as nat, 8) + x.store_root.image();
        let x2 = x1 + le(x.tag_id as nat, 4);
        let x3 = x2 + le(x.snapshot as nat, 4);
        let x4 = x3 + le(x.cardinality as nat, 4);
        let x5 = x4 + le(x.generation as nat, 4);
        let x6 = x5 + seq![x.store_kind];
        let y1 = le(y.last_modify_lsn as nat, 8) + y.store_root.image();
        let y2 = y1 + le(y.tag_id as nat, 4);
        let y3 = y2 + le(y.snapshot as nat, 4);
        let y4 = y3 + le(y.cardinality as nat, 4);
        let y5 = y4 + le(y.generation as nat, 4);
        let y6 = y5 + seq![y.store_kind];
        lemma_cat_eq(x6, x._pad@, y6, y._pad@);
        lemma_cat_eq(x5, seq![x.store_kind], y5, seq![y.store_kind]);
        lemma_cat_eq(x4, le(x.generation as nat, 4), y4, le(y.generation as nat, 4));
        lemma_cat_eq(x3, le(x.cardinality as nat, 4), y3, le(y.cardinality as nat, 4));
        lemma_cat_eq(x2, le(x.snapshot as nat, 4), y2, le(y.snapshot as nat, 4));
        lemma_cat_eq(x1, le(x.tag_id as nat, 4), y1, le(y.tag_id as nat, 4));
        lemma_cat_eq(
            le(x.last_modify_lsn as nat, 8),
            x.store_root.image(),
            le(y.last_modify_lsn as nat, 8),
            y.store_root.image(),
        );
        lemma_u64_image(x.last_modify_lsn, y.last_modify_lsn);
        BlockRef::image_injective(x.store_root, y.store_root);
        lemma_u32_image(x.tag_id, y.tag_id);
        lemma_u32_image(x.snapshot, y.snapshot);
        lemma_u32_image(x.cardinality, y.cardinality);
        lemma_u32_image(x.generation, y.generation);
        assert(x.store_kind == seq![x.store_kind][0] && y.store_kind == seq![y.store_kind][0]);
        assert(x._pad =~= y._pad);
    }
}

/// The value of a directory entry.
#[derive(Clone, Copy, Debug)]
pub struct TagIndexValue {
    /// `[0..8]`
    pub last_modify_lsn: u64,
    /// `[8..24]` the first page of the bitmap.
    pub store_root: BlockRef,
    /// `[24..28]` how many members there are.
    pub cardinality: u32,
    /// `[28..32]`
    pub generation: u32,
    /// `[32..33]`
    pub store_kind: u8,
    /// `[33..40]`
    pub _pad: [u8; 7],
}

impl TagIndexValue {
    /// The bytes on disk.
    pub open spec fn image(&self) -> Seq<u8> {
        le(self.last_modify_lsn as nat, 8) + self.store_root.image()
            + le(self.cardinality as nat, 4) + le(self.generation as nat, 4) + seq![self.store_kind]
            + self._pad@
    }

    /// Append the bytes on disk to `out`.
    pub fn put(&self, out: &mut Vec<u8>)
        ensures
            final(out)@ == old(out)@ + self.image(),
    {
        let ghost start = out@;
        put_le(out, self.last_modify_lsn, 8);
        self.store_root.put(out);
        put_le(out, self.cardinality as u64, 4);
        put_le(out, self.generation as u64, 4);
        out.push(self.store_kind);
        put_bytes(out, self._pad.as_slice());
        proof {
            assert(out@ =~= start + self.image());
        }
    }

    /// The value whose bytes stand at `at`.
    pub fn get(s: &[u8], at: usize) -> (r: Self)
        requires
            at + 40 <= s@.len(),
        ensures
            r.image() == s@.subrange(at as int, at + 40),
    {
        let total = s.len();
        let r = TagIndexValue {
            last_modify_lsn: get_u64(s, at),
            store_root: BlockRef::get(s, at + 8),
            cardinality: get_u32(s, at + 24),
            generation: get_u32(s, at + 28),
            store_kind: s[at + 32],
            _pad: get_array::<7>(s, at + 33),
        };
        proof {
            assert(seq![r.store_kind] =~= s@.subrange(at + 32, at + 33));
            lemma_adjacent(s@, at as int, at + 8, at + 24);
            lemma_adjacent(s@, at as int, at + 24, at + 28);
            lemma_adjacent(s@, at as int, at + 28, at + 32);
            lemma_adjacent(s@, at as int, at + 32, at + 33);
            lemma_adjacent(s@, at as int, at + 33, at + 40);
        }
        r
    }

    /// An image has 40 bytes.
    pub proof fn image_len(&self)
        ensures
            self.image().len() == 40,
    {
        broadcast use lemma_le_len;

        self.store_root.image_len();
    }

    /// The image determines the value.
    pub proof fn image_injective(x: TagIndexValue, y: TagIndexValue)
        requires
            x.image() == y.image(),
        ensures
            x == y,
    {
        broadcast use lemma_le_len;

        x.store_root.image_len();
        y.store_root.image_len();
        let x1 = le(x.last_modify_lsn as nat, 8) + x.store_root.image();
        let x2 = x1 + le(x.cardinality as nat, 4);
        let x3 = x2 + le(x.generation as nat, 4);
        let x4 = x3 + seq![x.store_kind];
        let y1 = le(y.last_modify_lsn as nat, 8) + y.store_root.image();
        let y2 = y1 + le(y.cardinality as nat, 4);
        let y3 = y2 + le(y.generation as nat, 4);
        let y4 = y3 + seq![y.store_kind];
        lemma_cat_eq(x4, x._pad@, y4, y._pad@);
        lemma_cat_eq(x3, seq![x.store_kind], y3, seq![y.store_kind]);
        lemma_cat_eq(x2, le(x.generation as nat, 4), y2, le(y.generation as nat, 4));
        lemma_cat_eq(x1, le(x.cardinality as nat, 4), y1, le(y.cardinality as nat, 4));
        lemma_cat_eq(
            le(x.last_modify_lsn as nat, 8),
            x.store_root.image(),
            le(y.last_modify_lsn as nat, 8),
            y.store_root.image(),
        );
        lemma_u64_image(x.last_modify_lsn, y.last_modify_lsn);
        BlockRef::image_injective(x.store_root, y.store_root);
        lemma_u32_image(x.cardinality, y.cardinality);
        lemma_u32_image(x.generation, y.generation);
        assert(x.store_kind == seq![x.store_kind][0] && y.store_kind == seq![y.store_kind][0]);
        assert(x._pad =~= y._pad);
    }

    /// The value's bytes.
    pub fn to_bytes(&self) -> (r: Vec<u8>)
        ensures
            r@ == self.image(),
            r@.len() == 40,
    {
        let mut out: Vec<u8> = Vec::new();
        self.put(&mut out);
        proof {
            self.image_len();
            assert(out@ =~= self.image());
        }
        out
    }

    /// The value with these bytes. Bytes that are missing are zero, bytes
    /// behind the fortieth are not looked at.
    pub fn from_bytes(v: &[u8]) -> (r: Self)
        ensures
            r.image() == if v@.len() >= 40 {
                v@.take(40)
            } else {
                v@ + zeros((40 - v@.len()) as nat)
            },
    {
        let n: usize = if v.len() < 40 {
            v.len()
        } else {
            40
        };
        let mut buf = copy_range(v, 0, n);
        put_zeros(&mut buf, 40 - n);
        let r = TagIndexValue::get(buf.as_slice(), 0);
        proof {
            assert(buf@.subrange(0, 40) =~= if v@.len() >= 40 {
                v@.take(40)
            } else {
                v@ + zeros((40 - v@.len()) as nat)
            });
        }
        r
    }
}

/// Key of a directory entry: the tag, then the snapshot.
#[derive(Clone, Copy, Debug, PartialEq, Eq, PartialOrd, Ord, Hash, Structural)]
pub struct TagIndexKey {
    pub tag_id: u32,
    /// `0` is the live state.
    pub snapshot: u32,
}

impl TagIndexKey {
    /// The key's components.
    pub fn field_values(&self) -> (r: Vec<u64>)
        ensures
            r@ == seq![self.tag_id as u64, self.snapshot as u64],
    {
        let mut out: Vec<u64> = Vec::new();
        out.push(self.tag_id as u64);
        out.push(self.snapshot as u64);
        proof {
            assert(out@ =~= seq![self.tag_id as u64, self.snapshot as u64]);
        }
        out
    }

    /// The key with these components.
    pub fn from_components(fields: &Vec<u64>) -> (r: Result<Self, IndexError>)
        ensures
            match r {
                Ok(k) => fields@ == seq![k.tag_id as u64, k.snapshot as u64],
                Err(e) => e is MalformedKey && if fields@.len() != 2 {
                    e->MalformedKey_0@ == "TagIndexKey: wrong field count"@
                } else {
                    (fields@[0] > u32::MAX || fields@[1] > u32::MAX) && e->MalformedKey_0@
                        == "TagIndexKey: field overflow"@
                },
            },
    {
        if fields.len() != 2 {
            return Err(IndexError::MalformedKey("TagIndexKey: wrong field count"));
        }
        if fields[0] > 0xFFFF_FFFF || fields[1] > 0xFFFF_FFFF {
            return Err(IndexError::MalformedKey("TagIndexKey: field overflow"));
        }
        let k = TagIndexKey { tag_id: fields[0] as u32, snapshot: fields[1] as u32 };
        proof {
            assert(fields@ =~= seq![k.tag_id as u64, k.snapshot as u64]);
        }
        Ok(k)
    }
}

/// The members of a tag; none where the index does not have it.
pub open spec fn tag_members(m: Map<TagId, StoreModel>, tag: TagId) -> Set<u32> {
    if m.contains_key(tag) {
        m[tag].members()
    } else {
        Set::empty()
    }
}

/// The members of every tag.
#[derive(Clone, Debug)]
pub struct TagIndex {
    stores: OrdMap<TagId, TagStore>,
}

impl Default for TagIndex {
    fn default() -> (r: Self)
        ensures
            r.wf(),
            r@ == Map::<TagId, StoreModel>::empty(),
    {
        TagIndex::new()
    }
}

impl TagIndex {
    pub closed spec fn view(&self) -> Map<TagId, StoreModel> {
        self.stores@.map_values(|s: TagStore| s@)
    }

    pub closed spec fn wf(&self) -> bool {
        self.stores.wf()
    }

    /// The entries in ascending order of tags.
    pub closed spec fn items(&self) -> Seq<(TagId, TagStore)> {
        self.stores.items()
    }

    /// The entries are those of the index.
    pub proof fn lemma_items(&self)
        requires
            self.wf(),
        ensures
            forall|i: int, j: int|
                0 <= i < j < self.items().len() ==> (#[trigger] self.items()[i]).0.id < (
                #[trigger] self.items()[j]).0.id,
            forall|i: int|
                0 <= i < self.items().len() ==> self@.contains_key((#[trigger] self.items()[i]).0)
                    && self@[self.items()[i].0] == self.items()[i].1@,
            forall|k: TagId| #[trigger]
                self@.contains_key(k) ==> exists|i: int|
                    0 <= i < self.items().len() && (#[trigger] self.items()[i]).0 == k,
            self@.len() == self.items().len(),
            self@.dom().finite(),
    {
        let s = self.items();
        lemma_items_map::<TagId, TagStore>(s);
        assert(self@.dom() =~= self.stores@.dom());
        assert forall|i: int, j: int| 0 <= i < j < s.len() implies (#[trigger] s[i]).0.id < (
        #[trigger] s[j]).0.id by {
            assert(TagId::precedes(s[i].0, s[j].0));
        }
        assert forall|i: int| 0 <= i < s.len() implies self@.contains_key((#[trigger] s[i]).0)
            && self@[s[i].0] == s[i].1@ by {
            assert(self.stores@.contains_key(s[i].0));
        }
        assert forall|k: TagId| #[trigger] self@.contains_key(k) implies exists|i: int|
            0 <= i < s.len() && (#[trigger] s[i]).0 == k by {
            assert(self.stores@.contains_key(k));
            let i = choose|i: int| 0 <= i < s.len() && #[trigger] s[i].0 == k;
            assert(s[i].0 == k);
        }
    }

    /// An empty index.
    pub fn new() -> (r: Self)
        ensures
            r.wf(),
            r@ == Map::<TagId, StoreModel>::empty(),
    {
        let r = TagIndex { stores: OrdMap::new() };
        proof {
            assert(r@ =~= Map::<TagId, StoreModel>::empty());
        }
        r
    }

    /// Set the store of a tag.
    pub fn insert(&mut self, tag: TagId, store: TagStore)
        requires
            old(self).wf(),
        ensures
            final(self).wf(),
            final(self)@ == old(self)@.insert(tag, store@),
    {
        let ghost m = self@;
        self.stores.insert(tag, store);
        proof {
            assert(self@ =~= m.insert(tag, store@));
        }
    }

    /// The store of a tag.
    pub fn get(&self, tag: TagId) -> (r: Option<&TagStore>)
        requires
            self.wf(),
        ensures
            match r {
                Some(s) => self@.contains_key(tag) && s@ == self@[tag],
                None => !self@.contains_key(tag),
            },
    {
        self.stores.get(&tag)
    }

    /// The store of a tag, to write to.
    pub fn get_mut(&mut self, tag: TagId) -> (r: Option<&mut TagStore>)
        requires
            old(self).wf(),
        ensures
            final(self).wf(),
            match r {
                Some(s) => {
                    &&& old(self)@.contains_key(tag)
                    &&& s@ == old(self)@[tag]
                    &&& final(self)@ == old(self)@.insert(tag, final(s)@)
                },
                None => !old(self)@.contains_key(tag) && final(self)@ == old(self)@,
            },
    {
        proof {
            lemma_insert_models();
        }
        self.stores.get_mut(&tag)
    }

    /// Make an object a member of a tag. A tag that the index does not have
    /// gets a plain store.
    pub fn add_member(&mut self, tag: TagId, oid: ObjectId)
        requires
            old(self).wf(),
        ensures
            final(self).wf(),
            final(self)@ == old(self)@.insert(
                tag,
                if old(self)@.contains_key(tag) {
                    old(self)@[tag].with_members(
                        old(self)@[tag].members().insert(entry_of(oid)),
                    )
                } else {
                    StoreModel::Simple(Set::empty().insert(entry_of(oid)))
                },
            ),
    {
        let mut store = match self.stores.remove(&tag) {
            Some(s) => s,
            None => TagStore::new_simple(),
        };
        let ghost m = old(self)@;
        store.add_member(oid);
        self.stores.insert(tag, store);
        proof {
            assert(self@ =~= m.insert(tag, store@));
        }
    }

    /// Remove an object from a tag. Whether it was a member.
    pub fn remove_member(&mut self, tag: TagId, oid: ObjectId) -> (r: bool)
        requires
            old(self).wf(),
        ensures
            final(self).wf(),
            r == tag_members(old(self)@, tag).contains(entry_of(oid)),
            final(self)@ == if old(self)@.contains_key(tag) {
                old(self)@.insert(tag, old(self)@[tag].without(oid))
            } else {
                old(self)@
            },
    {
        match self.get_mut(tag) {
            Some(s) => s.remove_member(oid),
            None => false,
        }
    }

    /// Whether an object is a member of a tag.
    pub fn contains(&self, tag: TagId, oid: ObjectId) -> (r: bool)
        requires
            self.wf(),
        ensures
            r == tag_members(self@, tag).contains(entry_of(oid)),
    {
        match self.get(tag) {
            Some(s) => s.contains(oid),
            None => false,
        }
    }

    /// The members of a tag.
    pub fn query_simple(&self, tag: TagId) -> (r: Option<&roaring::RoaringBitmap>)
        requires
            self.wf(),
        ensures
            match r {
                Some(b) => self@.contains_key(tag) && bitmap_set(*b) == self@[tag].members(),
                None => !self@.contains_key(tag),
            },
    {
        match self.get(tag) {
            Some(s) => Some(s.members()),
            None => None,
        }
    }

    /// The members that all of `tags` have; none where there are no tags.
    pub fn intersect(&self, tags: &[TagId]) -> (r: roaring::RoaringBitmap)
        requires
            self.wf(),
        ensures
            forall|x: u32| #[trigger]
                bitmap_set(r).contains(x) == (tags@.len() > 0 && forall|i: int|
                    0 <= i < tags@.len() ==> tag_members(self@, #[trigger] tags@[i]).contains(x)),
    {
        if tags.len() == 0 {
            return bitmap_new();
        }
        let mut acc = match self.query_simple(tags[0]) {
            Some(b) => bitmap_clone(b),
            None => {
                proof {
                    assert(tag_members(self@, tags@[0]) =~= Set::<u32>::empty());
                }
                return bitmap_new();
            },
        };
        let mut k: usize = 1;
        while k < tags.len()
            invariant
                self.wf(),
                1 <= k <= tags@.len(),
                forall|x: u32| #[trigger]
                    bitmap_set(acc).contains(x) == (forall|i: int|
                        0 <= i < k ==> tag_members(self@, #[trigger] tags@[i]).contains(x)),
            decreases tags@.len() - k,
        {
            let ghost before = bitmap_set(acc);
            match self.query_simple(tags[k]) {
                Some(b) => {
                    bitmap_and(&mut acc, b);
                },
                None => {
                    proof {
                        assert(tag_members(self@, tags@[k as int]) =~= Set::<u32>::empty());
                    }
                    return bitmap_new();
                },
            }
            proof {
                assert forall|x: u32| #[trigger] bitmap_set(acc).contains(x) == (forall|i: int|
                    0 <= i < k + 1 ==> tag_members(self@, #[trigger] tags@[i]).contains(x)) by {
                    assert(bitmap_set(acc).contains(x) == (before.contains(x) && tag_members(
                        self@,
                        tags@[k as int],
                    ).contains(x)));
                }
            }
            k = k + 1;
        }
        acc
    }

    /// The members that any of `tags` has.
    pub fn union(&self, tags: &[TagId]) -> (r: roaring::RoaringBitmap)
        requires
            self.wf(),
        ensures
            forall|x: u32| #[trigger]
                bitmap_set(r).contains(x) == exists|i: int|
                    0 <= i < tags@.len() && tag_members(self@, #[trigger] tags@[i]).contains(x),
    {
        let mut acc = bitmap_new();
        let mut k: usize = 0;
        while k < tags.len()
            invariant
                self.wf(),
                k <= tags@.len(),
                forall|x: u32| #[trigger]
                    bitmap_set(acc).contains(x) == exists|i: int|
                        0 <= i < k && tag_members(self@, #[trigger] tags@[i]).contains(x),
            decreases tags@.len() - k,
        {
            let ghost before = bitmap_set(acc);
            match self.query_simple(tags[k]) {
                Some(b) => {
                    bitmap_or(&mut acc, b);
                },
                None => {},
            }
            proof {
                assert forall|x: u32| #[trigger] bitmap_set(acc).contains(x) == exists|i: int|
                    0 <= i < k + 1 && tag_members(self@, #[trigger] tags@[i]).contains(x) by {
                    let t = tags@[k as int];
                    assert(bitmap_set(acc).contains(x) == (before.contains(x) || tag_members(
                        self@,
                        t,
                    ).contains(x)));
                    if before.contains(x) {
                        let i = choose|i: int|
                            0 <= i < k && tag_members(self@, #[trigger] tags@[i]).contains(x);
                        assert(tag_members(self@, tags@[i]).contains(x));
                    }
                }
            }
            k = k + 1;
        }
        acc
    }

    /// Give the store of a tag a sequence, where it is a plain one.
    pub fn upgrade_to_ordered(&mut self, tag: TagId) -> (r: Result<(), IndexError>)
        requires
            old(self).wf(),
        ensures
            final(self).wf(),
            match r {
                Ok(_) => {
                    &&& old(self)@.contains_key(tag)
                    &&& final(self)@.contains_key(tag)
                    &&& final(self)@ == old(self)@.insert(tag, final(self)@[tag])
                    &&& match old(self)@[tag] {
                        StoreModel::Simple(m) => match final(self)@[tag] {
                            StoreModel::Ordered(n, s) => n == m && lists_members(s, m),
                            _ => false,
                        },
                        other => final(self)@[tag] == other,
                    }
                },
                Err(e) => e == IndexError::TagNotFound && !old(self)@.contains_key(tag) && final(self)@ == old(self)@,
            },
    {
        match self.get_mut(tag) {
            Some(s) => {
                s.upgrade_to_ordered();
                Ok(())
            },
            None => Err(IndexError::TagNotFound),
        }
    }

    /// Give the store of a tag a ranking.
    pub fn upgrade_to_ranked(&mut self, tag: TagId) -> (r: Result<(), IndexError>)
        requires
            old(self).wf(),
        ensures
            final(self).wf(),
            match r {
                Ok(_) => {
                    &&& old(self)@.contains_key(tag)
                    &&& final(self)@.contains_key(tag)
                    &&& final(self)@ == old(self)@.insert(tag, final(self)@[tag])
                    &&& match final(self)@[tag] {
                        StoreModel::Ranked(n, s) => {
                            &&& n == old(self)@[tag].members()
                            &&& lists_members(ranked_ids(s), n)
                            &&& forall|i: int| 0 <= i < s.len() ==> (#[trigger] s[i]).1 == 0
                        },
                        _ => false,
                    }
                },
                Err(e) => e == IndexError::TagNotFound && !old(self)@.contains_key(tag) && final(self)@ == old(self)@,
            },
    {
        match self.get_mut(tag) {
            Some(s) => {
                s.upgrade_to_ranked();
                Ok(())
            },
            None => Err(IndexError::TagNotFound),
        }
    }

    /// Remove an object from every tag. The tags that it was a member of, in
    /// ascending order.
    pub fn remove_object_from_all(&mut self, oid: ObjectId) -> (r: Vec<TagId>)
        requires
            old(self).wf(),
        ensures
            final(self).wf(),
            final(self)@ == old(self)@.map_values(|s: StoreModel| s.without(oid)),
            forall|t: TagId|
                #[trigger] r@.contains(t) == (old(self)@.contains_key(t)
                    && old(self)@[t].members().contains(entry_of(oid))),
            forall|i: int, j: int|
                0 <= i < j < r@.len() ==> (#[trigger] r@[i]).id < (#[trigger] r@[j]).id,
    {
        let ghost m = self@;
        let keys = self.all_tags();
        let mut out: Vec<TagId> = Vec::new();
        let mut i: usize = 0;
        while i < keys.len()
            invariant
                i <= keys@.len(),
                self.wf(),
                m == old(self)@,
                forall|a: int, b: int|
                    0 <= a < b < keys@.len() ==> (#[trigger] keys@[a]).id < (#[trigger] keys@[b]).id,
                forall|t: TagId| #[trigger] keys@.contains(t) == m.contains_key(t),
                self@.dom() == m.dom(),
                forall|a: int| 0 <= a < i ==> self@[#[trigger] keys@[a]] == m[keys@[a]].without(oid),
                forall|a: int|
                    i <= a < keys@.len() ==> self@[#[trigger] keys@[a]] == m[keys@[a]],
                forall|t: TagId| #[trigger]
                    out@.contains(t) ==> exists|a: int|
                        0 <= a < i && #[trigger] keys@[a] == t && m[t].members().contains(
                            entry_of(oid),
                        ),
                forall|a: int|
                    0 <= a < i && m[#[trigger] keys@[a]].members().contains(entry_of(oid))
                        ==> out@.contains(keys@[a]),
                forall|a: int, b: int|
                    0 <= a < b < out@.len() ==> (#[trigger] out@[a]).id < (#[trigger] out@[b]).id,
            decreases keys@.len() - i,
        {
            let tag = keys[i];
            let ghost before = self@;
            let ghost listed = out@;
            proof {
                assert(keys@.contains(tag));
            }
            let was = self.remove_member(tag, oid);
            if was {
                out.push(tag);
            }
            proof {
                assert(self@.dom() =~= m.dom());
                assert(before[keys@[i as int]] == m[keys@[i as int]]);
                assert forall|t: TagId| #[trigger] out@.contains(t) implies exists|a: int|
                    0 <= a < i + 1 && #[trigger] keys@[a] == t && m[t].members().contains(
                        entry_of(oid),
                    ) by {
                    let k = choose|k: int| 0 <= k < out@.len() && out@[k] == t;
                    if k < listed.len() {
                        assert(listed[k] == t);
                        assert(listed.contains(t));
                    } else {
                        assert(keys@[i as int] == t);
                    }
                }
                assert forall|a: int|
                    0 <= a < i + 1 && m[#[trigger] keys@[a]].members().contains(
                        entry_of(oid),
                    ) implies out@.contains(keys@[a]) by {
                    if a < i {
                        assert(listed.contains(keys@[a]));
                        let k = choose|k: int| 0 <= k < listed.len() && listed[k] == keys@[a];
                        assert(out@[k] == keys@[a]);
                    } else {
                        assert(out@[listed.len() as int] == keys@[a]);
                    }
                }
                assert forall|a: int, b: int| 0 <= a < b < out@.len() implies (
                #[trigger] out@[a]).id < (#[trigger] out@[b]).id by {
                    assert(listed.contains(out@[a])) by {
                        assert(listed[a] == out@[a]);
                    }
                    let k = choose|k: int|
                        0 <= k < i && #[trigger] keys@[k] == out@[a] && m[out@[a]].members().contains(
                            entry_of(oid),
                        );
                    assert(keys@[k].id < keys@[i as int].id);
                }
            }
            i = i + 1;
        }
        proof {
            assert forall|t: TagId| #[trigger] out@.contains(t) == (m.contains_key(t)
                && m[t].members().contains(entry_of(oid))) by {
                if out@.contains(t) {
                    let a = choose|a: int|
                        0 <= a < i && #[trigger] keys@[a] == t && m[t].members().contains(
                            entry_of(oid),
                        );
                    assert(keys@.contains(t));
                }
                if m.contains_key(t) {
                    assert(keys@.contains(t));
                    let a = choose|a: int| 0 <= a < keys@.len() && keys@[a] == t;
                    assert(keys@[a] == t);
                }
            }
            assert(self@ =~= m.map_values(|s: StoreModel| s.without(oid))) by {
                assert forall|t: TagId| #[trigger] m.contains_key(t) implies self@[t]
                    == m[t].without(oid) by {
                    assert(keys@.contains(t));
                    let a = choose|a: int| 0 <= a < keys@.len() && keys@[a] == t;
                    assert(self@[keys@[a]] == m[keys@[a]].without(oid));
                }
            }
        }
        out
    }

    /// Every tag with its store, in ascending order.
    pub fn iter(&self) -> (r: Vec<(TagId, &TagStore)>)
        requires
            self.wf(),
        ensures
            r@.len() == self.items().len(),
            forall|i: int|
                0 <= i < r@.len() ==> (#[trigger] r@[i]).0 == self.items()[i].0 && *r@[i].1
                    == self.items()[i].1,
    {
        let total = self.stores.len();
        let mut out: Vec<(TagId, &TagStore)> = Vec::new();
        let mut i: usize = 0;
        while i < total
            invariant
                i <= total,
                total == self.items().len(),
                out@.len() == i,
                forall|j: int|
                    0 <= j < i ==> (#[trigger] out@[j]).0 == self.items()[j].0 && *out@[j].1
                        == self.items()[j].1,
            decreases total - i,
        {
            out.push((*self.stores.key_at(i), self.stores.value_at(i)));
            i = i + 1;
        }
        out
    }

    /// Number of tags.
    pub fn tag_count(&self) -> (r: usize)
        requires
            self.wf(),
        ensures
            r == self@.len(),
    {
        proof {
            self.lemma_items();
        }
        self.stores.len()
    }

    /// All tags, in ascending order.
    pub fn all_tags(&self) -> (r: Vec<TagId>)
        requires
            self.wf(),
        ensures
            forall|i: int, j: int|
                0 <= i < j < r@.len() ==> (#[trigger] r@[i]).id < (#[trigger] r@[j]).id,
            forall|t: TagId| #[trigger] r@.contains(t) == self@.contains_key(t),
    {
        let total = self.stores.len();
        let mut out: Vec<TagId> = Vec::new();
        let mut i: usize = 0;
        while i < total
            invariant
                i <= total,
                total == self.items().len(),
                out@.len() == i,
                forall|j: int| 0 <= j < i ==> #[trigger] out@[j] == self.items()[j].0,
            decreases total - i,
        {
            out.push(*self.stores.key_at(i));
            i = i + 1;
        }
        proof {
            self.lemma_items();
            let s = self.items();
            assert forall|a: int, b: int| 0 <= a < b < out@.len() implies (#[trigger] out@[a]).id < (
            #[trigger] out@[b]).id by {
                assert(s[a].0.id < s[b].0.id);
            }
            assert forall|t: TagId| #[trigger] out@.contains(t) == self@.contains_key(t) by {
                if out@.contains(t) {
                    let j = choose|j: int| 0 <= j < out@.len() && out@[j] == t;
                    assert(s[j].0 == t);
                }
                if self@.contains_key(t) {
                    let j = choose|j: int| 0 <= j < s.len() && (#[trigger] s[j]).0 == t;
                    assert(out@[j] == t);
                }
            }
        }
        out
    }
}

/// Inserting a store inserts its model.
proof fn lemma_insert_models()
    ensures
        forall|m: Map<TagId, TagStore>, t: TagId, s: TagStore|
            (#[trigger] m.insert(t, s)).map_values(|s: TagStore| s@) == m.map_values(
                |s: TagStore| s@,
            ).insert(t, s@),
{
    assert forall|m: Map<TagId, TagStore>, t: TagId, s: TagStore|
        (#[trigger] m.insert(t, s)).map_values(|s: TagStore| s@) == m.map_values(
            |s: TagStore| s@,
        ).insert(t, s@) by {
        assert(m.insert(t, s).map_values(|s: TagStore| s@) =~= m.map_values(
            |s: TagStore| s@,
        ).insert(t, s@));
    }
}

} // verus!
