//! The equality index: from a tag and a value to the objects that have it.

use vstd::prelude::*;
use crate::bytes::{get_array, get_u16, get_u32, le, lemma_adjacent, lemma_cat_eq, lemma_le_len,
    lemma_u16_image, lemma_u32_image, put_bytes, put_le};
use crate::index::bitmap::bitmap_set;
use crate::index::error::IndexError;
use crate::index::postings::{decoded_postings, entry_models, posting, posting_removed,
    postings_round_trip, serialises, Postings};
use crate::index::value_hash::{hash_of, value_hash};
use crate::ordmap::Key;
use crate::types::id::TagId;
use crate::types::value::Value;

verus! {

/// Size of a [`KvHashDirectoryHeader`].
pub const KV_HASH_DIRECTORY_HEADER_SIZE: usize = 8;

/// Size of a [`KvHashBucketHeader`].
pub const KV_HASH_BUCKET_HEADER_SIZE: usize = 4;

/// What follows the block header in a directory block.
#[derive(Clone, Copy, Debug)]
pub struct KvHashDirectoryHeader {
    /// `[0..1]`
    pub global_depth: u8,
    /// `[1..4]`
    pub _pad0: [u8; 3],
    /// `[4..8]`
    pub bucket_count: u32,
}

impl KvHashDirectoryHeader {
    /// The bytes on disk.
    pub open spec fn image(&self) -> Seq<u8> {
        seq![self.global_depth] + self._pad0@ + le(self.bucket_count as nat, 4)
    }

    /// Append the bytes on disk to `out`.
    pub fn put(&self, out: &mut Vec<u8>)
        ensures
            final(out)@ == old(out)@ + self.image(),
    {
        let ghost start = out@;
        out.push(self.global_depth);
        put_bytes(out, self._pad0.as_slice());
        put_le(out, self.bucket_count as u64, 4);
        proof {
            assert(out@ =~= start + self.image());
        }
    }

    /// The value whose bytes stand at `at`.
    pub fn get(s: &[u8], at: usize) -> (r: Self)
        requires
            at + 8 <= s@.len(),
        ensures
            r.image() == s@.subrange(at as int, at + 8),
    {
        let total = s.len();
        let r = KvHashDirectoryHeader {
            global_depth: s[at],
            _pad0: get_array::<3>(s, at + 1),
            bucket_count: get_u32(s, at + 4),
        };
        proof {
            assert(seq![r.global_depth] =~= s@.subrange(at as int, at + 1));
            lemma_adjacent(s@, at as int, at + 1, at + 4);
            lemma_adjacent(s@, at as int, at + 4, at + 8);
        }
        r
    }

    /// An image has 8 bytes.
    pub proof fn image_len(&self)
        ensures
            self.image().len() == 8,
    {
        broadcast use lemma_le_len;

    }

    /// The image determines the value.
    pub proof fn image_injective(x: KvHashDirectoryHeader, y: KvHashDirectoryHeader)
        requires
            x.image() == y.image(),
        ensures
            x == y,
    {
        broadcast use lemma_le_len;

        let x1 = seq![x.global_depth] + x._pad0@;
        let y1 = seq![y.global_depth] + y._pad0@;
        lemma_cat_eq(x1, le(x.bucket_count as nat, 4), y1, le(y.bucket_count as nat, 4));
        lemma_cat_eq(seq![x.global_depth], x._pad0@, seq![y.global_depth], y._pad0@);
        assert(x.global_depth == seq![x.global_depth][0] && y.global_depth == seq![y.global_depth][0]);
        assert(x._pad0 =~= y._pad0);
        lemma_u32_image(x.bucket_count, y.bucket_count);
    }
}

/// What follows the block header in a bucket block.
#[derive(Clone, Copy, Debug, PartialEq, Eq, Structural)]
pub struct KvHashBucketHeader {
    /// `[0..1]`
    pub local_depth: u8,
    /// `[1..3]`
    pub entry_count: u16,
    /// `[3..4]`
    pub _pad: u8,
}

impl KvHashBucketHeader {
    /// The bytes on disk.
    pub open spec fn image(&self) -> Seq<u8> {
        seq![self.local_depth] + le(self.entry_count as nat, 2) + seq![self._pad]
    }

    /// Append the bytes on disk to `out`.
    pub fn put(&self, out: &mut Vec<u8>)
        ensures
            final(out)@ == old(out)@ + self.image(),
    {
        let ghost start = out@;
        out.push(self.local_depth);
        put_le(out, self.entry_count as u64, 2);
        out.push(self._pad);
        proof {
            assert(out@ =~= start + self.image());
        }
    }

    /// The value whose bytes stand at `at`.
    pub fn get(s: &[u8], at: usize) -> (r: Self)
        requires
            at + 4 <= s@.len(),
        ensures
            r.image() == s@.subrange(at as int, at + 4),
    {
        let total = s.len();
        let r = KvHashBucketHeader {
            local_depth: s[at],
            entry_count: get_u16(s, at + 1),
            _pad: s[at + 3],
        };
        proof {
            assert(seq![r.local_depth] =~= s@.subrange(at as int, at + 1));
            assert(seq![r._pad] =~= s@.subrange(at + 3, at + 4));
            lemma_adjacent(s@, at as int, at + 1, at + 3);
            lemma_adjacent(s@, at as int, at + 3, at + 4);
        }
        r
    }

    /// An image has 4 bytes.
    pub proof fn image_len(&self)
        ensures
            self.image().len() == 4,
    {
        broadcast use lemma_le_len;

    }

    /// The image determines the value.
    pub proof fn image_injective(x: KvHashBucketHeader, y: KvHashBucketHeader)
        requires
            x.image() == y.image(),
        ensures
            x == y,
    {
        broadcast use lemma_le_len;

        let x1 = seq![x.local_depth] + le(x.entry_count as nat, 2);
        let y1 = seq![y.local_depth] + le(y.entry_count as nat, 2);
        lemma_cat_eq(x1, seq![x._pad], y1, seq![y._pad]);
        lemma_cat_eq(
            seq![x.local_depth],
            le(x.entry_count as nat, 2),
            seq![y.local_depth],
            le(y.entry_count as nat, 2),
        );
        assert(x.local_depth == seq![x.local_depth][0] && y.local_depth == seq![y.local_depth][0]);
        lemma_u16_image(x.entry_count, y.entry_count);
        assert(x._pad == seq![x._pad][0] && y._pad == seq![y._pad][0]);
    }
}

impl Key for (TagId, u64) {
    type Model = (TagId, u64);

    open spec fn model(&self) -> (TagId, u64) {
        *self
    }

    open spec fn precedes(a: (TagId, u64), b: (TagId, u64)) -> bool {
        a.0.id < b.0.id || (a.0.id == b.0.id && a.1 < b.1)
    }

    proof fn precedes_is_order(a: (TagId, u64), b: (TagId, u64), c: (TagId, u64)) {
    }

    fn is_before(&self, other: &(TagId, u64)) -> (r: bool) {
        self.0.id < other.0.id || (self.0.id == other.0.id && self.1 < other.1)
    }

    fn copy_key(&self) -> (r: (TagId, u64)) {
        (self.0, self.1)
    }
}

/// The objects that have a value, by tag and hash of the value. The secret
/// keys the hash.
#[derive(Clone, Debug)]
pub struct KvIndex {
    entries: Postings<(TagId, u64)>,
    secret: [u8; 16],
}

impl Default for KvIndex {
    fn default() -> (r: Self)
        ensures
            r.wf(),
            r@ == Map::<(TagId, u64), Set<u32>>::empty(),
            r.secret_bytes() == crate::bytes::zeros(16),
    {
        KvIndex::new()
    }
}

impl KvIndex {
    pub closed spec fn view(&self) -> Map<(TagId, u64), Set<u32>> {
        self.entries@
    }

    pub closed spec fn wf(&self) -> bool {
        self.entries.wf()
    }

    /// The secret.
    pub closed spec fn secret_bytes(&self) -> Seq<u8> {
        self.secret@
    }

    /// The entries in ascending order.
    pub closed spec fn items(&self) -> Seq<((TagId, u64), roaring::RoaringBitmap)> {
        self.entries.items()
    }

    /// The key of a value.
    pub open spec fn key(&self, tag: TagId, value: Value) -> (TagId, u64) {
        (tag, hash_of(value@, self.secret_bytes()))
    }

    /// An empty index with a secret of zeros.
    pub fn new() -> (r: Self)
        ensures
            r.wf(),
            r@ == Map::<(TagId, u64), Set<u32>>::empty(),
            r.secret_bytes() == crate::bytes::zeros(16),
    {
        let r = KvIndex { entries: Postings::new(), secret: [0u8; 16] };
        proof {
            assert(r.secret@ =~= crate::bytes::zeros(16));
        }
        r
    }

    /// An empty index.
    pub fn with_secret(secret: [u8; 16]) -> (r: Self)
        ensures
            r.wf(),
            r@ == Map::<(TagId, u64), Set<u32>>::empty(),
            r.secret_bytes() == secret@,
    {
        KvIndex { entries: Postings::new(), secret }
    }

    /// Note that an object has a value.
    pub fn insert(&mut self, tag: TagId, value: &Value, oid_local: u32)
        requires
            old(self).wf(),
        ensures
            final(self).wf(),
            final(self).secret_bytes() == old(self).secret_bytes(),
            final(self)@ == old(self)@.insert(
                old(self).key(tag, *value),
                posting(old(self)@, old(self).key(tag, *value)).insert(oid_local),
            ),
    {
        let h = value_hash(value, &self.secret);
        self.entries.insert((tag, h), oid_local);
    }

    /// Note that an object no longer has a value. Whether it had.
    pub fn remove(&mut self, tag: TagId, value: &Value, oid_local: u32) -> (r: bool)
        requires
            old(self).wf(),
        ensures
            final(self).wf(),
            final(self).secret_bytes() == old(self).secret_bytes(),
            r == posting(old(self)@, old(self).key(tag, *value)).contains(oid_local),
            final(self)@ == posting_removed(old(self)@, old(self).key(tag, *value), oid_local),
    {
        let h = value_hash(value, &self.secret);
        self.entries.remove((tag, h), oid_local)
    }

    /// The objects that have a value.
    pub fn lookup(&self, tag: TagId, value: &Value) -> (r: roaring::RoaringBitmap)
        requires
            self.wf(),
        ensures
            bitmap_set(r) == posting(self@, self.key(tag, *value)),
    {
        let h = value_hash(value, &self.secret);
        self.entries.lookup(&(tag, h))
    }

    /// The hashes of all values of a tag, in ascending order.
    pub fn value_hashes_for(&self, tag: TagId) -> (r: Vec<u64>)
        requires
            self.wf(),
        ensures
            forall|h: u64| #[trigger] r@.contains(h) == self@.contains_key((tag, h)),
            forall|i: int, j: int| 0 <= i < j < r@.len() ==> #[trigger] r@[i] < #[trigger] r@[j],
    {
        let total = self.entries.len();
        let ghost items = self.items();
        let mut out: Vec<u64> = Vec::new();
        let mut i: usize = 0;
        proof {
            self.entries.lemma_items();
        }
        while i < total
            invariant
                i <= total,
                items == self.entries.items(),
                total == items.len(),
                forall|a: int, b: int|
                    0 <= a < b < items.len() ==> <(TagId, u64)>::precedes(
                        (#[trigger] items[a]).0,
                        (#[trigger] items[b]).0,
                    ),
                forall|h: u64| #[trigger]
                    out@.contains(h) ==> exists|a: int|
                        0 <= a < i && (#[trigger] items[a]).0 == (tag, h),
                forall|a: int|
                    0 <= a < i && (#[trigger] items[a]).0.0 == tag ==> out@.contains(
                        items[a].0.1,
                    ),
                forall|a: int, b: int|
                    0 <= a < b < out@.len() ==> #[trigger] out@[a] < #[trigger] out@[b],
            decreases total - i,
        {
            let key = *self.entries.key_at(i);
            let ghost before = out@;
            if key.0 == tag {
                out.push(key.1);
            }
            proof {
                assert(key == items[i as int].0);
                assert forall|h: u64| #[trigger] out@.contains(h) implies exists|a: int|
                    0 <= a < i + 1 && (#[trigger] items[a]).0 == (tag, h) by {
                    let k = choose|k: int| 0 <= k < out@.len() && out@[k] == h;
                    if k < before.len() {
                        assert(before[k] == h);
                        assert(before.contains(h));
                    } else {
                        assert(items[i as int].0 == (tag, h));
                    }
                }
                assert forall|a: int|
                    0 <= a < i + 1 && (#[trigger] items[a]).0.0 == tag implies out@.contains(
                    items[a].0.1,
                ) by {
                    if a < i {
                        let k = choose|k: int| 0 <= k < before.len() && before[k] == items[a].0.1;
                        assert(out@[k] == items[a].0.1);
                    } else {
                        assert(out@[before.len() as int] == key.1);
                    }
                }
                assert forall|a: int, b: int| 0 <= a < b < out@.len() implies #[trigger] out@[a]
                    < #[trigger] out@[b] by {
                    if b == before.len() {
                        assert(before[a] == out@[a]);
                        assert(before.contains(out@[a]));
                        let k = choose|k: int|
                            0 <= k < i && (#[trigger] items[k]).0 == (tag, out@[a]);
                        assert(<(TagId, u64)>::precedes(items[k].0, items[i as int].0));
                    }
                }
            }
            i = i + 1;
        }
        proof {
            assert forall|h: u64| #[trigger] out@.contains(h) == self@.contains_key((tag, h)) by {
                if out@.contains(h) {
                    let a = choose|a: int| 0 <= a < i && (#[trigger] items[a]).0 == (tag, h);
                    assert(self.entries@.contains_key(items[a].0));
                }
                if self@.contains_key((tag, h)) {
                    let a = choose|a: int|
                        0 <= a < items.len() && (#[trigger] items[a]).0 == (tag, h);
                    assert(items[a].0.0 == tag);
                }
            }
        }
        out
    }

    /// Number of pairs of a tag and the hash of one of its values.
    pub fn entry_count(&self) -> (r: usize)
        requires
            self.wf(),
        ensures
            r == self@.len(),
    {
        self.entries.len()
    }

    /// The index as plain data.
    pub fn to_image(&self) -> (r: KvImage)
        requires
            self.wf(),
        ensures
            r.secret@ == self.secret_bytes(),
            serialises(r.entries@, self.items()),
    {
        KvImage { entries: self.entries.to_entries(), secret: self.secret }
    }

    /// The index that plain data stand for.
    pub fn from_image(image: &KvImage) -> (r: Result<Self, IndexError>)
        ensures
            match decoded_postings(entry_models(image.entries@), image.entries@.len() as int) {
                Some(m) => r is Ok && r->Ok_0.wf() && r->Ok_0@ == m && r->Ok_0.secret_bytes()
                    == image.secret@,
                None => r is Err && r->Err_0 is Roaring,
            },
    {
        match Postings::from_entries(&image.entries) {
            Ok(entries) => Ok(KvIndex { entries, secret: image.secret }),
            Err(e) => Err(e),
        }
    }

    /// The index is what its plain data stand for.
    pub proof fn image_round_trip(&self, image: KvImage)
        requires
            self.wf(),
            serialises(image.entries@, self.items()),
        ensures
            decoded_postings(entry_models(image.entries@), image.entries@.len() as int) == Some(
                self@,
            ),
    {
        let s = entry_models(image.entries@);
        assert forall|j: int| 0 <= j < s.len() implies (#[trigger] s[j]).0 == self.items()[j].0
            && crate::index::bitmap::bitmap_decoded(s[j].1) == Some(
            bitmap_set(self.items()[j].1),
        ) by {
            assert(image.entries@[j].0.model() == self.items()[j].0);
        }
        postings_round_trip(&self.entries, s);
    }
}

/// An equality index as plain data, to be serialised.
#[derive(Debug)]
pub struct KvImage {
    pub entries: Vec<((TagId, u64), Vec<u8>)>,
    pub secret: [u8; 16],
}

} // verus!
