//! Backpointers: what owns the bytes at a physical place.

use vstd::prelude::*;
use crate::bytes::{be, get_array, get_be, get_u16, get_u32, le, lemma_adjacent, lemma_be_len,
    lemma_be_of_be_value, lemma_be_order, lemma_be_value_of_be, lemma_cat_eq, lemma_le_len,
    lemma_lex_blocks, lemma_lex_prefix, lemma_pow256_values, lemma_u16_image, lemma_u32_image,
    lex_less, put_be, put_bytes, put_le};
use crate::meta::error::MetaError;
use crate::ordmap::{lemma_items_map, Key, OrdMap};

verus! {

/// A physical place: a sector of a bucket of a disk.
#[derive(Clone, Copy, Debug, Default, PartialEq, Eq, PartialOrd, Ord, Hash, Structural)]
pub struct BackpointerKey {
    pub disk_id: u16,
    pub bucket_no: u32,
    /// In sectors of 4096 bytes.
    pub sector_offset: u16,
}

/// `a` comes before `b`: by disk, then bucket, then sector.
pub open spec fn key_precedes(a: BackpointerKey, b: BackpointerKey) -> bool {
    ||| a.disk_id < b.disk_id
    ||| a.disk_id == b.disk_id && a.bucket_no < b.bucket_no
    ||| a.disk_id == b.disk_id && a.bucket_no == b.bucket_no && a.sector_offset < b.sector_offset
}

impl BackpointerKey {
    pub fn new(disk_id: u16, bucket_no: u32, sector_offset: u16) -> (r: Self)
        ensures
            r == (BackpointerKey { disk_id, bucket_no, sector_offset }),
    {
        BackpointerKey { disk_id, bucket_no, sector_offset }
    }

    /// The image: eight bytes that sort as the keys do.
    pub open spec fn image(&self) -> Seq<u8> {
        be(self.disk_id as nat, 2) + (be(self.bucket_no as nat, 4) + be(
            self.sector_offset as nat,
            2,
        ))
    }

    /// The image in a buffer of its own.
    pub fn to_bytes(&self) -> (r: Vec<u8>)
        ensures
            r@ == self.image(),
            r@.len() == 8,
    {
        let mut out: Vec<u8> = Vec::new();
        put_be(&mut out, self.disk_id as u64, 2);
        put_be(&mut out, self.bucket_no as u64, 4);
        put_be(&mut out, self.sector_offset as u64, 2);
        proof {
            broadcast use lemma_be_len;

            assert(out@ =~= self.image());
        }
        out
    }

    /// The key with this image.
    pub fn from_bytes(s: &[u8]) -> (r: Self)
        requires
            s@.len() == 8,
        ensures
            r.image() == s@,
    {
        proof {
            lemma_pow256_values();
            lemma_be_of_be_value(s@.subrange(0, 2));
            lemma_be_of_be_value(s@.subrange(2, 6));
            lemma_be_of_be_value(s@.subrange(6, 8));
        }
        let r = BackpointerKey {
            disk_id: get_be(s, 0, 2) as u16,
            bucket_no: get_be(s, 2, 4) as u32,
            sector_offset: get_be(s, 6, 2) as u16,
        };
        proof {
            assert(r.image() =~= s@);
        }
        r
    }
}

/// Images compare, byte by byte, as the keys do.
pub proof fn key_image_order(a: BackpointerKey, b: BackpointerKey)
    ensures
        lex_less(a.image(), b.image()) == key_precedes(a, b),
{
    broadcast use lemma_be_len;

    lemma_pow256_values();
    let (p, q) = (be(a.disk_id as nat, 2), be(b.disk_id as nat, 2));
    let (x, y) = (be(a.bucket_no as nat, 4), be(b.bucket_no as nat, 4));
    let (u, v) = (be(a.sector_offset as nat, 2), be(b.sector_offset as nat, 2));
    lemma_be_order(a.disk_id as nat, b.disk_id as nat, 2);
    lemma_be_order(a.bucket_no as nat, b.bucket_no as nat, 4);
    lemma_be_order(a.sector_offset as nat, b.sector_offset as nat, 2);
    lemma_be_value_of_be(a.disk_id as nat, 2);
    lemma_be_value_of_be(b.disk_id as nat, 2);
    lemma_be_value_of_be(a.bucket_no as nat, 4);
    lemma_be_value_of_be(b.bucket_no as nat, 4);
    if p == q {
        lemma_lex_prefix(p, x + u, y + v);
        if x == y {
            lemma_lex_prefix(x, u, v);
        } else {
            lemma_lex_blocks(x, y, u, v);
        }
    } else {
        lemma_lex_blocks(p, q, x + u, y + v);
    }
}

impl Key for BackpointerKey {
    type Model = BackpointerKey;

    open spec fn model(&self) -> BackpointerKey {
        *self
    }

    open spec fn precedes(a: BackpointerKey, b: BackpointerKey) -> bool {
        key_precedes(a, b)
    }

    proof fn precedes_is_order(a: BackpointerKey, b: BackpointerKey, c: BackpointerKey) {
    }

    fn is_before(&self, other: &BackpointerKey) -> (r: bool) {
        self.disk_id < other.disk_id || (self.disk_id == other.disk_id && self.bucket_no
            < other.bucket_no) || (self.disk_id == other.disk_id && self.bucket_no
            == other.bucket_no && self.sector_offset < other.sector_offset)
    }

    fn copy_key(&self) -> (r: BackpointerKey) {
        *self
    }
}

/// What kind of thing owns an extent.
#[derive(Clone, Copy, Debug, PartialEq, Eq, Hash, Structural)]
pub enum OwnerKind {
    /// Owner key: object id, extent number.
    BlobExtent,
    /// Owner key: the first bytes of the chunk's hash.
    Chunk,
    /// Owner key: tree kind, level, prefix of the smallest key.
    BtreeNode,
    /// Owner key: tag, container number.
    TagBitmapExtent,
    /// Owner key: object id.
    OverflowRecord,
}

impl OwnerKind {
    /// The number that stands for the kind on disk.
    pub open spec fn number(&self) -> u8 {
        match self {
            OwnerKind::BlobExtent => 1,
            OwnerKind::Chunk => 2,
            OwnerKind::BtreeNode => 3,
            OwnerKind::TagBitmapExtent => 4,
            OwnerKind::OverflowRecord => 5,
        }
    }

    pub fn to_u8(&self) -> (r: u8)
        ensures
            r == self.number(),
    {
        match self {
            OwnerKind::BlobExtent => 1,
            OwnerKind::Chunk => 2,
            OwnerKind::BtreeNode => 3,
            OwnerKind::TagBitmapExtent => 4,
            OwnerKind::OverflowRecord => 5,
        }
    }

    pub fn from_u8(v: u8) -> (r: Option<Self>)
        ensures
            match r {
                Some(k) => k.number() == v,
                None => v == 0 || v > 5,
            },
    {
        match v {
            1 => Some(OwnerKind::BlobExtent),
            2 => Some(OwnerKind::Chunk),
            3 => Some(OwnerKind::BtreeNode),
            4 => Some(OwnerKind::TagBitmapExtent),
            5 => Some(OwnerKind::OverflowRecord),
            _ => None,
        }
    }
}

/// The owner of an extent. Unused bytes of `owner_key` are zero.
#[derive(Clone, Copy, Debug, Default, PartialEq, Eq)]
pub struct BackpointerValue {
    /// `[0..1]` number of an [`OwnerKind`].
    pub owner_kind: u8,
    /// `[1..2]`
    pub _pad: u8,
    /// `[2..4]` length of the extent in sectors.
    pub length_sectors: u16,
    /// `[4..8]` generation of the bucket when the entry was made.
    pub bucket_gen: u32,
    /// `[8..24]` meant as `owner_kind` says.
    pub owner_key: [u8; 16],
}

impl BackpointerValue {
    /// The kind of owner.
    pub fn owner_kind(&self) -> (r: Result<OwnerKind, MetaError>)
        ensures
            match r {
                Ok(k) => k.number() == self.owner_kind,
                Err(e) => {
                    &&& self.owner_kind == 0 || self.owner_kind > 5
                    &&& e == MetaError::InvalidOwnerKind(self.owner_kind)
                },
            },
    {
        match OwnerKind::from_u8(self.owner_kind) {
            Some(k) => Ok(k),
            None => Err(MetaError::InvalidOwnerKind(self.owner_kind)),
        }
    }

    /// The bytes on disk.
    pub open spec fn image(&self) -> Seq<u8> {
        seq![self.owner_kind] + seq![self._pad] + le(self.length_sectors as nat, 2) + le(
            self.bucket_gen as nat,
            4,
        ) + self.owner_key@
    }

    /// The image in a buffer of its own.
    pub fn to_bytes(&self) -> (r: Vec<u8>)
        ensures
            r@ == self.image(),
            r@.len() == 24,
    {
        let mut out: Vec<u8> = Vec::new();
        out.push(self.owner_kind);
        out.push(self._pad);
        put_le(&mut out, self.length_sectors as u64, 2);
        put_le(&mut out, self.bucket_gen as u64, 4);
        put_bytes(&mut out, self.owner_key.as_slice());
        proof {
            broadcast use lemma_le_len;

            assert(out@ =~= self.image());
        }
        out
    }

    /// The value with this image.
    pub fn from_bytes(s: &[u8]) -> (r: Self)
        requires
            s@.len() == 24,
        ensures
            r.image() == s@,
    {
        let r = BackpointerValue {
            owner_kind: s[0],
            _pad: s[1],
            length_sectors: get_u16(s, 2),
            bucket_gen: get_u32(s, 4),
            owner_key: get_array::<16>(s, 8),
        };
        proof {
            assert(seq![r.owner_kind] =~= s@.subrange(0, 1));
            assert(seq![r._pad] =~= s@.subrange(1, 2));
            lemma_adjacent(s@, 0, 1, 2);
            lemma_adjacent(s@, 0, 2, 4);
            lemma_adjacent(s@, 0, 4, 8);
            lemma_adjacent(s@, 0, 8, 24);
            assert(s@.subrange(0, 24) =~= s@);
        }
        r
    }

    /// The image determines the value.
    pub proof fn image_injective(a: BackpointerValue, b: BackpointerValue)
        requires
            a.image() == b.image(),
        ensures
            a == b,
    {
        broadcast use lemma_le_len;

        let a1 = seq![a.owner_kind] + seq![a._pad];
        let b1 = seq![b.owner_kind] + seq![b._pad];
        let a2 = a1 + le(a.length_sectors as nat, 2);
        let b2 = b1 + le(b.length_sectors as nat, 2);
        let a3 = a2 + le(a.bucket_gen as nat, 4);
        let b3 = b2 + le(b.bucket_gen as nat, 4);
        lemma_cat_eq(a3, a.owner_key@, b3, b.owner_key@);
        lemma_cat_eq(a2, le(a.bucket_gen as nat, 4), b2, le(b.bucket_gen as nat, 4));
        lemma_cat_eq(a1, le(a.length_sectors as nat, 2), b1, le(b.length_sectors as nat, 2));
        lemma_cat_eq(seq![a.owner_kind], seq![a._pad], seq![b.owner_kind], seq![b._pad]);
        assert(seq![a.owner_kind][0] == seq![b.owner_kind][0]);
        assert(seq![a._pad][0] == seq![b._pad][0]);
        lemma_u16_image(a.length_sectors, b.length_sectors);
        lemma_u32_image(a.bucket_gen, b.bucket_gen);
        assert(a.owner_key =~= b.owner_key);
    }
}

/// The backpointers in memory.
#[derive(Clone, Debug)]
pub struct BackpointerTable {
    entries: OrdMap<BackpointerKey, BackpointerValue>,
}

/// `s` lists those entries of `m` whose key satisfies `keep`, in key order.
pub open spec fn lists_range(
    s: Seq<(BackpointerKey, BackpointerValue)>,
    m: Map<BackpointerKey, BackpointerValue>,
    keep: spec_fn(BackpointerKey) -> bool,
) -> bool {
    &&& forall|i: int, j: int|
        0 <= i < j < s.len() ==> key_precedes((#[trigger] s[i]).0, (#[trigger] s[j]).0)
    &&& forall|i: int|
        0 <= i < s.len() ==> m.contains_key((#[trigger] s[i]).0) && m[s[i].0] == s[i].1 && keep(
            s[i].0,
        )
    &&& forall|k: BackpointerKey| #[trigger]
        m.contains_key(k) && keep(k) ==> exists|i: int| 0 <= i < s.len() && (#[trigger] s[i]).0 == k
}

impl Default for BackpointerTable {
    fn default() -> (r: Self)
        ensures
            r.wf(),
            r@ == Map::<BackpointerKey, BackpointerValue>::empty(),
    {
        BackpointerTable::new()
    }
}

/// The keys in the given bucket.
pub open spec fn in_bucket(disk_id: u16, bucket_no: u32) -> spec_fn(BackpointerKey) -> bool {
    |k: BackpointerKey| k.disk_id == disk_id && k.bucket_no == bucket_no
}

/// The keys on the given disk.
pub open spec fn on_disk(disk_id: u16) -> spec_fn(BackpointerKey) -> bool {
    |k: BackpointerKey| k.disk_id == disk_id
}

/// Every key.
pub open spec fn any_key() -> spec_fn(BackpointerKey) -> bool {
    |k: BackpointerKey| true
}

impl BackpointerTable {
    pub closed spec fn view(&self) -> Map<BackpointerKey, BackpointerValue> {
        self.entries@
    }

    pub closed spec fn wf(&self) -> bool {
        self.entries.wf()
    }

    /// An empty table.
    pub fn new() -> (r: Self)
        ensures
            r.wf(),
            r@ == Map::<BackpointerKey, BackpointerValue>::empty(),
    {
        BackpointerTable { entries: OrdMap::new() }
    }

    /// Insert or overwrite the backpointer of `key`.
    pub fn insert(&mut self, key: BackpointerKey, value: BackpointerValue)
        requires
            old(self).wf(),
        ensures
            final(self).wf(),
            final(self)@ == old(self)@.insert(key, value),
    {
        self.entries.insert(key, value);
    }

    /// Remove the backpointer of `key`, and return it.
    pub fn remove(&mut self, key: &BackpointerKey) -> (r: Option<BackpointerValue>)
        requires
            old(self).wf(),
        ensures
            final(self).wf(),
            final(self)@ == old(self)@.remove(*key),
            match r {
                Some(v) => old(self)@.contains_key(*key) && v == old(self)@[*key],
                None => !old(self)@.contains_key(*key),
            },
    {
        self.entries.remove(key)
    }

    /// The backpointer of `key`.
    pub fn get(&self, key: &BackpointerKey) -> (r: Option<&BackpointerValue>)
        requires
            self.wf(),
        ensures
            match r {
                Some(v) => self@.contains_key(*key) && *v == self@[*key],
                None => !self@.contains_key(*key),
            },
    {
        self.entries.get(key)
    }

    /// Number of entries.
    pub fn len(&self) -> (r: usize)
        requires
            self.wf(),
        ensures
            r == self@.len(),
            self@.dom().finite(),
    {
        self.entries.len()
    }

    /// Whether the table is empty.
    pub fn is_empty(&self) -> (r: bool)
        requires
            self.wf(),
        ensures
            r == (self@ == Map::<BackpointerKey, BackpointerValue>::empty()),
    {
        self.entries.is_empty()
    }

    /// All entries in key order.
    pub fn iter(&self) -> (r: Vec<(BackpointerKey, BackpointerValue)>)
        requires
            self.wf(),
        ensures
            lists_range(r@, self@, any_key()),
    {
        self.list(0, u16::MAX, 0, u32::MAX, Ghost(any_key()))
    }

    /// Every backpointer in a bucket, in key order.
    pub fn range_in_bucket(&self, disk_id: u16, bucket_no: u32) -> (r: Vec<
        (BackpointerKey, BackpointerValue),
    >)
        requires
            self.wf(),
        ensures
            lists_range(r@, self@, in_bucket(disk_id, bucket_no)),
    {
        self.list(disk_id, disk_id, bucket_no, bucket_no, Ghost(in_bucket(disk_id, bucket_no)))
    }

    /// Every backpointer on a disk, in key order.
    pub fn range_on_disk(&self, disk_id: u16) -> (r: Vec<(BackpointerKey, BackpointerValue)>)
        requires
            self.wf(),
        ensures
            lists_range(r@, self@, on_disk(disk_id)),
    {
        self.list(disk_id, disk_id, 0, u32::MAX, Ghost(on_disk(disk_id)))
    }

    /// The entries with disk and bucket in the given closed ranges.
    fn list(
        &self,
        low_disk: u16,
        high_disk: u16,
        low_bucket: u32,
        high_bucket: u32,
        keep: Ghost<spec_fn(BackpointerKey) -> bool>,
    ) -> (r: Vec<(BackpointerKey, BackpointerValue)>)
        requires
            self.wf(),
            forall|k: BackpointerKey| #[trigger]
                keep@(k) <==> low_disk <= k.disk_id <= high_disk && low_bucket <= k.bucket_no
                    <= high_bucket,
        ensures
            lists_range(r@, self@, keep@),
    {
        let total = self.entries.len();
        let ghost s = self.entries.items();
        let ghost m = self@;
        let mut out: Vec<(BackpointerKey, BackpointerValue)> = Vec::new();
        let mut i: usize = 0;
        proof {
            lemma_items_map::<BackpointerKey, BackpointerValue>(s);
        }
        while i < total
            invariant
                i <= total,
                total == s.len(),
                self.wf(),
                s == self.entries.items(),
                m == self@,
                forall|k: BackpointerKey| #[trigger]
                    keep@(k) <==> low_disk <= k.disk_id <= high_disk && low_bucket <= k.bucket_no
                        <= high_bucket,
                forall|a: int, b: int|
                    0 <= a < b < out@.len() ==> key_precedes(
                        (#[trigger] out@[a]).0,
                        (#[trigger] out@[b]).0,
                    ),
                forall|a: int|
                    0 <= a < out@.len() ==> m.contains_key((#[trigger] out@[a]).0)
                        && m[out@[a].0] == out@[a].1 && keep@(out@[a].0),
                forall|a: int, b: int|
                    0 <= a < out@.len() && i <= b < s.len() ==> key_precedes(
                        (#[trigger] out@[a]).0,
                        (#[trigger] s[b]).0,
                    ),
                forall|b: int|
                    0 <= b < i && keep@((#[trigger] s[b]).0) ==> exists|a: int|
                        0 <= a < out@.len() && (#[trigger] out@[a]).0 == s[b].0,
            decreases total - i,
        {
            proof {
                lemma_items_map::<BackpointerKey, BackpointerValue>(s);
            }
            let k = *self.entries.key_at(i);
            let v = *self.entries.value_at(i);
            let ghost before = out@;
            if low_disk <= k.disk_id && k.disk_id <= high_disk && low_bucket <= k.bucket_no
                && k.bucket_no <= high_bucket {
                out.push((k, v));
                proof {
                    assert(keep@(k));
                    assert(m.contains_key(s[i as int].0) && m[s[i as int].0] == s[i as int].1);
                    assert(out@[before.len() as int] == (k, v));
                    assert forall|b: int| i < b < s.len() implies key_precedes(
                        k,
                        (#[trigger] s[b]).0,
                    ) by {
                        assert(BackpointerKey::precedes(s[i as int].0, s[b].0));
                    }
                    assert forall|b: int| 0 <= b < i + 1 && keep@((#[trigger] s[b]).0) implies
                        exists|a: int| 0 <= a < out@.len() && (#[trigger] out@[a]).0 == s[b].0 by {
                        if b < i {
                            let a = choose|a: int|
                                0 <= a < before.len() && (#[trigger] before[a]).0 == s[b].0;
                            assert(out@[a].0 == s[b].0);
                        } else {
                            assert(out@[before.len() as int].0 == s[b].0);
                        }
                    }
                }
            }
            i = i + 1;
        }
        proof {
            assert forall|k: BackpointerKey| #[trigger] m.contains_key(k) && keep@(k) implies exists|
                i: int,
            |
                0 <= i < out@.len() && (#[trigger] out@[i]).0 == k by {
                let b = choose|b: int| 0 <= b < s.len() && #[trigger] s[b].0 == k;
                assert(keep@(s[b].0));
            }
        }
        out
    }
}

} // verus!
