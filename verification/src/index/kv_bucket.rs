//! A bucket block of the extendible hash table.

use vstd::prelude::*;
use crate::bytes::{get_array, get_u16, get_u32, get_u64, le, lemma_adjacent, lemma_cat_eq,
    lemma_le_len, lemma_u16_image, lemma_u32_image, lemma_u64_image, put_bytes, put_le, zeros};
use crate::index::overflow_chain::null_ref;
use crate::storage::block::{same_magic, BlockHeader, BlockKind, BlockRef,
    BLOCK_PREAMBLE_MAGIC_BLOCK};
use crate::storage::crc::{block_crc, crc32c};
use crate::storage::device::{overwritten, BlockDevice};
use crate::storage::records::{get_images, images, lemma_images_injective, lemma_images_len,
    put_images, Fixed};

verus! {

/// Size of a bucket block.
pub const KV_BUCKET_BLOCK_SIZE: usize = 4096;

/// Entries of a bucket, at most.
pub const KV_BUCKET_MAX_ENTRIES: usize = 144;

/// Format version of a bucket block.
pub const KV_BUCKET_FORMAT_VERSION: u16 = 1;

/// One entry: a tag, the hash of a value, and the bitmap of the objects that
/// have it.
#[derive(Clone, Copy, Debug, PartialEq, Eq, Structural)]
pub struct KvBucketEntry {
    /// `[0..4]`
    pub tag_id: u32,
    /// `[4..12]`
    pub value_hash: u64,
    /// `[12..28]`
    pub bitmap_ref: BlockRef,
}

impl Default for KvBucketEntry {
    /// An entry in which everything is zero.
    fn default() -> (r: Self)
        ensures
            r == (KvBucketEntry { tag_id: 0, value_hash: 0, bitmap_ref: null_ref() }),
    {
        KvBucketEntry { tag_id: 0, value_hash: 0, bitmap_ref: BlockRef::default() }
    }
}

impl KvBucketEntry {
    /// The bytes on disk.
    pub open spec fn image(&self) -> Seq<u8> {
        le(self.tag_id as nat, 4) + le(self.value_hash as nat, 8) + self.bitmap_ref.image()
    }

    /// Append the bytes on disk to `out`.
    pub fn put(&self, out: &mut Vec<u8>)
        ensures
            final(out)@ == old(out)@ + self.image(),
    {
        let ghost start = out@;
        put_le(out, self.tag_id as u64, 4);
        put_le(out, self.value_hash, 8);
        self.bitmap_ref.put(out);
        proof {
            assert(out@ =~= start + self.image());
        }
    }

    /// The value whose bytes stand at `at`.
    pub fn get(s: &[u8], at: usize) -> (r: Self)
        requires
            at + 28 <= s@.len(),
        ensures
            r.image() == s@.subrange(at as int, at + 28),
    {
        let total = s.len();
        let r = KvBucketEntry {
            tag_id: get_u32(s, at),
            value_hash: get_u64(s, at + 4),
            bitmap_ref: BlockRef::get(s, at + 12),
        };
        proof {
            lemma_adjacent(s@, at as int, at + 4, at + 12);
            lemma_adjacent(s@, at as int, at + 12, at + 28);
        }
        r
    }

    /// An image has 28 bytes.
    pub proof fn image_len(&self)
        ensures
            self.image().len() == 28,
    {
        broadcast use lemma_le_len;

        self.bitmap_ref.image_len();
    }

    /// The image determines the value.
    pub proof fn image_injective(x: KvBucketEntry, y: KvBucketEntry)
        requires
            x.image() == y.image(),
        ensures
            x == y,
    {
        broadcast use lemma_le_len;

        x.bitmap_ref.image_len();
        y.bitmap_ref.image_len();
        let x1 = le(x.tag_id as nat, 4) + le(x.value_hash as nat, 8);
        let y1 = le(y.tag_id as nat, 4) + le(y.value_hash as nat, 8);
        lemma_cat_eq(x1, x.bitmap_ref.image(), y1, y.bitmap_ref.image());
        lemma_cat_eq(
            le(x.tag_id as nat, 4),
            le(x.value_hash as nat, 8),
            le(y.tag_id as nat, 4),
            le(y.value_hash as nat, 8),
        );
        lemma_u32_image(x.tag_id, y.tag_id);
        lemma_u64_image(x.value_hash, y.value_hash);
        BlockRef::image_injective(x.bitmap_ref, y.bitmap_ref);
    }
}

impl Fixed for KvBucketEntry {
    open spec fn bytes(&self) -> Seq<u8> {
        self.image()
    }

    open spec fn width() -> nat {
        28
    }

    proof fn bytes_len(&self) {
        self.image_len();
    }

    proof fn bytes_injective(x: Self, y: Self) {
        KvBucketEntry::image_injective(x, y);
    }

    fn put_bytes(&self, out: &mut Vec<u8>) {
        self.put(out);
    }

    fn get_bytes(s: &[u8], at: usize) -> (r: Self) {
        KvBucketEntry::get(s, at)
    }
}

/// A bucket.
#[derive(Clone, Copy, Debug)]
pub struct KvBucketBlock {
    /// `[0..32]`
    pub header: BlockHeader,
    /// `[32..33]` how many bits all hashes in the bucket share.
    pub local_depth: u8,
    /// `[33..35]`
    pub entry_count: u16,
    /// `[35..36]`
    pub _pad: u8,
    /// `[36..4068]`
    pub entries: [KvBucketEntry; 144],
    /// `[4068..4092]`
    pub _pad_tail: [u8; 24],
    /// `[4092..4096]` checksum of all bytes before it.
    pub crc: u32,
}

/// What can be wrong with a bucket block.
#[derive(Clone, Debug, PartialEq, Eq)]
#[allow(inconsistent_fields)]
pub enum KvBucketError {
    CrcMismatch { expected: u32, actual: u32 },
    InvalidMagic { actual: [u8; 4] },
    InvalidBlockKind(u16),
    InvalidFormatVersion(u16),
    /// More entries than a bucket has.
    OverCapacity(u16),
    /// There is no room for another entry.
    BucketFull,
}

/// Why the fields of a block are not accepted, if they are not.
pub open spec fn bucket_form_fault(b: KvBucketBlock) -> Option<KvBucketError> {
    if b.header.pre.magic@ != BLOCK_PREAMBLE_MAGIC_BLOCK@ {
        Some(KvBucketError::InvalidMagic { actual: b.header.pre.magic })
    } else if b.header.pre.kind != BlockKind::KvHashBucket.number() {
        Some(KvBucketError::InvalidBlockKind(b.header.pre.kind))
    } else if b.header.pre.format_version != KV_BUCKET_FORMAT_VERSION {
        Some(KvBucketError::InvalidFormatVersion(b.header.pre.format_version))
    } else if b.entry_count > 144 {
        Some(KvBucketError::OverCapacity(b.entry_count))
    } else {
        None
    }
}

/// Why a block is not accepted, if it is not.
pub open spec fn bucket_fault(b: KvBucketBlock) -> Option<KvBucketError> {
    match bucket_form_fault(b) {
        Some(e) => Some(e),
        None => if b.crc != b.checksum() {
            Some(KvBucketError::CrcMismatch { expected: b.crc, actual: b.checksum() })
        } else {
            None
        },
    }
}

/// Entry `i` is the first for this tag and hash.
pub open spec fn first_entry(s: Seq<KvBucketEntry>, tag_id: u32, value_hash: u64, i: int) -> bool {
    &&& 0 <= i < s.len()
    &&& is_for(s[i], tag_id, value_hash)
    &&& forall|j: int| 0 <= j < i ==> !is_for(#[trigger] s[j], tag_id, value_hash)
}

/// The entry is for this tag and hash.
pub open spec fn is_for(e: KvBucketEntry, tag_id: u32, value_hash: u64) -> bool {
    e.tag_id == tag_id && e.value_hash == value_hash
}

/// `r` is the bitmap of the first entry for the tag and hash, none where no
/// entry is for them.
pub open spec fn bitmap_found(
    s: Seq<KvBucketEntry>,
    tag_id: u32,
    value_hash: u64,
    r: Option<BlockRef>,
) -> bool {
    match r {
        Some(b) => exists|i: int|
            #[trigger] first_entry(s, tag_id, value_hash, i) && s[i].bitmap_ref == b,
        None => forall|i: int| 0 <= i < s.len() ==> !is_for(#[trigger] s[i], tag_id, value_hash),
    }
}

impl KvBucketBlock {
    /// The bytes on disk.
    pub open spec fn image(&self) -> Seq<u8> {
        self.header.image() + seq![self.local_depth] + le(self.entry_count as nat, 2)
            + seq![self._pad] + images(self.entries@, 144) + self._pad_tail@
            + le(self.crc as nat, 4)
    }

    /// Append the bytes on disk to `out`.
    pub fn put(&self, out: &mut Vec<u8>)
        ensures
            final(out)@ == old(out)@ + self.image(),
    {
        let ghost start = out@;
        self.header.put(out);
        out.push(self.local_depth);
        put_le(out, self.entry_count as u64, 2);
        out.push(self._pad);
        put_images(out, self.entries.as_slice());
        put_bytes(out, self._pad_tail.as_slice());
        put_le(out, self.crc as u64, 4);
        proof {
            assert(out@ =~= start + self.image());
        }
    }

    /// The value whose bytes stand at `at`.
    pub fn get(s: &[u8], at: usize) -> (r: Self)
        requires
            at + 4096 <= s@.len(),
        ensures
            r.image() == s@.subrange(at as int, at + 4096),
    {
        let total = s.len();
        let r = KvBucketBlock {
            header: BlockHeader::get(s, at),
            local_depth: s[at + 32],
            entry_count: get_u16(s, at + 33),
            _pad: s[at + 35],
            entries: get_images::<KvBucketEntry, 144>(s, at + 36, 28),
            _pad_tail: get_array::<24>(s, at + 4068),
            crc: get_u32(s, at + 4092),
        };
        proof {
            assert(seq![r.local_depth] =~= s@.subrange(at + 32, at + 33));
            assert(seq![r._pad] =~= s@.subrange(at + 35, at + 36));
            lemma_adjacent(s@, at as int, at + 32, at + 33);
            lemma_adjacent(s@, at as int, at + 33, at + 35);
            lemma_adjacent(s@, at as int, at + 35, at + 36);
            lemma_adjacent(s@, at as int, at + 36, at + 4068);
            lemma_adjacent(s@, at as int, at + 4068, at + 4092);
            lemma_adjacent(s@, at as int, at + 4092, at + 4096);
        }
        r
    }

    /// An image has 4096 bytes.
    pub proof fn image_len(&self)
        ensures
            self.image().len() == 4096,
    {
        broadcast use lemma_le_len;

        self.header.image_len();
        lemma_images_len(self.entries@, 144);
    }

    /// The image determines the value.
    pub proof fn image_injective(x: KvBucketBlock, y: KvBucketBlock)
        requires
            x.image() == y.image(),
        ensures
            x == y,
    {
        broadcast use lemma_le_len;

        x.header.image_len();
        y.header.image_len();
        lemma_images_len(x.entries@, 144);
        lemma_images_len(y.entries@, 144);
        let x1 = x.header.image() + seq![x.local_depth];
        let x2 = x1 + le(x.entry_count as nat, 2);
        let x3 = x2 + seq![x._pad];
        let x4 = x3 + images(x.entries@, 144);
        let x5 = x4 + x._pad_tail@;
        let y1 = y.header.image() + seq![y.local_depth];
        let y2 = y1 + le(y.entry_count as nat, 2);
        let y3 = y2 + seq![y._pad];
        let y4 = y3 + images(y.entries@, 144);
        let y5 = y4 + y._pad_tail@;
        lemma_cat_eq(x5, le(x.crc as nat, 4), y5, le(y.crc as nat, 4));
        lemma_cat_eq(x4, x._pad_tail@, y4, y._pad_tail@);
        lemma_cat_eq(x3, images(x.entries@, 144), y3, images(y.entries@, 144));
        lemma_cat_eq(x2, seq![x._pad], y2, seq![y._pad]);
        lemma_cat_eq(x1, le(x.entry_count as nat, 2), y1, le(y.entry_count as nat, 2));
        lemma_cat_eq(x.header.image(), seq![x.local_depth], y.header.image(), seq![y.local_depth]);
        BlockHeader::image_injective(x.header, y.header);
        assert(x.local_depth == seq![x.local_depth][0] && y.local_depth == seq![y.local_depth][0]);
        lemma_u16_image(x.entry_count, y.entry_count);
        assert(x._pad == seq![x._pad][0] && y._pad == seq![y._pad][0]);
        lemma_images_injective(x.entries@, y.entries@, 144);
        assert(x.entries =~= y.entries);
        assert(x._pad_tail =~= y._pad_tail);
        lemma_u32_image(x.crc, y.crc);
    }

    /// The entries in use.
    pub open spec fn held(&self) -> Seq<KvBucketEntry> {
        self.entries@.take(
            if self.entry_count <= 144 {
                self.entry_count as int
            } else {
                144
            },
        )
    }

    /// An empty bucket.
    pub fn new(local_depth: u8) -> (b: Self)
        ensures
            bucket_form_fault(b) is None,
            b.header.payload_len == 4060,
            b.header.reserved@ == zeros(20),
            b.local_depth == local_depth,
            b.entry_count == 0,
            b._pad == 0,
            forall|i: int|
                0 <= i < 144 ==> #[trigger] b.entries@[i] == (KvBucketEntry {
                    tag_id: 0,
                    value_hash: 0,
                    bitmap_ref: null_ref(),
                }),
            b._pad_tail@ == zeros(24),
            b.crc == 0,
            b.held() == Seq::<KvBucketEntry>::empty(),
    {
        let none = KvBucketEntry {
            tag_id: 0,
            value_hash: 0,
            bitmap_ref: BlockRef { disk_id: 0, _pad: 0, block_no: 0, generation: 0 },
        };
        let b = KvBucketBlock {
            header: BlockHeader::new(BlockKind::KvHashBucket, KV_BUCKET_FORMAT_VERSION, 4060),
            local_depth,
            entry_count: 0,
            _pad: 0,
            entries: [none; 144],
            _pad_tail: [0u8; 24],
            crc: 0,
        };
        proof {
            assert(b._pad_tail@ =~= zeros(24));
            assert(b.held() =~= Seq::empty());
        }
        b
    }

    /// Where the first entry for this tag and hash stands.
    fn position(&self, tag_id: u32, value_hash: u64) -> (r: Option<usize>)
        ensures
            match r {
                Some(i) => first_entry(self.held(), tag_id, value_hash, i as int),
                None => forall|i: int|
                    0 <= i < self.held().len() ==> !is_for(
                        #[trigger] self.held()[i],
                        tag_id,
                        value_hash,
                    ),
            },
    {
        let n = self.len();
        let mut i: usize = 0;
        while i < n
            invariant
                i <= n,
                n <= 144,
                n == self.held().len(),
                forall|j: int|
                    0 <= j < i ==> !is_for(#[trigger] self.held()[j], tag_id, value_hash),
            decreases n - i,
        {
            proof {
                assert(self.held()[i as int] == self.entries@[i as int]);
            }
            if self.entries[i].tag_id == tag_id && self.entries[i].value_hash == value_hash {
                return Some(i);
            }
            i = i + 1;
        }
        None
    }

    /// The bitmap for a tag and a hash.
    pub fn lookup(&self, tag_id: u32, value_hash: u64) -> (r: Option<BlockRef>)
        ensures
            bitmap_found(self.held(), tag_id, value_hash, r),
    {
        match self.position(tag_id, value_hash) {
            Some(i) => {
                proof {
                    assert(self.held()[i as int] == self.entries@[i as int]);
                }
                Some(self.entries[i].bitmap_ref)
            },
            None => None,
        }
    }

    /// Set the bitmap for a tag and a hash.
    pub fn upsert(&mut self, tag_id: u32, value_hash: u64, bitmap_ref: BlockRef) -> (r: Result<
        (),
        KvBucketError,
    >)
        ensures
            match r {
                Ok(_) => {
                    &&& *final(self) == (KvBucketBlock {
                        entries: final(self).entries,
                        entry_count: final(self).entry_count,
                        ..*old(self)
                    })
                    &&& forall|i: int| #[trigger]
                        first_entry(old(self).held(), tag_id, value_hash, i) ==> {
                            &&& final(self).entry_count == old(self).entry_count
                            &&& final(self).entries@ == old(self).entries@.update(
                                i,
                                KvBucketEntry { tag_id, value_hash, bitmap_ref },
                            )
                        }
                    &&& (forall|i: int| !first_entry(old(self).held(), tag_id, value_hash, i)) ==> {
                        &&& old(self).entry_count < 144
                        &&& final(self).entry_count == old(self).entry_count + 1
                        &&& final(self).entries@ == old(self).entries@.update(
                            old(self).entry_count as int,
                            KvBucketEntry { tag_id, value_hash, bitmap_ref },
                        )
                    }
                },
                Err(e) => {
                    &&& e == KvBucketError::BucketFull
                    &&& *final(self) == *old(self)
                    &&& old(self).entry_count >= 144
                    &&& forall|i: int| !first_entry(old(self).held(), tag_id, value_hash, i)
                },
            },
    {
        let ghost held = self.held();
        match self.position(tag_id, value_hash) {
            Some(i) => {
                proof {
                    assert(held[i as int] == self.entries@[i as int]);
                    assert forall|j: int| #[trigger]
                        first_entry(held, tag_id, value_hash, j) implies j == i by {
                        if j < i {
                            assert(!is_for(held[j], tag_id, value_hash));
                        } else if i < j {
                            assert(!is_for(held[i as int], tag_id, value_hash));
                        }
                    }
                }
                self.entries[i] = KvBucketEntry { tag_id, value_hash, bitmap_ref };
                Ok(())
            },
            None => {
                proof {
                    assert forall|j: int| !first_entry(held, tag_id, value_hash, j) by {
                        if 0 <= j < held.len() {
                            assert(!is_for(held[j], tag_id, value_hash));
                        }
                    }
                }
                if self.entry_count >= 144 {
                    return Err(KvBucketError::BucketFull);
                }
                let at = self.entry_count as usize;
                self.entries[at] = KvBucketEntry { tag_id, value_hash, bitmap_ref };
                self.entry_count = self.entry_count + 1;
                Ok(())
            },
        }
    }

    /// Number of entries.
    pub fn len(&self) -> (r: usize)
        ensures
            r == self.held().len(),
            r <= 144,
    {
        if self.entry_count <= 144 {
            self.entry_count as usize
        } else {
            144
        }
    }

    /// Whether there are no entries.
    pub fn is_empty(&self) -> (r: bool)
        ensures
            r == (self.entry_count == 0),
    {
        self.entry_count == 0
    }

    /// Whether there is no room for another entry.
    pub fn is_full(&self) -> (r: bool)
        ensures
            r == (self.entry_count >= 144),
    {
        self.entry_count >= 144
    }

    /// The entries in use.
    pub fn iter(&self) -> (r: Vec<KvBucketEntry>)
        ensures
            r@ == self.held(),
    {
        let n = self.len();
        let mut out: Vec<KvBucketEntry> = Vec::new();
        let mut i: usize = 0;
        while i < n
            invariant
                i <= n,
                n <= 144,
                n == self.held().len(),
                out@ =~= self.entries@.take(i as int),
            decreases n - i,
        {
            out.push(self.entries[i]);
            i = i + 1;
        }
        out
    }

    /// Whether the block can be accepted.
    fn validate(&self) -> (r: Result<(), KvBucketError>)
        ensures
            r == match bucket_fault(*self) {
                Some(e) => Err::<(), KvBucketError>(e),
                None => Ok(()),
            },
    {
        if !same_magic(&self.header.pre.magic, &BLOCK_PREAMBLE_MAGIC_BLOCK) {
            return Err(KvBucketError::InvalidMagic { actual: self.header.pre.magic });
        }
        if self.header.pre.kind != BlockKind::KvHashBucket.code() {
            return Err(KvBucketError::InvalidBlockKind(self.header.pre.kind));
        }
        if self.header.pre.format_version != KV_BUCKET_FORMAT_VERSION {
            return Err(KvBucketError::InvalidFormatVersion(self.header.pre.format_version));
        }
        if self.entry_count > 144 {
            return Err(KvBucketError::OverCapacity(self.entry_count));
        }
        self.verify_crc()
    }

    /// The checksum of the block.
    pub open spec fn checksum(&self) -> u32 {
        crc32c(self.image().subrange(0, 4092))
    }

    /// The block with its checksum set.
    pub open spec fn sealed(&self) -> KvBucketBlock {
        KvBucketBlock { crc: self.checksum(), ..*self }
    }

    /// The checksum does not depend on the field that holds it.
    pub proof fn checksum_ignores_crc(x: KvBucketBlock, y: KvBucketBlock)
        requires
            y == (KvBucketBlock { crc: y.crc, ..x }),
        ensures
            x.checksum() == y.checksum(),
    {
        broadcast use lemma_le_len;

        x.image_len();
        y.image_len();
        assert(x.image().subrange(0, 4092) =~= y.image().subrange(0, 4092));
    }

    /// The bytes of the block.
    pub fn to_bytes(&self) -> (r: Vec<u8>)
        ensures
            r@ == self.image(),
            r@.len() == 4096,
    {
        let mut out: Vec<u8> = Vec::new();
        self.put(&mut out);
        proof {
            self.image_len();
            assert(out@ =~= self.image());
        }
        out
    }

    fn computed_crc(&self) -> (r: u32)
        ensures
            r == self.checksum(),
    {
        let bytes = self.to_bytes();
        block_crc(bytes.as_slice(), 0, 4092)
    }

    /// Set the checksum.
    pub fn recompute_crc(&mut self)
        ensures
            *final(self) == old(self).sealed(),
    {
        let crc = self.computed_crc();
        self.crc = crc;
    }

    /// Whether the checksum is that of the block.
    pub fn verify_crc(&self) -> (r: Result<(), KvBucketError>)
        ensures
            r == if self.crc == self.checksum() {
                Ok::<(), KvBucketError>(())
            } else {
                Err(KvBucketError::CrcMismatch { expected: self.crc, actual: self.checksum() })
            },
    {
        let actual = self.computed_crc();
        if self.crc == actual {
            Ok(())
        } else {
            Err(KvBucketError::CrcMismatch { expected: self.crc, actual })
        }
    }

    /// Set the checksum and write the block. A device that fails is reported
    /// as a checksum mismatch of zeros.
    pub fn write<D: BlockDevice>(&mut self, device: &mut D, offset: u64) -> (r: Result<(), KvBucketError>)
        ensures
            *final(self) == old(self).sealed(),
            old(device).reliable() ==> final(device).reliable(),
            match r {
                Ok(_) => {
                    &&& offset + 4096 <= old(device).contents().len()
                    &&& final(device).contents() == overwritten(
                        old(device).contents(),
                        offset as int,
                        old(self).sealed().image(),
                    )
                },
                Err(e) => e == (KvBucketError::CrcMismatch { expected: 0, actual: 0 }) && (old(
                    device,
                ).reliable() ==> offset + 4096 > old(device).contents().len() && final(device).contents() == old(device).contents()),
            },
    {
        self.recompute_crc();
        let bytes = self.to_bytes();
        match device.write_at(offset, bytes.as_slice()) {
            Ok(_) => Ok(()),
            Err(_) => Err(KvBucketError::CrcMismatch { expected: 0, actual: 0 }),
        }
    }

    /// Read a block and check it. A device that fails is reported as a
    /// checksum mismatch of zeros.
    pub fn read<D: BlockDevice>(device: &D, offset: u64) -> (r: Result<Self, KvBucketError>)
        ensures
            r == bucket_read(device.contents(), offset as int) || (!device.reliable() && r == Err::<
                Self,
                KvBucketError,
            >(KvBucketError::CrcMismatch { expected: 0, actual: 0 })),
    {
        match device.read_at(offset, 4096) {
            Ok(bytes) => {
                let b = KvBucketBlock::get(bytes.as_slice(), 0);
                proof {
                    assert(bytes@.subrange(0, 4096) =~= bytes@);
                    lemma_bucket_of(b);
                }
                match b.validate() {
                    Ok(_) => Ok(b),
                    Err(e) => Err(e),
                }
            },
            Err(_) => Err(KvBucketError::CrcMismatch { expected: 0, actual: 0 }),
        }
    }
}

/// The block that `bytes` hold.
pub open spec fn bucket_of(bytes: Seq<u8>) -> KvBucketBlock {
    choose|b: KvBucketBlock| #[trigger] b.image() == bytes
}

/// What reading the block at `offset` gives.
pub open spec fn bucket_read(contents: Seq<u8>, offset: int) -> Result<KvBucketBlock, KvBucketError> {
    if offset + 4096 > contents.len() {
        Err(KvBucketError::CrcMismatch { expected: 0, actual: 0 })
    } else {
        let b = bucket_of(contents.subrange(offset, offset + 4096));
        match bucket_fault(b) {
            Some(e) => Err(e),
            None => Ok(b),
        }
    }
}

proof fn lemma_bucket_of(b: KvBucketBlock)
    ensures
        bucket_of(b.image()) == b,
{
    KvBucketBlock::image_injective(bucket_of(b.image()), b);
}

/// A block that was written is read back as it was, with its checksum set.
pub proof fn bucket_write_then_read(contents: Seq<u8>, offset: int, b: KvBucketBlock)
    requires
        0 <= offset,
        offset + 4096 <= contents.len(),
        bucket_form_fault(b) is None,
    ensures
        bucket_read(overwritten(contents, offset, b.sealed().image()), offset) == Ok::<
            KvBucketBlock,
            KvBucketError,
        >(b.sealed()),
{
    b.sealed().image_len();
    crate::storage::device::read_after_write(contents, offset, b.sealed().image());
    lemma_bucket_of(b.sealed());
    KvBucketBlock::checksum_ignores_crc(b, b.sealed());
}

/// What was set is what a lookup finds; every other tag and hash keeps what
/// it had.
pub proof fn upsert_then_lookup(
    before: KvBucketBlock,
    after: KvBucketBlock,
    tag_id: u32,
    value_hash: u64,
    bitmap_ref: BlockRef,
    at: int,
)
    requires
        before.entry_count <= 144,
        first_entry(before.held(), tag_id, value_hash, at) || (at == before.entry_count && at < 144
            && forall|i: int| !first_entry(before.held(), tag_id, value_hash, i)),
        after.entries@ == before.entries@.update(
            at,
            KvBucketEntry { tag_id, value_hash, bitmap_ref },
        ),
        after.entry_count == if at < before.entry_count {
            before.entry_count as int
        } else {
            before.entry_count + 1
        },
    ensures
        first_entry(after.held(), tag_id, value_hash, at),
        after.held()[at].bitmap_ref == bitmap_ref,
        forall|t: u32, h: u64, i: int|
            (t != tag_id || h != value_hash) ==> (#[trigger] first_entry(after.held(), t, h, i)
                == first_entry(before.held(), t, h, i)) && (first_entry(before.held(), t, h, i)
                ==> after.held()[i] == before.held()[i]),
{
    let a = after.held();
    let b = before.held();
    assert forall|j: int| 0 <= j < b.len() && j != at implies #[trigger] a[j] == b[j] by {}
    assert forall|j: int| 0 <= j < at implies !is_for(#[trigger] a[j], tag_id, value_hash) by {
        if !(first_entry(b, tag_id, value_hash, at)) {
            assert(a[j] == b[j]);
            lemma_no_entry(b, tag_id, value_hash);
        } else {
            assert(a[j] == b[j]);
        }
    }
    assert forall|t: u32, h: u64, i: int| t != tag_id || h != value_hash implies (
    #[trigger] first_entry(a, t, h, i) == first_entry(b, t, h, i)) && (first_entry(b, t, h, i)
        ==> a[i] == b[i]) by {
        if first_entry(a, t, h, i) {
            assert(i != at);
            assert forall|j: int| 0 <= j < i implies !is_for(#[trigger] b[j], t, h) by {
                assert(!is_for(a[j], t, h));
            }
        }
        if first_entry(b, t, h, i) {
            assert(i != at);
            assert forall|j: int| 0 <= j < i implies !is_for(#[trigger] a[j], t, h) by {
                assert(!is_for(b[j], t, h));
            }
        }
    }
}

/// Where no entry is the first, there is none.
proof fn lemma_no_entry(s: Seq<KvBucketEntry>, tag_id: u32, value_hash: u64)
    requires
        forall|i: int| !first_entry(s, tag_id, value_hash, i),
    ensures
        forall|i: int| 0 <= i < s.len() ==> !is_for(#[trigger] s[i], tag_id, value_hash),
{
    assert forall|i: int| 0 <= i < s.len() implies !is_for(
        #[trigger] s[i],
        tag_id,
        value_hash,
    ) by {
        lemma_no_entry_up_to(s, tag_id, value_hash, i + 1);
    }
}

proof fn lemma_no_entry_up_to(s: Seq<KvBucketEntry>, tag_id: u32, value_hash: u64, k: int)
    requires
        0 <= k <= s.len(),
        forall|i: int| !first_entry(s, tag_id, value_hash, i),
    ensures
        forall|i: int| 0 <= i < k ==> !is_for(#[trigger] s[i], tag_id, value_hash),
    decreases k,
{
    if k > 0 {
        lemma_no_entry_up_to(s, tag_id, value_hash, k - 1);
        assert(!first_entry(s, tag_id, value_hash, k - 1));
    }
}

} // verus!
