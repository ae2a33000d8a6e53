//! Object records.

use vstd::prelude::*;
use crate::bytes::{bits_of, from_bits, get_array, get_u16, get_u32, get_u64, le, lemma_adjacent,
    lemma_cat_eq, lemma_le_len, lemma_u16_image, lemma_u32_image, lemma_u64_image, put_bytes,
    put_le, to_bits, zeros};
use crate::meta::error::MetaError;
use crate::meta::leaf::LeafRecord;
use crate::types::id::ObjectId;

verus! {

/// Size of an object record.
pub const OBJECT_RECORD_SIZE: usize = 128;

/// The object's tags, attributes and relations stand in an overflow chain.
pub const OBJECT_FLAG_HAS_OVERFLOW: u8 = 1;

/// The object's content is kept in chunks.
pub const OBJECT_FLAG_CHUNKED: u8 = 2;

/// Whether an object lives.
#[derive(Clone, Copy, Debug, PartialEq, Eq, Structural)]
pub enum ObjectState {
    Active,
    Tombstoned,
}

impl ObjectState {
    pub open spec fn number(&self) -> u8 {
        match self {
            ObjectState::Active => 0,
            ObjectState::Tombstoned => 1,
        }
    }

    pub fn to_u8(&self) -> (r: u8)
        ensures
            r == self.number(),
    {
        match self {
            ObjectState::Active => 0,
            ObjectState::Tombstoned => 1,
        }
    }

    pub fn from_u8(v: u8) -> (r: Option<Self>)
        ensures
            match r {
                Some(s) => s.number() == v,
                None => v > 1,
            },
    {
        match v {
            0 => Some(ObjectState::Active),
            1 => Some(ObjectState::Tombstoned),
            _ => None,
        }
    }
}

/// How an object's bytes are compressed.
#[derive(Clone, Copy, Debug, PartialEq, Eq, Structural)]
pub enum CompressionState {
    Plain,
    Lz4,
    Zstd,
}

impl CompressionState {
    pub open spec fn number(&self) -> u8 {
        match self {
            CompressionState::Plain => 0,
            CompressionState::Lz4 => 1,
            CompressionState::Zstd => 2,
        }
    }

    pub fn to_u8(&self) -> (r: u8)
        ensures
            r == self.number(),
    {
        match self {
            CompressionState::Plain => 0,
            CompressionState::Lz4 => 1,
            CompressionState::Zstd => 2,
        }
    }

    pub fn from_u8(v: u8) -> (r: Option<Self>)
        ensures
            match r {
                Some(s) => s.number() == v,
                None => v > 2,
            },
    {
        match v {
            0 => Some(CompressionState::Plain),
            1 => Some(CompressionState::Lz4),
            2 => Some(CompressionState::Zstd),
            _ => None,
        }
    }
}

/// How an object's bytes are encrypted.
#[derive(Clone, Copy, Debug, PartialEq, Eq, Structural)]
pub enum EncryptionState {
    Plain,
    XtsAes256,
    AesGcm256,
    ChaCha20Poly1305,
    Hctr2Aes128,
}

impl EncryptionState {
    pub open spec fn number(&self) -> u8 {
        match self {
            EncryptionState::Plain => 0,
            EncryptionState::XtsAes256 => 1,
            EncryptionState::AesGcm256 => 2,
            EncryptionState::ChaCha20Poly1305 => 3,
            EncryptionState::Hctr2Aes128 => 4,
        }
    }

    pub fn to_u8(&self) -> (r: u8)
        ensures
            r == self.number(),
    {
        match self {
            EncryptionState::Plain => 0,
            EncryptionState::XtsAes256 => 1,
            EncryptionState::AesGcm256 => 2,
            EncryptionState::ChaCha20Poly1305 => 3,
            EncryptionState::Hctr2Aes128 => 4,
        }
    }

    pub fn from_u8(v: u8) -> (r: Option<Self>)
        ensures
            match r {
                Some(s) => s.number() == v,
                None => v > 4,
            },
    {
        match v {
            0 => Some(EncryptionState::Plain),
            1 => Some(EncryptionState::XtsAes256),
            2 => Some(EncryptionState::AesGcm256),
            3 => Some(EncryptionState::ChaCha20Poly1305),
            4 => Some(EncryptionState::Hctr2Aes128),
            _ => None,
        }
    }
}

/// An object record. The comments give each field's place in the image; all
/// numbers are little-endian.
#[derive(Clone, Copy, Debug)]
pub struct ObjectRecord {
    /// `[0..8]` object id.
    pub id: u64,
    /// `[8..12]` generation, for reuse of ids.
    pub generation: u32,
    /// `[12..13]` number of an [`ObjectState`].
    pub state: u8,
    /// `[13..14]` `OBJECT_FLAG_*` bits.
    pub flags: u8,
    /// `[14..16]` version of the record's structure.
    pub record_version: u16,
    /// `[16..48]` hash of the content.
    pub content_hash: [u8; 32],
    /// `[48..56]` where the content starts in the blob zone.
    pub blob_offset: u64,
    /// `[56..64]` length of the content.
    pub blob_length: u64,
    /// `[64..72]` creation time in nanoseconds since the epoch.
    pub created_ns: i64,
    /// `[72..80]` modification time in nanoseconds since the epoch.
    pub modified_ns: i64,
    /// `[80..82]` number of tags.
    pub tag_count: u16,
    /// `[82..84]` number of attributes.
    pub attr_count: u16,
    /// `[84..85]` number of a [`CompressionState`].
    pub compression: u8,
    /// `[85..86]` number of an [`EncryptionState`].
    pub encryption: u8,
    /// `[86..88]` number of relations.
    pub relation_count: u16,
    /// `[88..104]` up to four tags, valid without overflow.
    pub inline_tags: [u32; 4],
    /// `[104..112]` block of the first overflow record.
    pub overflow_offset: u64,
    /// `[112..120]` size as stored.
    pub stored_size: u64,
    /// `[120..128]` log position of the last modification.
    pub last_modify_lsn: u64,
}

impl ObjectRecord {
    /// The head of the image: bytes `0..48`.
    pub open spec fn head(&self) -> Seq<u8> {
        le(self.id as nat, 8) + le(self.generation as nat, 4) + seq![self.state] + seq![self.flags]
            + le(self.record_version as nat, 2) + self.content_hash@
    }

    /// The middle of the image: bytes `48..88`.
    pub open spec fn middle(&self) -> Seq<u8> {
        le(self.blob_offset as nat, 8) + le(self.blob_length as nat, 8) + le(
            bits_of(self.created_ns) as nat,
            8,
        ) + le(bits_of(self.modified_ns) as nat, 8) + le(self.tag_count as nat, 2) + le(
            self.attr_count as nat,
            2,
        ) + seq![self.compression] + seq![self.encryption] + le(self.relation_count as nat, 2)
    }

    /// The tail of the image: bytes `88..128`.
    pub open spec fn tail(&self) -> Seq<u8> {
        le(self.inline_tags@[0] as nat, 4) + le(self.inline_tags@[1] as nat, 4) + le(
            self.inline_tags@[2] as nat,
            4,
        ) + le(self.inline_tags@[3] as nat, 4) + le(self.overflow_offset as nat, 8) + le(
            self.stored_size as nat,
            8,
        ) + le(self.last_modify_lsn as nat, 8)
    }

    /// The bytes on disk.
    pub open spec fn image(&self) -> Seq<u8> {
        self.head() + self.middle() + self.tail()
    }

    /// A record of `id` in which everything else is zero.
    pub fn new(id: u64) -> (r: Self)
        ensures
            r.id == id,
            r.image() == le(id as nat, 8) + zeros(120),
    {
        let r = ObjectRecord {
            id,
            generation: 0,
            state: 0,
            flags: 0,
            record_version: 0,
            content_hash: [0u8; 32],
            blob_offset: 0,
            blob_length: 0,
            created_ns: 0,
            modified_ns: 0,
            tag_count: 0,
            attr_count: 0,
            compression: 0,
            encryption: 0,
            relation_count: 0,
            inline_tags: [0u32; 4],
            overflow_offset: 0,
            stored_size: 0,
            last_modify_lsn: 0,
        };
        proof {
            broadcast use lemma_le_len;

            lemma_le_zero(2);
            lemma_le_zero(4);
            lemma_le_zero(8);
            assert(r.content_hash@ =~= zeros(32));
            assert(r.head() =~= le(id as nat, 8) + zeros(40));
            assert(r.middle() =~= zeros(40));
            assert(r.tail() =~= zeros(40));
            assert(r.image() =~= le(id as nat, 8) + zeros(120));
        }
        r
    }

    /// The id as an [`ObjectId`].
    pub fn id_typed(&self) -> (r: ObjectId)
        ensures
            r.raw == self.id,
    {
        ObjectId::from_u64(self.id)
    }

    /// The state.
    pub fn state(&self) -> (r: Result<ObjectState, MetaError>)
        ensures
            match r {
                Ok(s) => s.number() == self.state,
                Err(e) => self.state > 1 && e == MetaError::InvalidObjectState(self.state),
            },
    {
        match ObjectState::from_u8(self.state) {
            Some(s) => Ok(s),
            None => Err(MetaError::InvalidObjectState(self.state)),
        }
    }

    pub fn set_state(&mut self, s: ObjectState)
        ensures
            *final(self) == (ObjectRecord { state: s.number(), ..*old(self) }),
    {
        self.state = s.to_u8();
    }

    /// The compression state.
    pub fn compression(&self) -> (r: Result<CompressionState, MetaError>)
        ensures
            match r {
                Ok(s) => s.number() == self.compression,
                Err(e) => self.compression > 2 && e == MetaError::InvalidCompressionState(
                    self.compression,
                ),
            },
    {
        match CompressionState::from_u8(self.compression) {
            Some(s) => Ok(s),
            None => Err(MetaError::InvalidCompressionState(self.compression)),
        }
    }

    pub fn set_compression(&mut self, c: CompressionState)
        ensures
            *final(self) == (ObjectRecord { compression: c.number(), ..*old(self) }),
    {
        self.compression = c.to_u8();
    }

    /// The encryption state.
    pub fn encryption(&self) -> (r: Result<EncryptionState, MetaError>)
        ensures
            match r {
                Ok(s) => s.number() == self.encryption,
                Err(e) => self.encryption > 4 && e == MetaError::InvalidEncryptionState(
                    self.encryption,
                ),
            },
    {
        match EncryptionState::from_u8(self.encryption) {
            Some(s) => Ok(s),
            None => Err(MetaError::InvalidEncryptionState(self.encryption)),
        }
    }

    pub fn set_encryption(&mut self, e: EncryptionState)
        ensures
            *final(self) == (ObjectRecord { encryption: e.number(), ..*old(self) }),
    {
        self.encryption = e.to_u8();
    }

    /// Whether tags, attributes and relations stand in an overflow chain.
    pub fn has_overflow(&self) -> (r: bool)
        ensures
            r == (self.flags & OBJECT_FLAG_HAS_OVERFLOW != 0),
    {
        self.flags & OBJECT_FLAG_HAS_OVERFLOW != 0
    }

    /// Whether the content is kept in chunks.
    pub fn is_chunked(&self) -> (r: bool)
        ensures
            r == (self.flags & OBJECT_FLAG_CHUNKED != 0),
    {
        self.flags & OBJECT_FLAG_CHUNKED != 0
    }

    /// Append the image.
    pub fn put(&self, out: &mut Vec<u8>)
        ensures
            final(out)@ == old(out)@ + self.image(),
    {
        let ghost start = out@;
        put_le(out, self.id, 8);
        put_le(out, self.generation as u64, 4);
        out.push(self.state);
        out.push(self.flags);
        put_le(out, self.record_version as u64, 2);
        put_bytes(out, self.content_hash.as_slice());
        proof {
            assert(out@ =~= start + self.head());
        }
        let ghost mid = out@;
        put_le(out, self.blob_offset, 8);
        put_le(out, self.blob_length, 8);
        put_le(out, to_bits(self.created_ns), 8);
        put_le(out, to_bits(self.modified_ns), 8);
        put_le(out, self.tag_count as u64, 2);
        put_le(out, self.attr_count as u64, 2);
        out.push(self.compression);
        out.push(self.encryption);
        put_le(out, self.relation_count as u64, 2);
        proof {
            assert(out@ =~= mid + self.middle());
        }
        let ghost end = out@;
        put_le(out, self.inline_tags[0] as u64, 4);
        put_le(out, self.inline_tags[1] as u64, 4);
        put_le(out, self.inline_tags[2] as u64, 4);
        put_le(out, self.inline_tags[3] as u64, 4);
        put_le(out, self.overflow_offset, 8);
        put_le(out, self.stored_size, 8);
        put_le(out, self.last_modify_lsn, 8);
        proof {
            assert(out@ =~= end + self.tail());
            assert(out@ =~= start + self.image());
        }
    }

    /// The image in a buffer of its own.
    pub fn as_bytes(&self) -> (r: Vec<u8>)
        ensures
            r@ == self.image(),
            r@.len() == 128,
    {
        let mut out: Vec<u8> = Vec::new();
        self.put(&mut out);
        proof {
            self.image_len();
            assert(out@ =~= self.image());
        }
        out
    }

    /// The image as an array.
    pub fn to_bytes(&self) -> (r: [u8; 128])
        ensures
            r@ == self.image(),
    {
        let v = self.as_bytes();
        proof {
            assert(v@.subrange(0, 128) =~= v@);
        }
        get_array::<128>(v.as_slice(), 0)
    }

    /// The record whose image starts at `at`. State, compression and
    /// encryption are not checked.
    pub fn get(s: &[u8], at: usize) -> (r: Self)
        requires
            at + OBJECT_RECORD_SIZE <= s@.len(),
        ensures
            r.image() == s@.subrange(at as int, at + 128),
    {
        let total = s.len();
        let r = ObjectRecord {
            id: get_u64(s, at),
            generation: get_u32(s, at + 8),
            state: s[at + 12],
            flags: s[at + 13],
            record_version: get_u16(s, at + 14),
            content_hash: get_array::<32>(s, at + 16),
            blob_offset: get_u64(s, at + 48),
            blob_length: get_u64(s, at + 56),
            created_ns: from_bits(get_u64(s, at + 64)),
            modified_ns: from_bits(get_u64(s, at + 72)),
            tag_count: get_u16(s, at + 80),
            attr_count: get_u16(s, at + 82),
            compression: s[at + 84],
            encryption: s[at + 85],
            relation_count: get_u16(s, at + 86),
            inline_tags: [
                get_u32(s, at + 88),
                get_u32(s, at + 92),
                get_u32(s, at + 96),
                get_u32(s, at + 100),
            ],
            overflow_offset: get_u64(s, at + 104),
            stored_size: get_u64(s, at + 112),
            last_modify_lsn: get_u64(s, at + 120),
        };
        proof {
            let t = s@;
            let a = at as int;
            assert(seq![r.state] =~= t.subrange(a + 12, a + 13));
            assert(seq![r.flags] =~= t.subrange(a + 13, a + 14));
            assert(r.head() =~= t.subrange(a, a + 48)) by {
                lemma_adjacent(t, a, a + 8, a + 12);
                lemma_adjacent(t, a, a + 12, a + 13);
                lemma_adjacent(t, a, a + 13, a + 14);
                lemma_adjacent(t, a, a + 14, a + 16);
                lemma_adjacent(t, a, a + 16, a + 48);
            }
            assert(seq![r.compression] =~= t.subrange(a + 84, a + 85));
            assert(seq![r.encryption] =~= t.subrange(a + 85, a + 86));
            assert(r.middle() =~= t.subrange(a + 48, a + 88)) by {
                lemma_adjacent(t, a + 48, a + 56, a + 64);
                lemma_adjacent(t, a + 48, a + 64, a + 72);
                lemma_adjacent(t, a + 48, a + 72, a + 80);
                lemma_adjacent(t, a + 48, a + 80, a + 82);
                lemma_adjacent(t, a + 48, a + 82, a + 84);
                lemma_adjacent(t, a + 48, a + 84, a + 85);
                lemma_adjacent(t, a + 48, a + 85, a + 86);
                lemma_adjacent(t, a + 48, a + 86, a + 88);
            }
            assert(r.tail() =~= t.subrange(a + 88, a + 128)) by {
                lemma_adjacent(t, a + 88, a + 92, a + 96);
                lemma_adjacent(t, a + 88, a + 96, a + 100);
                lemma_adjacent(t, a + 88, a + 100, a + 104);
                lemma_adjacent(t, a + 88, a + 104, a + 112);
                lemma_adjacent(t, a + 88, a + 112, a + 120);
                lemma_adjacent(t, a + 88, a + 120, a + 128);
            }
            lemma_adjacent(t, a, a + 48, a + 88);
            lemma_adjacent(t, a, a + 88, a + 128);
        }
        r
    }

    /// The record with this image.
    pub fn ref_from_bytes(buf: &[u8; 128]) -> (r: Self)
        ensures
            r.image() == buf@,
    {
        let r = Self::get(buf.as_slice(), 0);
        proof {
            assert(buf@.subrange(0, 128) =~= buf@);
        }
        r
    }

    /// The records whose images stand one after the other in `buf`.
    pub fn slice_from_bytes(buf: &[u8]) -> (r: Vec<Self>)
        requires
            buf@.len() % 128 == 0,
        ensures
            r@.len() * 128 == buf@.len(),
            forall|i: int|
                0 <= i < r@.len() ==> (#[trigger] r@[i]).image() == buf@.subrange(
                    i * 128,
                    i * 128 + 128,
                ),
    {
        let mut out: Vec<Self> = Vec::new();
        let total = buf.len();
        let mut at: usize = 0;
        while at < total
            invariant
                at <= total,
                total == buf@.len(),
                total % 128 == 0,
                at == out@.len() * 128,
                forall|i: int|
                    0 <= i < out@.len() ==> (#[trigger] out@[i]).image() == buf@.subrange(
                        i * 128,
                        i * 128 + 128,
                    ),
            decreases total - at,
        {
            out.push(Self::get(buf, at));
            at = at + 128;
        }
        out
    }

    /// An image has 128 bytes.
    pub proof fn image_len(&self)
        ensures
            self.image().len() == 128,
            self.head().len() == 48,
            self.middle().len() == 40,
            self.tail().len() == 40,
    {
        broadcast use lemma_le_len;

    }

    /// The image determines the record.
    pub proof fn image_injective(a: ObjectRecord, b: ObjectRecord)
        requires
            a.image() == b.image(),
        ensures
            a == b,
    {
        a.image_len();
        b.image_len();
        lemma_cat_eq(a.head() + a.middle(), a.tail(), b.head() + b.middle(), b.tail());
        lemma_cat_eq(a.head(), a.middle(), b.head(), b.middle());
        lemma_head(a, b);
        lemma_middle(a, b);
        lemma_tail(a, b);
    }
}

pub proof fn lemma_le_zero(n: nat)
    ensures
        le(0, n) == zeros(n),
    decreases n,
{
    if n > 0 {
        lemma_le_zero((n - 1) as nat);
        assert(le(0, n) =~= zeros(n));
    } else {
        assert(le(0, n) =~= zeros(n));
    }
}

proof fn lemma_head(a: ObjectRecord, b: ObjectRecord)
    requires
        a.head() == b.head(),
    ensures
        a.id == b.id,
        a.generation == b.generation,
        a.state == b.state,
        a.flags == b.flags,
        a.record_version == b.record_version,
        a.content_hash == b.content_hash,
{
    broadcast use lemma_le_len;

    let a1 = le(a.id as nat, 8) + le(a.generation as nat, 4);
    let b1 = le(b.id as nat, 8) + le(b.generation as nat, 4);
    let a2 = a1 + seq![a.state];
    let b2 = b1 + seq![b.state];
    let a3 = a2 + seq![a.flags];
    let b3 = b2 + seq![b.flags];
    let a4 = a3 + le(a.record_version as nat, 2);
    let b4 = b3 + le(b.record_version as nat, 2);
    lemma_cat_eq(a4, a.content_hash@, b4, b.content_hash@);
    lemma_cat_eq(a3, le(a.record_version as nat, 2), b3, le(b.record_version as nat, 2));
    lemma_cat_eq(a2, seq![a.flags], b2, seq![b.flags]);
    lemma_cat_eq(a1, seq![a.state], b1, seq![b.state]);
    lemma_cat_eq(
        le(a.id as nat, 8),
        le(a.generation as nat, 4),
        le(b.id as nat, 8),
        le(b.generation as nat, 4),
    );
    assert(seq![a.flags][0] == seq![b.flags][0]);
    assert(seq![a.state][0] == seq![b.state][0]);
    lemma_u64_image(a.id, b.id);
    lemma_u32_image(a.generation, b.generation);
    lemma_u16_image(a.record_version, b.record_version);
    assert(a.content_hash =~= b.content_hash);
}

proof fn lemma_middle(a: ObjectRecord, b: ObjectRecord)
    requires
        a.middle() == b.middle(),
    ensures
        a.blob_offset == b.blob_offset,
        a.blob_length == b.blob_length,
        a.created_ns == b.created_ns,
        a.modified_ns == b.modified_ns,
        a.tag_count == b.tag_count,
        a.attr_count == b.attr_count,
        a.compression == b.compression,
        a.encryption == b.encryption,
        a.relation_count == b.relation_count,
{
    broadcast use lemma_le_len;

    let a1 = le(a.blob_offset as nat, 8) + le(a.blob_length as nat, 8);
    let b1 = le(b.blob_offset as nat, 8) + le(b.blob_length as nat, 8);
    let a2 = a1 + le(bits_of(a.created_ns) as nat, 8);
    let b2 = b1 + le(bits_of(b.created_ns) as nat, 8);
    let a3 = a2 + le(bits_of(a.modified_ns) as nat, 8);
    let b3 = b2 + le(bits_of(b.modified_ns) as nat, 8);
    let a4 = a3 + le(a.tag_count as nat, 2);
    let b4 = b3 + le(b.tag_count as nat, 2);
    let a5 = a4 + le(a.attr_count as nat, 2);
    let b5 = b4 + le(b.attr_count as nat, 2);
    let a6 = a5 + seq![a.compression];
    let b6 = b5 + seq![b.compression];
    let a7 = a6 + seq![a.encryption];
    let b7 = b6 + seq![b.encryption];
    lemma_cat_eq(a7, le(a.relation_count as nat, 2), b7, le(b.relation_count as nat, 2));
    lemma_cat_eq(a6, seq![a.encryption], b6, seq![b.encryption]);
    lemma_cat_eq(a5, seq![a.compression], b5, seq![b.compression]);
    lemma_cat_eq(a4, le(a.attr_count as nat, 2), b4, le(b.attr_count as nat, 2));
    lemma_cat_eq(a3, le(a.tag_count as nat, 2), b3, le(b.tag_count as nat, 2));
    lemma_cat_eq(
        a2,
        le(bits_of(a.modified_ns) as nat, 8),
        b2,
        le(bits_of(b.modified_ns) as nat, 8),
    );
    lemma_cat_eq(
        a1,
        le(bits_of(a.created_ns) as nat, 8),
        b1,
        le(bits_of(b.created_ns) as nat, 8),
    );
    lemma_cat_eq(
        le(a.blob_offset as nat, 8),
        le(a.blob_length as nat, 8),
        le(b.blob_offset as nat, 8),
        le(b.blob_length as nat, 8),
    );
    assert(seq![a.encryption][0] == seq![b.encryption][0]);
    assert(seq![a.compression][0] == seq![b.compression][0]);
    lemma_u64_image(a.blob_offset, b.blob_offset);
    lemma_u64_image(a.blob_length, b.blob_length);
    lemma_u64_image(bits_of(a.created_ns), bits_of(b.created_ns));
    lemma_u64_image(bits_of(a.modified_ns), bits_of(b.modified_ns));
    lemma_u16_image(a.tag_count, b.tag_count);
    lemma_u16_image(a.attr_count, b.attr_count);
    lemma_u16_image(a.relation_count, b.relation_count);
}

proof fn lemma_tail(a: ObjectRecord, b: ObjectRecord)
    requires
        a.tail() == b.tail(),
    ensures
        a.inline_tags == b.inline_tags,
        a.overflow_offset == b.overflow_offset,
        a.stored_size == b.stored_size,
        a.last_modify_lsn == b.last_modify_lsn,
{
    broadcast use lemma_le_len;

    let (x, y) = (a.inline_tags@, b.inline_tags@);
    let a1 = le(x[0] as nat, 4) + le(x[1] as nat, 4);
    let b1 = le(y[0] as nat, 4) + le(y[1] as nat, 4);
    let a2 = a1 + le(x[2] as nat, 4);
    let b2 = b1 + le(y[2] as nat, 4);
    let a3 = a2 + le(x[3] as nat, 4);
    let b3 = b2 + le(y[3] as nat, 4);
    let a4 = a3 + le(a.overflow_offset as nat, 8);
    let b4 = b3 + le(b.overflow_offset as nat, 8);
    let a5 = a4 + le(a.stored_size as nat, 8);
    let b5 = b4 + le(b.stored_size as nat, 8);
    lemma_cat_eq(a5, le(a.last_modify_lsn as nat, 8), b5, le(b.last_modify_lsn as nat, 8));
    lemma_cat_eq(a4, le(a.stored_size as nat, 8), b4, le(b.stored_size as nat, 8));
    lemma_cat_eq(a3, le(a.overflow_offset as nat, 8), b3, le(b.overflow_offset as nat, 8));
    lemma_cat_eq(a2, le(x[3] as nat, 4), b2, le(y[3] as nat, 4));
    lemma_cat_eq(a1, le(x[2] as nat, 4), b1, le(y[2] as nat, 4));
    lemma_cat_eq(le(x[0] as nat, 4), le(x[1] as nat, 4), le(y[0] as nat, 4), le(y[1] as nat, 4));
    lemma_u32_image(x[0], y[0]);
    lemma_u32_image(x[1], y[1]);
    lemma_u32_image(x[2], y[2]);
    lemma_u32_image(x[3], y[3]);
    lemma_u64_image(a.overflow_offset, b.overflow_offset);
    lemma_u64_image(a.stored_size, b.stored_size);
    lemma_u64_image(a.last_modify_lsn, b.last_modify_lsn);
    assert(a.inline_tags =~= b.inline_tags);
}

impl LeafRecord for ObjectRecord {
    open spec fn size() -> nat {
        128
    }

    open spec fn bytes(&self) -> Seq<u8> {
        self.image()
    }

    proof fn bytes_len(&self) {
        self.image_len();
    }

    proof fn bytes_injective(a: Self, b: Self) {
        ObjectRecord::image_injective(a, b);
    }

    fn record_size() -> (r: usize) {
        OBJECT_RECORD_SIZE
    }

    fn put_record(&self, out: &mut Vec<u8>) {
        self.put(out)
    }

    fn get_record(s: &[u8], at: usize) -> (r: Self) {
        Self::get(s, at)
    }
}

} // verus!
