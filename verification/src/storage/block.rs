//! References to blocks and blobs, and the headers of blocks and tree nodes.

use vstd::prelude::*;
use crate::bytes::{get_array, get_u16, get_u32, get_u64, le, lemma_adjacent, lemma_cat_eq,
    lemma_le_len, lemma_u16_image, lemma_u32_image, lemma_u64_image, put_bytes, put_le, zeros};

verus! {

/// Size of a metadata block.
pub const BLOCK_SIZE: usize = 4096;

/// First bytes of a block.
pub const BLOCK_PREAMBLE_MAGIC_BLOCK: [u8; 4] = [77, 73, 77, 82];

/// First bytes of a tree node.
pub const BLOCK_PREAMBLE_MAGIC_BTREE: [u8; 4] = [77, 73, 77, 66];

/// Size of a [`BlockRef`].
pub const BLOCK_REF_SIZE: usize = 16;

/// Size of a [`BlobRef`].
pub const BLOB_REF_SIZE: usize = 16;

/// Size of a [`BlockPreamble`].
pub const BLOCK_PREAMBLE_SIZE: usize = 8;

/// Size of a [`BlockHeader`].
pub const BLOCK_HEADER_SIZE: usize = 32;

/// Size of a [`BtreeNodeHeader`].
pub const BTREE_NODE_HEADER_SIZE: usize = 64;

/// Where a block stands. The all-zero reference points nowhere.
#[derive(Clone, Copy, Debug, PartialEq, Eq, Structural)]
pub struct BlockRef {
    pub disk_id: u16,
    pub _pad: u16,
    pub block_no: u32,
    pub generation: u64,
}

impl Default for BlockRef {
    fn default() -> (r: Self)
        ensures
            r.is_null(),
    {
        BlockRef { disk_id: 0, _pad: 0, block_no: 0, generation: 0 }
    }
}

impl BlockRef {
    /// The reference points nowhere.
    pub open spec fn is_null(&self) -> bool {
        self.disk_id == 0 && self._pad == 0 && self.block_no == 0 && self.generation == 0
    }

    /// Whether the reference points nowhere.
    pub fn points_nowhere(&self) -> (r: bool)
        ensures
            r == self.is_null(),
    {
        self.disk_id == 0 && self._pad == 0 && self.block_no == 0 && self.generation == 0
    }

    /// The bytes on disk.
    pub open spec fn image(&self) -> Seq<u8> {
        le(self.disk_id as nat, 2) + le(self._pad as nat, 2) + le(self.block_no as nat, 4) + le(
            self.generation as nat,
            8,
        )
    }

    /// Append the bytes on disk to `out`.
    pub fn put(&self, out: &mut Vec<u8>)
        ensures
            final(out)@ == old(out)@ + self.image(),
    {
        let ghost start = out@;
        put_le(out, self.disk_id as u64, 2);
        put_le(out, self._pad as u64, 2);
        put_le(out, self.block_no as u64, 4);
        put_le(out, self.generation, 8);
        proof {
            assert(out@ =~= start + self.image());
        }
    }

    /// The value whose bytes stand at `at`.
    pub fn get(s: &[u8], at: usize) -> (r: Self)
        requires
            at + BLOCK_REF_SIZE <= s@.len(),
        ensures
            r.image() == s@.subrange(at as int, at + 16),
    {
        let total = s.len();
        let r = BlockRef {
            disk_id: get_u16(s, at),
            _pad: get_u16(s, at + 2),
            block_no: get_u32(s, at + 4),
            generation: get_u64(s, at + 8),
        };
        proof {
            lemma_adjacent(s@, at as int, at + 2, at + 4);
            lemma_adjacent(s@, at as int, at + 4, at + 8);
            lemma_adjacent(s@, at as int, at + 8, at + 16);
        }
        r
    }

    /// The image determines the reference.
    pub proof fn image_injective(a: BlockRef, b: BlockRef)
        requires
            a.image() == b.image(),
        ensures
            a == b,
    {
        broadcast use lemma_le_len;

        let (w, x, y, z) = (
            le(a.disk_id as nat, 2),
            le(a._pad as nat, 2),
            le(a.block_no as nat, 4),
            le(a.generation as nat, 8),
        );
        let (p, q, r, s) = (
            le(b.disk_id as nat, 2),
            le(b._pad as nat, 2),
            le(b.block_no as nat, 4),
            le(b.generation as nat, 8),
        );
        lemma_cat_eq(w + x + y, z, p + q + r, s);
        lemma_cat_eq(w + x, y, p + q, r);
        lemma_cat_eq(w, x, p, q);
        lemma_u16_image(a.disk_id, b.disk_id);
        lemma_u16_image(a._pad, b._pad);
        lemma_u32_image(a.block_no, b.block_no);
        lemma_u64_image(a.generation, b.generation);
    }

    /// An image has sixteen bytes.
    pub proof fn image_len(&self)
        ensures
            self.image().len() == 16,
    {
        broadcast use lemma_le_len;

    }
}

/// Where a blob stands, and how long it is.
#[derive(Clone, Copy, Debug, PartialEq, Eq, Structural)]
pub struct BlobRef {
    pub disk_id: u16,
    pub _pad: u16,
    pub block_no: u32,
    pub length: u64,
}

impl Default for BlobRef {
    fn default() -> (r: Self)
        ensures
            r == (BlobRef { disk_id: 0, _pad: 0, block_no: 0, length: 0 }),
    {
        BlobRef { disk_id: 0, _pad: 0, block_no: 0, length: 0 }
    }
}

impl BlobRef {
    /// The bytes on disk.
    pub open spec fn image(&self) -> Seq<u8> {
        le(self.disk_id as nat, 2) + le(self._pad as nat, 2) + le(self.block_no as nat, 4) + le(
            self.length as nat,
            8,
        )
    }

    /// Append the bytes on disk to `out`.
    pub fn put(&self, out: &mut Vec<u8>)
        ensures
            final(out)@ == old(out)@ + self.image(),
    {
        let ghost start = out@;
        put_le(out, self.disk_id as u64, 2);
        put_le(out, self._pad as u64, 2);
        put_le(out, self.block_no as u64, 4);
        put_le(out, self.length, 8);
        proof {
            assert(out@ =~= start + self.image());
        }
    }

    /// The value whose bytes stand at `at`.
    pub fn get(s: &[u8], at: usize) -> (r: Self)
        requires
            at + BLOB_REF_SIZE <= s@.len(),
        ensures
            r.image() == s@.subrange(at as int, at + 16),
    {
        let total = s.len();
        let r = BlobRef {
            disk_id: get_u16(s, at),
            _pad: get_u16(s, at + 2),
            block_no: get_u32(s, at + 4),
            length: get_u64(s, at + 8),
        };
        proof {
            lemma_adjacent(s@, at as int, at + 2, at + 4);
            lemma_adjacent(s@, at as int, at + 4, at + 8);
            lemma_adjacent(s@, at as int, at + 8, at + 16);
        }
        r
    }

    /// The image determines the reference.
    pub proof fn image_injective(a: BlobRef, b: BlobRef)
        requires
            a.image() == b.image(),
        ensures
            a == b,
    {
        let c = BlockRef {
            disk_id: a.disk_id,
            _pad: a._pad,
            block_no: a.block_no,
            generation: a.length,
        };
        let d = BlockRef {
            disk_id: b.disk_id,
            _pad: b._pad,
            block_no: b.block_no,
            generation: b.length,
        };
        BlockRef::image_injective(c, d);
    }

    /// An image has sixteen bytes.
    pub proof fn image_len(&self)
        ensures
            self.image().len() == 16,
    {
        broadcast use lemma_le_len;

    }
}

/// What every block and tree node starts with.
#[derive(Clone, Copy, Debug)]
pub struct BlockPreamble {
    pub magic: [u8; 4],
    pub kind: u16,
    pub format_version: u16,
}

impl BlockPreamble {
    /// The bytes on disk.
    pub open spec fn image(&self) -> Seq<u8> {
        self.magic@ + le(self.kind as nat, 2) + le(self.format_version as nat, 2)
    }

    /// Append the bytes on disk to `out`.
    pub fn put(&self, out: &mut Vec<u8>)
        ensures
            final(out)@ == old(out)@ + self.image(),
    {
        let ghost start = out@;
        put_bytes(out, self.magic.as_slice());
        put_le(out, self.kind as u64, 2);
        put_le(out, self.format_version as u64, 2);
        proof {
            assert(out@ =~= start + self.image());
        }
    }

    /// The value whose bytes stand at `at`.
    pub fn get(s: &[u8], at: usize) -> (r: Self)
        requires
            at + BLOCK_PREAMBLE_SIZE <= s@.len(),
        ensures
            r.image() == s@.subrange(at as int, at + 8),
    {
        let total = s.len();
        let r = BlockPreamble {
            magic: get_array::<4>(s, at),
            kind: get_u16(s, at + 4),
            format_version: get_u16(s, at + 6),
        };
        proof {
            lemma_adjacent(s@, at as int, at + 4, at + 6);
            lemma_adjacent(s@, at as int, at + 6, at + 8);
        }
        r
    }

    /// The image determines the preamble.
    pub proof fn image_injective(a: BlockPreamble, b: BlockPreamble)
        requires
            a.image() == b.image(),
        ensures
            a == b,
    {
        broadcast use lemma_le_len;

        let k = le(a.kind as nat, 2);
        let l = le(b.kind as nat, 2);
        let v = le(a.format_version as nat, 2);
        let w = le(b.format_version as nat, 2);
        lemma_cat_eq(a.magic@ + k, v, b.magic@ + l, w);
        lemma_cat_eq(a.magic@, k, b.magic@, l);
        lemma_u16_image(a.kind, b.kind);
        lemma_u16_image(a.format_version, b.format_version);
        assert(a.magic =~= b.magic);
    }

    /// An image has eight bytes.
    pub proof fn image_len(&self)
        ensures
            self.image().len() == 8,
    {
        broadcast use lemma_le_len;

    }
}

/// Kinds of metadata blocks.
#[derive(Clone, Copy, Debug, PartialEq, Eq, Structural)]
pub enum BlockKind {
    Overflow,
    KvHashDirectory,
    KvHashBucket,
    TagBitmapPage,
    PoolStateRoot,
    ZoneMap,
}

impl BlockKind {
    /// The number that stands for the kind on disk.
    pub open spec fn number(&self) -> u16 {
        match self {
            BlockKind::Overflow => 1,
            BlockKind::KvHashDirectory => 2,
            BlockKind::KvHashBucket => 3,
            BlockKind::TagBitmapPage => 4,
            BlockKind::PoolStateRoot => 5,
            BlockKind::ZoneMap => 6,
        }
    }

    pub fn code(&self) -> (r: u16)
        ensures
            r == self.number(),
    {
        match self {
            BlockKind::Overflow => 1,
            BlockKind::KvHashDirectory => 2,
            BlockKind::KvHashBucket => 3,
            BlockKind::TagBitmapPage => 4,
            BlockKind::PoolStateRoot => 5,
            BlockKind::ZoneMap => 6,
        }
    }
}

/// The header of a metadata block.
#[derive(Clone, Copy, Debug)]
pub struct BlockHeader {
    pub pre: BlockPreamble,
    /// Bytes between the header and the checksum.
    pub payload_len: u32,
    pub reserved: [u8; 20],
}

impl BlockHeader {
    /// The header of a block of this kind.
    pub fn new(kind: BlockKind, format_version: u16, payload_len: u32) -> (r: Self)
        ensures
            r.pre.magic@ == BLOCK_PREAMBLE_MAGIC_BLOCK@,
            r.pre.kind == kind.number(),
            r.pre.format_version == format_version,
            r.payload_len == payload_len,
            r.reserved@ == zeros(20),
    {
        let r = BlockHeader {
            pre: BlockPreamble {
                magic: BLOCK_PREAMBLE_MAGIC_BLOCK,
                kind: kind.code(),
                format_version,
            },
            payload_len,
            reserved: [0u8; 20],
        };
        proof {
            assert(r.reserved@ =~= zeros(20));
        }
        r
    }

    /// The bytes on disk.
    pub open spec fn image(&self) -> Seq<u8> {
        self.pre.image() + le(self.payload_len as nat, 4) + self.reserved@
    }

    /// Append the bytes on disk to `out`.
    pub fn put(&self, out: &mut Vec<u8>)
        ensures
            final(out)@ == old(out)@ + self.image(),
    {
        let ghost start = out@;
        self.pre.put(out);
        put_le(out, self.payload_len as u64, 4);
        put_bytes(out, self.reserved.as_slice());
        proof {
            assert(out@ =~= start + self.image());
        }
    }

    /// The value whose bytes stand at `at`.
    pub fn get(s: &[u8], at: usize) -> (r: Self)
        requires
            at + BLOCK_HEADER_SIZE <= s@.len(),
        ensures
            r.image() == s@.subrange(at as int, at + 32),
    {
        let total = s.len();
        let r = BlockHeader {
            pre: BlockPreamble::get(s, at),
            payload_len: get_u32(s, at + 8),
            reserved: get_array::<20>(s, at + 12),
        };
        proof {
            lemma_adjacent(s@, at as int, at + 8, at + 12);
            lemma_adjacent(s@, at as int, at + 12, at + 32);
        }
        r
    }

    /// The image determines the header.
    pub proof fn image_injective(a: BlockHeader, b: BlockHeader)
        requires
            a.image() == b.image(),
        ensures
            a == b,
    {
        broadcast use lemma_le_len;

        a.pre.image_len();
        b.pre.image_len();
        let k = le(a.payload_len as nat, 4);
        let l = le(b.payload_len as nat, 4);
        lemma_cat_eq(a.pre.image() + k, a.reserved@, b.pre.image() + l, b.reserved@);
        lemma_cat_eq(a.pre.image(), k, b.pre.image(), l);
        BlockPreamble::image_injective(a.pre, b.pre);
        lemma_u32_image(a.payload_len, b.payload_len);
        assert(a.reserved =~= b.reserved);
    }

    /// An image has thirty-two bytes.
    pub proof fn image_len(&self)
        ensures
            self.image().len() == 32,
    {
        broadcast use lemma_le_len;

        self.pre.image_len();
    }
}

/// Kinds of trees.
#[derive(Clone, Copy, Debug, PartialEq, Eq, Structural)]
pub enum BtreeKind {
    ObjectTable,
    LocationTable,
    Backpointer,
    Forward,
    ForwardOverflow,
    TagDirectory,
    KvDirectory,
    Range,
    ChunkIndex,
    Ontology,
    PlacementRules,
    DiskDescriptors,
}

impl BtreeKind {
    /// The number that stands for the kind on disk.
    pub open spec fn number(&self) -> u16 {
        match self {
            BtreeKind::ObjectTable => 1,
            BtreeKind::LocationTable => 2,
            BtreeKind::Backpointer => 3,
            BtreeKind::Forward => 4,
            BtreeKind::ForwardOverflow => 5,
            BtreeKind::TagDirectory => 6,
            BtreeKind::KvDirectory => 7,
            BtreeKind::Range => 8,
            BtreeKind::ChunkIndex => 9,
            BtreeKind::Ontology => 10,
            BtreeKind::PlacementRules => 11,
            BtreeKind::DiskDescriptors => 12,
        }
    }

    pub fn code(&self) -> (r: u16)
        ensures
            r == self.number(),
    {
        match self {
            BtreeKind::ObjectTable => 1,
            BtreeKind::LocationTable => 2,
            BtreeKind::Backpointer => 3,
            BtreeKind::Forward => 4,
            BtreeKind::ForwardOverflow => 5,
            BtreeKind::TagDirectory => 6,
            BtreeKind::KvDirectory => 7,
            BtreeKind::Range => 8,
            BtreeKind::ChunkIndex => 9,
            BtreeKind::Ontology => 10,
            BtreeKind::PlacementRules => 11,
            BtreeKind::DiskDescriptors => 12,
        }
    }
}

/// The header of a tree node.
#[derive(Clone, Copy, Debug)]
pub struct BtreeNodeHeader {
    pub pre: BlockPreamble,
    pub level: u8,
    /// Binary logarithm of the region's size.
    pub region_size_log2: u8,
    pub sorted_run_count: u16,
    pub payload_used: u32,
    /// Counts the writes of the node.
    pub seq: u64,
    pub min_key: [u8; 16],
    pub max_key: [u8; 16],
    pub reserved: [u8; 8],
}

impl BtreeNodeHeader {
    /// The header of an empty node.
    pub fn new(kind: BtreeKind, format_version: u16, level: u8, region_size_log2: u8) -> (r: Self)
        ensures
            r.pre.magic@ == BLOCK_PREAMBLE_MAGIC_BTREE@,
            r.pre.kind == kind.number(),
            r.pre.format_version == format_version,
            r.level == level,
            r.region_size_log2 == region_size_log2,
            r.sorted_run_count == 0,
            r.payload_used == 0,
            r.seq == 0,
            r.min_key@ == zeros(16),
            r.max_key@ == zeros(16),
            r.reserved@ == zeros(8),
    {
        let r = BtreeNodeHeader {
            pre: BlockPreamble {
                magic: BLOCK_PREAMBLE_MAGIC_BTREE,
                kind: kind.code(),
                format_version,
            },
            level,
            region_size_log2,
            sorted_run_count: 0,
            payload_used: 0,
            seq: 0,
            min_key: [0u8; 16],
            max_key: [0u8; 16],
            reserved: [0u8; 8],
        };
        proof {
            assert(r.min_key@ =~= zeros(16));
            assert(r.max_key@ =~= zeros(16));
            assert(r.reserved@ =~= zeros(8));
        }
        r
    }

    /// The bytes on disk.
    pub open spec fn image(&self) -> Seq<u8> {
        self.pre.image() + seq![self.level] + seq![self.region_size_log2] + le(
            self.sorted_run_count as nat,
            2,
        ) + le(self.payload_used as nat, 4) + le(self.seq as nat, 8) + self.min_key@ + self.max_key@
            + self.reserved@
    }

    /// Append the bytes on disk to `out`.
    pub fn put(&self, out: &mut Vec<u8>)
        ensures
            final(out)@ == old(out)@ + self.image(),
    {
        let ghost start = out@;
        self.pre.put(out);
        out.push(self.level);
        out.push(self.region_size_log2);
        put_le(out, self.sorted_run_count as u64, 2);
        put_le(out, self.payload_used as u64, 4);
        put_le(out, self.seq, 8);
        put_bytes(out, self.min_key.as_slice());
        put_bytes(out, self.max_key.as_slice());
        put_bytes(out, self.reserved.as_slice());
        proof {
            assert(out@ =~= start + self.image());
        }
    }

    /// The value whose bytes stand at `at`.
    pub fn get(s: &[u8], at: usize) -> (r: Self)
        requires
            at + BTREE_NODE_HEADER_SIZE <= s@.len(),
        ensures
            r.image() == s@.subrange(at as int, at + 64),
    {
        let total = s.len();
        let r = BtreeNodeHeader {
            pre: BlockPreamble::get(s, at),
            level: s[at + 8],
            region_size_log2: s[at + 9],
            sorted_run_count: get_u16(s, at + 10),
            payload_used: get_u32(s, at + 12),
            seq: get_u64(s, at + 16),
            min_key: get_array::<16>(s, at + 24),
            max_key: get_array::<16>(s, at + 40),
            reserved: get_array::<8>(s, at + 56),
        };
        proof {
            assert(seq![r.level] =~= s@.subrange(at + 8, at + 9));
            assert(seq![r.region_size_log2] =~= s@.subrange(at + 9, at + 10));
            lemma_adjacent(s@, at as int, at + 8, at + 9);
            lemma_adjacent(s@, at as int, at + 9, at + 10);
            lemma_adjacent(s@, at as int, at + 10, at + 12);
            lemma_adjacent(s@, at as int, at + 12, at + 16);
            lemma_adjacent(s@, at as int, at + 16, at + 24);
            lemma_adjacent(s@, at as int, at + 24, at + 40);
            lemma_adjacent(s@, at as int, at + 40, at + 56);
            lemma_adjacent(s@, at as int, at + 56, at + 64);
        }
        r
    }

    /// The image determines the header.
    pub proof fn image_injective(a: BtreeNodeHeader, b: BtreeNodeHeader)
        requires
            a.image() == b.image(),
        ensures
            a == b,
    {
        broadcast use lemma_le_len;

        a.pre.image_len();
        b.pre.image_len();
        let a1 = a.pre.image() + seq![a.level];
        let b1 = b.pre.image() + seq![b.level];
        let a2 = a1 + seq![a.region_size_log2];
        let b2 = b1 + seq![b.region_size_log2];
        let a3 = a2 + le(a.sorted_run_count as nat, 2);
        let b3 = b2 + le(b.sorted_run_count as nat, 2);
        let a4 = a3 + le(a.payload_used as nat, 4);
        let b4 = b3 + le(b.payload_used as nat, 4);
        let a5 = a4 + le(a.seq as nat, 8);
        let b5 = b4 + le(b.seq as nat, 8);
        let a6 = a5 + a.min_key@;
        let b6 = b5 + b.min_key@;
        let a7 = a6 + a.max_key@;
        let b7 = b6 + b.max_key@;
        lemma_cat_eq(a7, a.reserved@, b7, b.reserved@);
        lemma_cat_eq(a6, a.max_key@, b6, b.max_key@);
        lemma_cat_eq(a5, a.min_key@, b5, b.min_key@);
        lemma_cat_eq(a4, le(a.seq as nat, 8), b4, le(b.seq as nat, 8));
        lemma_cat_eq(a3, le(a.payload_used as nat, 4), b3, le(b.payload_used as nat, 4));
        lemma_cat_eq(a2, le(a.sorted_run_count as nat, 2), b2, le(b.sorted_run_count as nat, 2));
        lemma_cat_eq(a1, seq![a.region_size_log2], b1, seq![b.region_size_log2]);
        lemma_cat_eq(a.pre.image(), seq![a.level], b.pre.image(), seq![b.level]);
        assert(seq![a.level][0] == seq![b.level][0]);
        assert(seq![a.region_size_log2][0] == seq![b.region_size_log2][0]);
        BlockPreamble::image_injective(a.pre, b.pre);
        lemma_u16_image(a.sorted_run_count, b.sorted_run_count);
        lemma_u32_image(a.payload_used, b.payload_used);
        lemma_u64_image(a.seq, b.seq);
        assert(a.min_key =~= b.min_key);
        assert(a.max_key =~= b.max_key);
        assert(a.reserved =~= b.reserved);
    }

    /// An image has sixty-four bytes.
    pub proof fn image_len(&self)
        ensures
            self.image().len() == 64,
    {
        broadcast use lemma_le_len;

        self.pre.image_len();
    }
}

/// Whether four bytes are the given magic.
pub fn same_magic(a: &[u8; 4], b: &[u8; 4]) -> (r: bool)
    ensures
        r == (a@ == b@),
{
    let r = a[0] == b[0] && a[1] == b[1] && a[2] == b[2] && a[3] == b[3];
    proof {
        if r {
            assert(a@ =~= b@);
        } else {
            assert(a@[0] != b@[0] || a@[1] != b@[1] || a@[2] != b@[2] || a@[3] != b@[3]);
        }
    }
    r
}

/// What a bucket of a disk is used for.
#[derive(Clone, Copy, Debug, PartialEq, Eq, Structural)]
pub enum BucketDataType {
    Free,
    Metadata,
    Btree,
    Blob,
}

} // verus!
