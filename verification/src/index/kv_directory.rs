//! The directory block of the extendible hash table.

use vstd::prelude::*;
use crate::bytes::{get_array, get_u32, le, lemma_adjacent, lemma_cat_eq, lemma_le_len,
    lemma_u32_image, put_bytes, put_le, zeros};
use crate::index::overflow_chain::null_ref;
use crate::storage::block::{same_magic, BlockHeader, BlockKind, BlockRef,
    BLOCK_PREAMBLE_MAGIC_BLOCK};
use crate::storage::crc::{block_crc, crc32c};
use crate::storage::device::{overwritten, BlockDevice};
use crate::storage::records::{get_images, images, lemma_images_injective, lemma_images_len,
    put_images};

verus! {

/// Size of a directory block.
pub const KV_DIRECTORY_BLOCK_SIZE: usize = 4096;

/// References in a directory block.
pub const KV_DIRECTORY_INLINE_ENTRIES: usize = 252;

/// The greatest depth whose references fit into the block.
pub const KV_DIRECTORY_MAX_INLINE_DEPTH: u8 = 7;

/// Format version of a directory block.
pub const KV_DIRECTORY_FORMAT_VERSION: u16 = 1;

/// The directory: a reference to a bucket for each value of the leading bits
/// of a hash.
#[derive(Clone, Copy, Debug)]
pub struct KvDirectoryBlock {
    /// `[0..32]`
    pub header: BlockHeader,
    /// `[32..33]` how many bits are looked at.
    pub global_depth: u8,
    /// `[33..36]`
    pub _pad0: [u8; 3],
    /// `[36..40]`
    pub bucket_count: u32,
    /// `[40..4072]`
    pub entries: [BlockRef; 252],
    /// `[4072..4088]` the rest of a directory that does not fit.
    pub spillover_root: BlockRef,
    /// `[4088..4092]`
    pub _pad_tail: [u8; 4],
    /// `[4092..4096]` checksum of all bytes before it.
    pub crc: u32,
}

/// What can be wrong with a directory block.
#[derive(Clone, Debug, PartialEq, Eq)]
#[allow(inconsistent_fields)]
pub enum KvDirectoryError {
    CrcMismatch { expected: u32, actual: u32 },
    InvalidMagic { actual: [u8; 4] },
    InvalidBlockKind(u16),
    InvalidFormatVersion(u16),
    /// The directory does not fit into the block.
    SpilloverUnsupported(u8),
    InconsistentBucketCount { got: u32, expected: u32 },
}

/// Why the fields of a block are not accepted, if they are not.
pub open spec fn directory_form_fault(b: KvDirectoryBlock) -> Option<KvDirectoryError> {
    if b.header.pre.magic@ != BLOCK_PREAMBLE_MAGIC_BLOCK@ {
        Some(KvDirectoryError::InvalidMagic { actual: b.header.pre.magic })
    } else if b.header.pre.kind != BlockKind::KvHashDirectory.number() {
        Some(KvDirectoryError::InvalidBlockKind(b.header.pre.kind))
    } else if b.header.pre.format_version != KV_DIRECTORY_FORMAT_VERSION {
        Some(KvDirectoryError::InvalidFormatVersion(b.header.pre.format_version))
    } else if b.global_depth > 7 {
        Some(KvDirectoryError::SpilloverUnsupported(b.global_depth))
    } else if b.bucket_count != 1u32 << b.global_depth {
        Some(
            KvDirectoryError::InconsistentBucketCount {
                got: b.bucket_count,
                expected: 1u32 << b.global_depth,
            },
        )
    } else {
        None
    }
}

/// Why a block is not accepted, if it is not.
pub open spec fn directory_fault(b: KvDirectoryBlock) -> Option<KvDirectoryError> {
    match directory_form_fault(b) {
        Some(e) => Some(e),
        None => if b.crc != b.checksum() {
            Some(KvDirectoryError::CrcMismatch { expected: b.crc, actual: b.checksum() })
        } else {
            None
        },
    }
}

impl KvDirectoryBlock {
    /// The bytes on disk.
    pub open spec fn image(&self) -> Seq<u8> {
        self.header.image() + seq![self.global_depth] + self._pad0@
            + le(self.bucket_count as nat, 4) + images(self.entries@, 252)
            + self.spillover_root.image() + self._pad_tail@ + le(self.crc as nat, 4)
    }

    /// Append the bytes on disk to `out`.
    pub fn put(&self, out: &mut Vec<u8>)
        ensures
            final(out)@ == old(out)@ + self.image(),
    {
        let ghost start = out@;
        self.header.put(out);
        out.push(self.global_depth);
        put_bytes(out, self._pad0.as_slice());
        put_le(out, self.bucket_count as u64, 4);
        put_images(out, self.entries.as_slice());
        self.spillover_root.put(out);
        put_bytes(out, self._pad_tail.as_slice());
        put_le(out, self.crc as u64, 4);
        proof {
            assert(out@ =~= start + self.image());
        }
    }

    /// The value whose bytes stand at `at`.
    pub fn get(s: &[u8], at: usize) -> (r: Self)
        requires
            at + 4096 <= s@.len(),
        ensures
            r.image() == s@.subrange(at as int, at + 4096),
    {
        let total = s.len();
        let r = KvDirectoryBlock {
            header: BlockHeader::get(s, at),
            global_depth: s[at + 32],
            _pad0: get_array::<3>(s, at + 33),
            bucket_count: get_u32(s, at + 36),
            entries: get_images::<BlockRef, 252>(s, at + 40, 16),
            spillover_root: BlockRef::get(s, at + 4072),
            _pad_tail: get_array::<4>(s, at + 4088),
            crc: get_u32(s, at + 4092),
        };
        proof {
            assert(seq![r.global_depth] =~= s@.subrange(at + 32, at + 33));
            lemma_adjacent(s@, at as int, at + 32, at + 33);
            lemma_adjacent(s@, at as int, at + 33, at + 36);
            lemma_adjacent(s@, at as int, at + 36, at + 40);
            lemma_adjacent(s@, at as int, at + 40, at + 4072);
            lemma_adjacent(s@, at as int, at + 4072, at + 4088);
            lemma_adjacent(s@, at as int, at + 4088, at + 4092);
            lemma_adjacent(s@, at as int, at + 4092, at + 4096);
        }
        r
    }

    /// An image has 4096 bytes.
    pub proof fn image_len(&self)
        ensures
            self.image().len() == 4096,
    {
        broadcast use lemma_le_len;

        self.header.image_len();
        lemma_images_len(self.entries@, 252);
        self.spillover_root.image_len();
    }

    /// The image determines the value.
    pub proof fn image_injective(x: KvDirectoryBlock, y: KvDirectoryBlock)
        requires
            x.image() == y.image(),
        ensures
            x == y,
    {
        broadcast use lemma_le_len;

        x.header.image_len();
        y.header.image_len();
        lemma_images_len(x.entries@, 252);
        lemma_images_len(y.entries@, 252);
        x.spillover_root.image_len();
        y.spillover_root.image_len();
        let x1 = x.header.image() + seq![x.global_depth];
        let x2 = x1 + x._pad0@;
        let x3 = x2 + le(x.bucket_count as nat, 4);
        let x4 = x3 + images(x.entries@, 252);
        let x5 = x4 + x.spillover_root.image();
        let x6 = x5 + x._pad_tail@;
        let y1 = y.header.image() + seq![y.global_depth];
        let y2 = y1 + y._pad0@;
        let y3 = y2 + le(y.bucket_count as nat, 4);
        let y4 = y3 + images(y.entries@, 252);
        let y5 = y4 + y.spillover_root.image();
        let y6 = y5 + y._pad_tail@;
        lemma_cat_eq(x6, le(x.crc as nat, 4), y6, le(y.crc as nat, 4));
        lemma_cat_eq(x5, x._pad_tail@, y5, y._pad_tail@);
        lemma_cat_eq(x4, x.spillover_root.image(), y4, y.spillover_root.image());
        lemma_cat_eq(x3, images(x.entries@, 252), y3, images(y.entries@, 252));
        lemma_cat_eq(x2, le(x.bucket_count as nat, 4), y2, le(y.bucket_count as nat, 4));
        lemma_cat_eq(x1, x._pad0@, y1, y._pad0@);
        lemma_cat_eq(
            x.header.image(),
            seq![x.global_depth],
            y.header.image(),
            seq![y.global_depth],
        );
        BlockHeader::image_injective(x.header, y.header);
        assert(x.global_depth == seq![x.global_depth][0] && y.global_depth == seq![y.global_depth][0]);
        assert(x._pad0 =~= y._pad0);
        lemma_u32_image(x.bucket_count, y.bucket_count);
        lemma_images_injective(x.entries@, y.entries@, 252);
        assert(x.entries =~= y.entries);
        BlockRef::image_injective(x.spillover_root, y.spillover_root);
        assert(x._pad_tail =~= y._pad_tail);
        lemma_u32_image(x.crc, y.crc);
    }

    /// An index that has a reference in the block.
    pub open spec fn in_block(&self, idx: u32) -> bool {
        idx < self.bucket_count && idx < 252
    }

    /// A directory without buckets.
    pub fn new(global_depth: u8) -> (r: Result<Self, KvDirectoryError>)
        ensures
            match r {
                Ok(d) => {
                    &&& global_depth <= 7
                    &&& directory_form_fault(d) is None
                    &&& d.header.payload_len == 4060
                    &&& d.header.reserved@ == zeros(20)
                    &&& d.global_depth == global_depth
                    &&& d.bucket_count == 1u32 << global_depth
                    &&& d._pad0@ == zeros(3)
                    &&& forall|i: int| 0 <= i < 252 ==> #[trigger] d.entries@[i] == null_ref()
                    &&& d.spillover_root == null_ref()
                    &&& d._pad_tail@ == zeros(4)
                    &&& d.crc == 0
                },
                Err(e) => global_depth > 7 && e == KvDirectoryError::SpilloverUnsupported(
                    global_depth,
                ),
            },
    {
        if global_depth > KV_DIRECTORY_MAX_INLINE_DEPTH {
            return Err(KvDirectoryError::SpilloverUnsupported(global_depth));
        }
        let none = BlockRef { disk_id: 0, _pad: 0, block_no: 0, generation: 0 };
        let d = KvDirectoryBlock {
            header: BlockHeader::new(
                BlockKind::KvHashDirectory,
                KV_DIRECTORY_FORMAT_VERSION,
                4060,
            ),
            global_depth,
            _pad0: [0u8; 3],
            bucket_count: 1u32 << global_depth,
            entries: [none; 252],
            spillover_root: none,
            _pad_tail: [0u8; 4],
            crc: 0,
        };
        proof {
            assert(d._pad0@ =~= zeros(3));
            assert(d._pad_tail@ =~= zeros(4));
        }
        Ok(d)
    }

    /// Number of references.
    pub fn count(&self) -> (r: u32)
        ensures
            r == self.bucket_count,
    {
        self.bucket_count
    }

    /// Set the reference at `idx`. Nothing happens where there is none.
    pub fn set_entry(&mut self, idx: u32, block_ref: BlockRef)
        ensures
            if old(self).in_block(idx) {
                &&& *final(self) == (KvDirectoryBlock { entries: final(self).entries, ..*old(self) })
                &&& final(self).entries@ == old(self).entries@.update(idx as int, block_ref)
            } else {
                *final(self) == *old(self)
            },
    {
        if idx < self.bucket_count && idx < 252 {
            self.entries[idx as usize] = block_ref;
        }
    }

    /// The reference at `idx`; one that points nowhere where there is none.
    pub fn get_entry(&self, idx: u32) -> (r: BlockRef)
        ensures
            r == if self.in_block(idx) {
                self.entries@[idx as int]
            } else {
                null_ref()
            },
    {
        if idx < self.bucket_count && idx < 252 {
            self.entries[idx as usize]
        } else {
            BlockRef { disk_id: 0, _pad: 0, block_no: 0, generation: 0 }
        }
    }

    /// Whether the block can be accepted.
    fn validate(&self) -> (r: Result<(), KvDirectoryError>)
        ensures
            r == match directory_fault(*self) {
                Some(e) => Err::<(), KvDirectoryError>(e),
                None => Ok(()),
            },
    {
        if !same_magic(&self.header.pre.magic, &BLOCK_PREAMBLE_MAGIC_BLOCK) {
            return Err(KvDirectoryError::InvalidMagic { actual: self.header.pre.magic });
        }
        if self.header.pre.kind != BlockKind::KvHashDirectory.code() {
            return Err(KvDirectoryError::InvalidBlockKind(self.header.pre.kind));
        }
        if self.header.pre.format_version != KV_DIRECTORY_FORMAT_VERSION {
            return Err(KvDirectoryError::InvalidFormatVersion(self.header.pre.format_version));
        }
        if self.global_depth > KV_DIRECTORY_MAX_INLINE_DEPTH {
            return Err(KvDirectoryError::SpilloverUnsupported(self.global_depth));
        }
        let expected: u32 = 1u32 << self.global_depth;
        if self.bucket_count != expected {
            return Err(
                KvDirectoryError::InconsistentBucketCount { got: self.bucket_count, expected },
            );
        }
        self.verify_crc()
    }

    /// The checksum of the block.
    pub open spec fn checksum(&self) -> u32 {
        crc32c(self.image().subrange(0, 4092))
    }

    /// The block with its checksum set.
    pub open spec fn sealed(&self) -> KvDirectoryBlock {
        KvDirectoryBlock { crc: self.checksum(), ..*self }
    }

    /// The checksum does not depend on the field that holds it.
    pub proof fn checksum_ignores_crc(x: KvDirectoryBlock, y: KvDirectoryBlock)
        requires
            y == (KvDirectoryBlock { crc: y.crc, ..x }),
        ensures
            x.checksum() == y.checksum(),
    {
        broadcast use lemma_le_len;

        x.image_len();
        y.image_len();
        assert(x.image().subrange(0, 4092) =~= y.image().subrange(0, 4092));
    }

    /// The bytes of the block.
    pub fn to_bytes(&self) -> (r: Vec<u8>)
        ensures
            r@ == self.image(),
            r@.len() == 4096,
    {
        let mut out: Vec<u8> = Vec::new();
        self.put(&mut out);
        proof {
            self.image_len();
            assert(out@ =~= self.image());
        }
        out
    }

    fn computed_crc(&self) -> (r: u32)
        ensures
            r == self.checksum(),
    {
        let bytes = self.to_bytes();
        block_crc(bytes.as_slice(), 0, 4092)
    }

    /// Set the checksum.
    pub fn recompute_crc(&mut self)
        ensures
            *final(self) == old(self).sealed(),
    {
        let crc = self.computed_crc();
        self.crc = crc;
    }

    /// Whether the checksum is that of the block.
    pub fn verify_crc(&self) -> (r: Result<(), KvDirectoryError>)
        ensures
            r == if self.crc == self.checksum() {
                Ok::<(), KvDirectoryError>(())
            } else {
                Err(KvDirectoryError::CrcMismatch { expected: self.crc, actual: self.checksum() })
            },
    {
        let actual = self.computed_crc();
        if self.crc == actual {
            Ok(())
        } else {
            Err(KvDirectoryError::CrcMismatch { expected: self.crc, actual })
        }
    }

    /// Set the checksum and write the block. A device that fails is reported
    /// as a checksum mismatch of zeros.
    pub fn write<D: BlockDevice>(&mut self, device: &mut D, offset: u64) -> (r: Result<(), KvDirectoryError>)
        ensures
            *final(self) == old(self).sealed(),
            old(device).reliable() ==> final(device).reliable(),
            match r {
                Ok(_) => {
                    &&& offset + 4096 <= old(device).contents().len()
                    &&& final(device).contents() == overwritten(
                        old(device).contents(),
                        offset as int,
                        old(self).sealed().image(),
                    )
                },
                Err(e) => e == (KvDirectoryError::CrcMismatch { expected: 0, actual: 0 }) && (old(
                    device,
                ).reliable() ==> offset + 4096 > old(device).contents().len() && final(device).contents() == old(device).contents()),
            },
    {
        self.recompute_crc();
        let bytes = self.to_bytes();
        match device.write_at(offset, bytes.as_slice()) {
            Ok(_) => Ok(()),
            Err(_) => Err(KvDirectoryError::CrcMismatch { expected: 0, actual: 0 }),
        }
    }

    /// Read a block and check it. A device that fails is reported as a
    /// checksum mismatch of zeros.
    pub fn read<D: BlockDevice>(device: &D, offset: u64) -> (r: Result<Self, KvDirectoryError>)
        ensures
            r == directory_read(device.contents(), offset as int) || (!device.reliable() && r == Err::<
                Self,
                KvDirectoryError,
            >(KvDirectoryError::CrcMismatch { expected: 0, actual: 0 })),
    {
        match device.read_at(offset, 4096) {
            Ok(bytes) => {
                let b = KvDirectoryBlock::get(bytes.as_slice(), 0);
                proof {
                    assert(bytes@.subrange(0, 4096) =~= bytes@);
                    lemma_directory_of(b);
                }
                match b.validate() {
                    Ok(_) => Ok(b),
                    Err(e) => Err(e),
                }
            },
            Err(_) => Err(KvDirectoryError::CrcMismatch { expected: 0, actual: 0 }),
        }
    }
}

/// The block that `bytes` hold.
pub open spec fn directory_of(bytes: Seq<u8>) -> KvDirectoryBlock {
    choose|b: KvDirectoryBlock| #[trigger] b.image() == bytes
}

/// What reading the block at `offset` gives.
pub open spec fn directory_read(contents: Seq<u8>, offset: int) -> Result<KvDirectoryBlock, KvDirectoryError> {
    if offset + 4096 > contents.len() {
        Err(KvDirectoryError::CrcMismatch { expected: 0, actual: 0 })
    } else {
        let b = directory_of(contents.subrange(offset, offset + 4096));
        match directory_fault(b) {
            Some(e) => Err(e),
            None => Ok(b),
        }
    }
}

proof fn lemma_directory_of(b: KvDirectoryBlock)
    ensures
        directory_of(b.image()) == b,
{
    KvDirectoryBlock::image_injective(directory_of(b.image()), b);
}

/// A block that was written is read back as it was, with its checksum set.
pub proof fn directory_write_then_read(contents: Seq<u8>, offset: int, b: KvDirectoryBlock)
    requires
        0 <= offset,
        offset + 4096 <= contents.len(),
        directory_form_fault(b) is None,
    ensures
        directory_read(overwritten(contents, offset, b.sealed().image()), offset) == Ok::<
            KvDirectoryBlock,
            KvDirectoryError,
        >(b.sealed()),
{
    b.sealed().image_len();
    crate::storage::device::read_after_write(contents, offset, b.sealed().image());
    lemma_directory_of(b.sealed());
    KvDirectoryBlock::checksum_ignores_crc(b, b.sealed());
}

} // verus!
