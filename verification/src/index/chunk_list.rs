//! Chunk lists: the recipe of an object that is stored in chunks.

use vstd::prelude::*;
use crate::bytes::{get_array, get_u32, le, lemma_adjacent, lemma_cat_eq, lemma_le_len,
    lemma_u32_image, put_bytes, put_le};
use crate::index::error::IndexError;

verus! {

/// Size of a [`ChunkParamsRecord`].
pub const CHUNK_PARAMS_RECORD_SIZE: usize = 16;

/// Size of a [`ChunkListEntry`].
pub const CHUNK_LIST_ENTRY_SIZE: usize = 40;

/// Number of the algorithm that keeps content in one piece.
pub const CHUNKING_ALGO_NONE: u8 = 0;

/// Number of the algorithm that cuts pieces of one size.
pub const CHUNKING_ALGO_FIXED_SIZE: u8 = 1;

/// Number of the algorithm that cuts by content.
pub const CHUNKING_ALGO_FAST_CDC: u8 = 2;

/// How the object was cut into chunks.
#[derive(Clone, Copy, Debug, PartialEq, Eq)]
pub struct ChunkParamsRecord {
    /// `[0..1]`
    pub algo: u8,
    /// `[1..2]`
    pub flags: u8,
    /// `[2..4]`
    pub _pad: [u8; 2],
    /// `[4..8]`
    pub min_size: u32,
    /// `[8..12]`
    pub avg_size: u32,
    /// `[12..16]`
    pub max_size: u32,
}

impl ChunkParamsRecord {
    /// The bytes on disk.
    pub open spec fn image(&self) -> Seq<u8> {
        seq![self.algo] + seq![self.flags] + self._pad@ + le(self.min_size as nat, 4)
            + le(self.avg_size as nat, 4) + le(self.max_size as nat, 4)
    }

    /// Append the bytes on disk to `out`.
    pub fn put(&self, out: &mut Vec<u8>)
        ensures
            final(out)@ == old(out)@ + self.image(),
    {
        let ghost start = out@;
        out.push(self.algo);
        out.push(self.flags);
        put_bytes(out, self._pad.as_slice());
        put_le(out, self.min_size as u64, 4);
        put_le(out, self.avg_size as u64, 4);
        put_le(out, self.max_size as u64, 4);
        proof {
            assert(out@ =~= start + self.image());
        }
    }

    /// The value whose bytes stand at `at`.
    pub fn get(s: &[u8], at: usize) -> (r: Self)
        requires
            at + 16 <= s@.len(),
        ensures
            r.image() == s@.subrange(at as int, at + 16),
    {
        let total = s.len();
        let r = ChunkParamsRecord {
            algo: s[at],
            flags: s[at + 1],
            _pad: get_array::<2>(s, at + 2),
            min_size: get_u32(s, at + 4),
            avg_size: get_u32(s, at + 8),
            max_size: get_u32(s, at + 12),
        };
        proof {
            assert(seq![r.algo] =~= s@.subrange(at as int, at + 1));
            assert(seq![r.flags] =~= s@.subrange(at + 1, at + 2));
            lemma_adjacent(s@, at as int, at + 1, at + 2);
            lemma_adjacent(s@, at as int, at + 2, at + 4);
            lemma_adjacent(s@, at as int, at + 4, at + 8);
            lemma_adjacent(s@, at as int, at + 8, at + 12);
            lemma_adjacent(s@, at as int, at + 12, at + 16);
        }
        r
    }

    /// An image has 16 bytes.
    pub proof fn image_len(&self)
        ensures
            self.image().len() == 16,
    {
        broadcast use lemma_le_len;

    }

    /// The image determines the value.
    pub proof fn image_injective(x: ChunkParamsRecord, y: ChunkParamsRecord)
        requires
            x.image() == y.image(),
        ensures
            x == y,
    {
        broadcast use lemma_le_len;

        let x1 = seq![x.algo] + seq![x.flags];
        let x2 = x1 + x._pad@;
        let x3 = x2 + le(x.min_size as nat, 4);
        let x4 = x3 + le(x.avg_size as nat, 4);
        let y1 = seq![y.algo] + seq![y.flags];
        let y2 = y1 + y._pad@;
        let y3 = y2 + le(y.min_size as nat, 4);
        let y4 = y3 + le(y.avg_size as nat, 4);
        lemma_cat_eq(x4, le(x.max_size as nat, 4), y4, le(y.max_size as nat, 4));
        lemma_cat_eq(x3, le(x.avg_size as nat, 4), y3, le(y.avg_size as nat, 4));
        lemma_cat_eq(x2, le(x.min_size as nat, 4), y2, le(y.min_size as nat, 4));
        lemma_cat_eq(x1, x._pad@, y1, y._pad@);
        lemma_cat_eq(seq![x.algo], seq![x.flags], seq![y.algo], seq![y.flags]);
        assert(x.algo == seq![x.algo][0] && y.algo == seq![y.algo][0]);
        assert(x.flags == seq![x.flags][0] && y.flags == seq![y.flags][0]);
        assert(x._pad =~= y._pad);
        lemma_u32_image(x.min_size, y.min_size);
        lemma_u32_image(x.avg_size, y.avg_size);
        lemma_u32_image(x.max_size, y.max_size);
    }

    /// The record of an algorithm with its sizes.
    pub open spec fn is_record(&self, algo: u8, min: u32, avg: u32, max: u32) -> bool {
        &&& self.algo == algo
        &&& self.flags == 0
        &&& self._pad@ == crate::bytes::zeros(2)
        &&& self.min_size == min
        &&& self.avg_size == avg
        &&& self.max_size == max
    }

    fn with_sizes(algo: u8, min_size: u32, avg_size: u32, max_size: u32) -> (r: Self)
        ensures
            r.is_record(algo, min_size, avg_size, max_size),
    {
        let r = ChunkParamsRecord { algo, flags: 0, _pad: [0u8; 2], min_size, avg_size, max_size };
        proof {
            assert(r._pad@ =~= crate::bytes::zeros(2));
        }
        r
    }

    /// Content in one piece.
    pub fn none() -> (r: Self)
        ensures
            r.is_record(CHUNKING_ALGO_NONE, 0, 0, 0),
    {
        ChunkParamsRecord::with_sizes(CHUNKING_ALGO_NONE, 0, 0, 0)
    }

    /// Content cut where it suggests a boundary.
    pub fn fast_cdc(min_size: u32, avg_size: u32, max_size: u32) -> (r: Self)
        ensures
            r.is_record(CHUNKING_ALGO_FAST_CDC, min_size, avg_size, max_size),
    {
        ChunkParamsRecord::with_sizes(CHUNKING_ALGO_FAST_CDC, min_size, avg_size, max_size)
    }

    /// Content cut into pieces of one size.
    pub fn fixed_size(size: u32) -> (r: Self)
        ensures
            r.is_record(CHUNKING_ALGO_FIXED_SIZE, size, size, size),
    {
        ChunkParamsRecord::with_sizes(CHUNKING_ALGO_FIXED_SIZE, size, size, size)
    }

    /// The record's bytes.
    pub fn as_bytes(&self) -> (r: Vec<u8>)
        ensures
            r@ == self.image(),
            r@.len() == 16,
    {
        let mut out: Vec<u8> = Vec::new();
        self.put(&mut out);
        proof {
            self.image_len();
            assert(out@ =~= self.image());
        }
        out
    }

    /// The record that `bytes` start with.
    pub fn parse(bytes: &[u8]) -> (r: Result<Self, IndexError>)
        ensures
            match r {
                Ok(p) => bytes@.len() >= 16 && p.image() == bytes@.take(16),
                Err(e) => bytes@.len() < 16 && e == (IndexError::BufferTooSmall {
                    need: 16,
                    have: bytes@.len() as usize,
                }),
            },
    {
        if bytes.len() < CHUNK_PARAMS_RECORD_SIZE {
            return Err(
                IndexError::BufferTooSmall { need: CHUNK_PARAMS_RECORD_SIZE, have: bytes.len() },
            );
        }
        proof {
            assert(bytes@.take(16) =~= bytes@.subrange(0, 16));
        }
        Ok(ChunkParamsRecord::get(bytes, 0))
    }
}

/// One chunk of an object.
#[derive(Clone, Copy, Debug, PartialEq, Eq)]
pub struct ChunkListEntry {
    /// `[0..32]`
    pub chunk_hash: [u8; 32],
    /// `[32..36]`
    pub length: u32,
    /// `[36..40]`
    pub flags: u32,
}

impl ChunkListEntry {
    /// The bytes on disk.
    pub open spec fn image(&self) -> Seq<u8> {
        self.chunk_hash@ + le(self.length as nat, 4) + le(self.flags as nat, 4)
    }

    /// Append the bytes on disk to `out`.
    pub fn put(&self, out: &mut Vec<u8>)
        ensures
            final(out)@ == old(out)@ + self.image(),
    {
        let ghost start = out@;
        put_bytes(out, self.chunk_hash.as_slice());
        put_le(out, self.length as u64, 4);
        put_le(out, self.flags as u64, 4);
        proof {
            assert(out@ =~= start + self.image());
        }
    }

    /// The value whose bytes stand at `at`.
    pub fn get(s: &[u8], at: usize) -> (r: Self)
        requires
            at + 40 <= s@.len(),
        ensures
            r.image() == s@.subrange(at as int, at + 40),
    {
        let total = s.len();
        let r = ChunkListEntry {
            chunk_hash: get_array::<32>(s, at),
            length: get_u32(s, at + 32),
            flags: get_u32(s, at + 36),
        };
        proof {
            lemma_adjacent(s@, at as int, at + 32, at + 36);
            lemma_adjacent(s@, at as int, at + 36, at + 40);
        }
        r
    }

    /// An image has 40 bytes.
    pub proof fn image_len(&self)
        ensures
            self.image().len() == 40,
    {
        broadcast use lemma_le_len;

    }

    /// The image determines the value.
    pub proof fn image_injective(x: ChunkListEntry, y: ChunkListEntry)
        requires
            x.image() == y.image(),
        ensures
            x == y,
    {
        broadcast use lemma_le_len;

        let x1 = x.chunk_hash@ + le(x.length as nat, 4);
        let y1 = y.chunk_hash@ + le(y.length as nat, 4);
        lemma_cat_eq(x1, le(x.flags as nat, 4), y1, le(y.flags as nat, 4));
        lemma_cat_eq(x.chunk_hash@, le(x.length as nat, 4), y.chunk_hash@, le(y.length as nat, 4));
        assert(x.chunk_hash =~= y.chunk_hash);
        lemma_u32_image(x.length, y.length);
        lemma_u32_image(x.flags, y.flags);
    }
}

} // verus!
