//! Overflow records: blocks that hold an object's tags, attributes and
//! relations once these no longer fit into its record.

use vstd::prelude::*;
use crate::bytes::{get_u16, get_u64, le, lemma_adjacent, lemma_cat_eq, lemma_le_len,
    lemma_u16_image, lemma_u64_image, put_le};
use crate::storage::block::BlockHeader;

verus! {

/// Size of an overflow record.
pub const OVERFLOW_RECORD_SIZE: usize = 4096;

/// Size of an [`OverflowHeader`].
pub const OVERFLOW_HEADER_SIZE: usize = 56;

/// The attribute's value stands outside the record.
pub const OVERFLOW_ATTR_FLAG_SPILL: u8 = 1;

/// What an overflow record starts with.
#[derive(Clone, Copy, Debug)]
pub struct OverflowHeader {
    /// `[0..32]`
    pub header: BlockHeader,
    /// `[32..40]` the object.
    pub object_id: u64,
    /// `[40..42]` tags in this record.
    pub tag_count: u16,
    /// `[42..44]` attributes in this record.
    pub attr_count: u16,
    /// `[44..46]` relations in this record.
    pub relation_count: u16,
    /// `[46..48]`
    pub _pad: u16,
    /// `[48..56]` block of the next record, or zero.
    pub next_overflow: u64,
}

impl OverflowHeader {
    /// The bytes on disk.
    pub open spec fn image(&self) -> Seq<u8> {
        self.header.image() + le(self.object_id as nat, 8) + le(self.tag_count as nat, 2) + le(
            self.attr_count as nat,
            2,
        ) + le(self.relation_count as nat, 2) + le(self._pad as nat, 2) + le(
            self.next_overflow as nat,
            8,
        )
    }

    /// The image in a buffer of its own.
    pub fn to_bytes(&self) -> (r: Vec<u8>)
        ensures
            r@ == self.image(),
            r@.len() == 56,
    {
        let mut out: Vec<u8> = Vec::new();
        self.header.put(&mut out);
        put_le(&mut out, self.object_id, 8);
        put_le(&mut out, self.tag_count as u64, 2);
        put_le(&mut out, self.attr_count as u64, 2);
        put_le(&mut out, self.relation_count as u64, 2);
        put_le(&mut out, self._pad as u64, 2);
        put_le(&mut out, self.next_overflow, 8);
        proof {
            self.image_len();
            assert(out@ =~= self.image());
        }
        out
    }

    /// The header with this image.
    pub fn from_bytes(s: &[u8]) -> (r: Self)
        requires
            s@.len() == OVERFLOW_HEADER_SIZE,
        ensures
            r.image() == s@,
    {
        let r = OverflowHeader {
            header: BlockHeader::get(s, 0),
            object_id: get_u64(s, 32),
            tag_count: get_u16(s, 40),
            attr_count: get_u16(s, 42),
            relation_count: get_u16(s, 44),
            _pad: get_u16(s, 46),
            next_overflow: get_u64(s, 48),
        };
        proof {
            lemma_adjacent(s@, 0, 32, 40);
            lemma_adjacent(s@, 0, 40, 42);
            lemma_adjacent(s@, 0, 42, 44);
            lemma_adjacent(s@, 0, 44, 46);
            lemma_adjacent(s@, 0, 46, 48);
            lemma_adjacent(s@, 0, 48, 56);
            assert(s@.subrange(0, 56) =~= s@);
        }
        r
    }

    /// An image has 56 bytes.
    pub proof fn image_len(&self)
        ensures
            self.image().len() == 56,
    {
        broadcast use lemma_le_len;

        self.header.image_len();
    }

    /// The image determines the header.
    pub proof fn image_injective(a: OverflowHeader, b: OverflowHeader)
        requires
            a.image() == b.image(),
        ensures
            a == b,
    {
        broadcast use lemma_le_len;

        a.header.image_len();
        b.header.image_len();
        let a1 = a.header.image() + le(a.object_id as nat, 8);
        let b1 = b.header.image() + le(b.object_id as nat, 8);
        let a2 = a1 + le(a.tag_count as nat, 2);
        let b2 = b1 + le(b.tag_count as nat, 2);
        let a3 = a2 + le(a.attr_count as nat, 2);
        let b3 = b2 + le(b.attr_count as nat, 2);
        let a4 = a3 + le(a.relation_count as nat, 2);
        let b4 = b3 + le(b.relation_count as nat, 2);
        let a5 = a4 + le(a._pad as nat, 2);
        let b5 = b4 + le(b._pad as nat, 2);
        lemma_cat_eq(a5, le(a.next_overflow as nat, 8), b5, le(b.next_overflow as nat, 8));
        lemma_cat_eq(a4, le(a._pad as nat, 2), b4, le(b._pad as nat, 2));
        lemma_cat_eq(a3, le(a.relation_count as nat, 2), b3, le(b.relation_count as nat, 2));
        lemma_cat_eq(a2, le(a.attr_count as nat, 2), b2, le(b.attr_count as nat, 2));
        lemma_cat_eq(a1, le(a.tag_count as nat, 2), b1, le(b.tag_count as nat, 2));
        lemma_cat_eq(
            a.header.image(),
            le(a.object_id as nat, 8),
            b.header.image(),
            le(b.object_id as nat, 8),
        );
        BlockHeader::image_injective(a.header, b.header);
        lemma_u64_image(a.object_id, b.object_id);
        lemma_u16_image(a.tag_count, b.tag_count);
        lemma_u16_image(a.attr_count, b.attr_count);
        lemma_u16_image(a.relation_count, b.relation_count);
        lemma_u16_image(a._pad, b._pad);
        lemma_u64_image(a.next_overflow, b.next_overflow);
    }
}

} // verus!
