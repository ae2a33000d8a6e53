//! Leaf entries of the forward index.

use vstd::prelude::*;
use crate::bytes::{get_u16, get_u32, get_u64, le, lemma_adjacent, lemma_cat_eq, lemma_le_len,
    lemma_u16_image, lemma_u32_image, lemma_u64_image, put_le};
use crate::index::error::IndexError;
use crate::index::packed::{get_packed, lemma_packed_injective, lemma_packed_len, packed_images,
    put_packed, PackedAssertion, PACKED_ASSERTION_SIZE};
use crate::storage::block::{BlobRef, BLOB_REF_SIZE};

verus! {

/// Header bit: the body is a reference to an overflow chain.
pub const LEAF_ENTRY_SPILL_FLAG: u16 = 0x8000;

/// Header bits that count the assertions.
pub const LEAF_ENTRY_TOTAL_MASK: u16 = 0x7FFF;

/// Objects with more assertions than this spill.
pub const LEAF_ENTRY_INLINE_SPILL_THRESHOLD: usize = 8;

/// The assertions of an entry, or where they stand.
#[derive(Clone, Debug, PartialEq, Eq)]
pub enum LeafEntryBody {
    Inline(Vec<PackedAssertion>),
    Spill { total: u16, spill_ref: BlobRef },
}

/// An entry of a forward-index leaf.
#[derive(Clone, Debug, PartialEq, Eq)]
pub struct LeafEntry {
    pub oid: u64,
    pub snapshot: u32,
    pub body: LeafEntryBody,
}

/// The body's bytes.
pub open spec fn body_image(b: LeafEntryBody) -> Seq<u8> {
    match b {
        LeafEntryBody::Inline(v) => packed_images(v@, v@.len() as int),
        LeafEntryBody::Spill { total: _, spill_ref } => spill_ref.image(),
    }
}

/// The header: the count's low fifteen bits, and the flag.
pub open spec fn header_of(b: LeafEntryBody) -> nat {
    match b {
        LeafEntryBody::Inline(v) => v@.len() % 0x8000,
        LeafEntryBody::Spill { total, spill_ref: _ } => total as nat % 0x8000 + 0x8000,
    }
}

/// The count of a well-formed entry fits into fifteen bits.
pub open spec fn countable(b: LeafEntryBody) -> bool {
    match b {
        LeafEntryBody::Inline(v) => v@.len() <= 0x7FFF,
        LeafEntryBody::Spill { total, spill_ref: _ } => total <= 0x7FFF,
    }
}

/// Two bodies say the same.
pub open spec fn same_body(a: LeafEntryBody, b: LeafEntryBody) -> bool {
    match (a, b) {
        (LeafEntryBody::Inline(v), LeafEntryBody::Inline(w)) => v@ == w@,
        (
            LeafEntryBody::Spill { total: t, spill_ref: r },
            LeafEntryBody::Spill { total: u, spill_ref: s },
        ) => t == u && r == s,
        _ => false,
    }
}

/// How many bytes the entry that starts with `bytes` takes: fourteen for key
/// and header, then the body that the header tells.
pub open spec fn entry_size(header: nat) -> nat {
    if header >= 0x8000 {
        30
    } else {
        14 + 16 * header
    }
}

impl LeafEntry {
    /// The bytes on disk.
    pub open spec fn image(&self) -> Seq<u8> {
        le(self.oid as nat, 8) + le(self.snapshot as nat, 4) + le(header_of(self.body), 2)
            + body_image(self.body)
    }

    /// An entry that holds its assertions.
    pub fn inline(oid: u64, snapshot: u32, assertions: Vec<PackedAssertion>) -> (r: Result<
        Self,
        IndexError,
    >)
        ensures
            match r {
                Ok(e) => {
                    &&& assertions@.len() <= 0x7FFF
                    &&& e.oid == oid
                    &&& e.snapshot == snapshot
                    &&& e.body == LeafEntryBody::Inline(assertions)
                },
                Err(e) => assertions@.len() > 0x7FFF && e == (IndexError::AssertionCountOverflow {
                    count: assertions@.len() as usize,
                }),
            },
    {
        if assertions.len() > 0x7FFF {
            return Err(IndexError::AssertionCountOverflow { count: assertions.len() });
        }
        Ok(LeafEntry { oid, snapshot, body: LeafEntryBody::Inline(assertions) })
    }

    /// An entry that refers to an overflow chain.
    pub fn spill(oid: u64, snapshot: u32, total: u16, spill_ref: BlobRef) -> (r: Result<
        Self,
        IndexError,
    >)
        ensures
            match r {
                Ok(e) => {
                    &&& total <= 0x7FFF
                    &&& e.oid == oid
                    &&& e.snapshot == snapshot
                    &&& e.body == (LeafEntryBody::Spill { total, spill_ref })
                },
                Err(e) => total > 0x7FFF && e == (IndexError::AssertionCountOverflow {
                    count: total as usize,
                }),
            },
    {
        if total >= LEAF_ENTRY_SPILL_FLAG {
            return Err(IndexError::AssertionCountOverflow { count: total as usize });
        }
        Ok(LeafEntry { oid, snapshot, body: LeafEntryBody::Spill { total, spill_ref } })
    }

    /// The number of assertions, its low sixteen bits.
    pub fn total(&self) -> (r: u16)
        ensures
            r == match self.body {
                LeafEntryBody::Inline(v) => (v@.len() % 0x1_0000) as u16,
                LeafEntryBody::Spill { total, spill_ref: _ } => total,
            },
    {
        match &self.body {
            LeafEntryBody::Inline(v) => (v.len() % 0x1_0000) as u16,
            LeafEntryBody::Spill { total, spill_ref: _ } => *total,
        }
    }

    /// Whether the entry refers to an overflow chain.
    pub fn is_spill(&self) -> (r: bool)
        ensures
            r == (self.body is Spill),
    {
        match &self.body {
            LeafEntryBody::Inline(_) => false,
            LeafEntryBody::Spill { total: _, spill_ref: _ } => true,
        }
    }

    /// Number of bytes that [`LeafEntry::serialise`] gives.
    pub fn serialised_size(&self) -> (r: usize)
        requires
            self.image().len() <= usize::MAX,
        ensures
            r == self.image().len(),
    {
        proof {
            broadcast use lemma_le_len;

            match &self.body {
                LeafEntryBody::Inline(v) => {
                    lemma_packed_len(v@, v@.len() as int);
                },
                LeafEntryBody::Spill { total, spill_ref } => {
                    spill_ref.image_len();
                },
            }
        }
        let body_size: usize = match &self.body {
            LeafEntryBody::Inline(v) => v.len() * PACKED_ASSERTION_SIZE,
            LeafEntryBody::Spill { total: _, spill_ref: _ } => BLOB_REF_SIZE,
        };
        14 + body_size
    }

    /// The entry's bytes: id, snapshot, header, body.
    pub fn serialise(&self) -> (r: Vec<u8>)
        ensures
            r@ == self.image(),
    {
        let total = self.total();
        let mut header: u16 = total % 0x8000;
        if self.is_spill() {
            header = header + LEAF_ENTRY_SPILL_FLAG;
        }
        proof {
            assert(header as nat == header_of(self.body));
        }
        let mut out: Vec<u8> = Vec::new();
        put_le(&mut out, self.oid, 8);
        put_le(&mut out, self.snapshot as u64, 4);
        put_le(&mut out, header as u64, 2);
        let ghost front = out@;
        proof {
            assert(front =~= le(self.oid as nat, 8) + le(self.snapshot as nat, 4) + le(
                header_of(self.body),
                2,
            ));
        }
        match &self.body {
            LeafEntryBody::Inline(v) => {
                put_packed(&mut out, v, 0, v.len());
                proof {
                    assert(v@.subrange(0, v@.len() as int) =~= v@);
                }
            },
            LeafEntryBody::Spill { total: _, spill_ref } => {
                spill_ref.put(&mut out);
            },
        }
        proof {
            assert(out@ == front + body_image(self.body));
        }
        out
    }

    /// Read the entry that `bytes` start with. Returns it with the number of
    /// bytes it took.
    pub fn parse(bytes: &[u8]) -> (r: Result<(Self, usize), IndexError>)
        ensures
            match r {
                Ok((e, n)) => {
                    &&& n <= bytes@.len()
                    &&& e.image() == bytes@.take(n as int)
                    &&& countable(e.body)
                    &&& n == entry_size(header_of(e.body))
                },
                Err(e) => if bytes@.len() < 14 {
                    e == (IndexError::BufferTooSmall { need: 14, have: bytes@.len() as usize })
                } else {
                    exists|h: u16|
                        {
                            &&& #[trigger] le(h as nat, 2) == bytes@.subrange(12, 14)
                            &&& bytes@.len() < entry_size(h as nat)
                            &&& e == (IndexError::BufferTooSmall {
                                need: entry_size(h as nat) as usize,
                                have: bytes@.len() as usize,
                            })
                        }
                },
            },
    {
        if bytes.len() < 14 {
            return Err(IndexError::BufferTooSmall { need: 14, have: bytes.len() });
        }
        let oid = get_u64(bytes, 0);
        let snapshot = get_u32(bytes, 8);
        let header = get_u16(bytes, 12);
        proof {
            lemma_adjacent(bytes@, 0, 8, 12);
            lemma_adjacent(bytes@, 0, 12, 14);
        }
        if header >= LEAF_ENTRY_SPILL_FLAG {
            let total: u16 = header - LEAF_ENTRY_SPILL_FLAG;
            if bytes.len() < 14 + BLOB_REF_SIZE {
                return Err(
                    IndexError::BufferTooSmall { need: 14 + BLOB_REF_SIZE, have: bytes.len() },
                );
            }
            let spill_ref = BlobRef::get(bytes, 14);
            let e = LeafEntry { oid, snapshot, body: LeafEntryBody::Spill { total, spill_ref } };
            proof {
                lemma_adjacent(bytes@, 0, 14, 30);
                assert(e.image() =~= bytes@.take(30));
            }
            Ok((e, 14 + BLOB_REF_SIZE))
        } else {
            let n: usize = header as usize;
            let need: usize = 14 + n * PACKED_ASSERTION_SIZE;
            if bytes.len() < need {
                return Err(IndexError::BufferTooSmall { need, have: bytes.len() });
            }
            let list = get_packed(bytes, 14, n);
            let e = LeafEntry { oid, snapshot, body: LeafEntryBody::Inline(list) };
            proof {
                lemma_adjacent(bytes@, 0, 14, need as int);
                assert(e.image() =~= bytes@.take(need as int));
            }
            Ok((e, need))
        }
    }
}

/// Two countable entries with the same bytes are the same entry, so parsing
/// what was serialised gives the entry back.
pub proof fn leaf_entry_round_trip(e: LeafEntry, back: LeafEntry)
    requires
        countable(e.body),
        countable(back.body),
        e.image() == back.image(),
    ensures
        back.oid == e.oid,
        back.snapshot == e.snapshot,
        same_body(back.body, e.body),
{
    broadcast use lemma_le_len;

    let (a0, b0) = (le(e.oid as nat, 8), le(back.oid as nat, 8));
    let (a1, b1) = (le(e.snapshot as nat, 4), le(back.snapshot as nat, 4));
    let (h, k) = (header_of(e.body) as u16, header_of(back.body) as u16);
    let (a2, b2) = (le(h as nat, 2), le(k as nat, 2));
    lemma_cat_eq(a0 + a1 + a2, body_image(e.body), b0 + b1 + b2, body_image(back.body));
    lemma_cat_eq(a0 + a1, a2, b0 + b1, b2);
    lemma_cat_eq(a0, a1, b0, b1);
    lemma_u64_image(e.oid, back.oid);
    lemma_u32_image(e.snapshot, back.snapshot);
    lemma_u16_image(h, k);
    match (e.body, back.body) {
        (LeafEntryBody::Inline(v), LeafEntryBody::Inline(w)) => {
            lemma_packed_injective(v@, w@);
        },
        (
            LeafEntryBody::Spill { total: t, spill_ref: r },
            LeafEntryBody::Spill { total: u, spill_ref: s },
        ) => {
            BlobRef::image_injective(r, s);
        },
        _ => {},
    }
}

} // verus!
