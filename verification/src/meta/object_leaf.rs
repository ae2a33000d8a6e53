//! Leaves of the object table.
//!
//! A leaf is 262144 bytes: a node header, the bitmap of occupied slots, a
//! trailer, the records at fixed positions, and zeros to the end.

use vstd::prelude::*;
use crate::bytes::{get_array, get_u16, get_u64, le, lemma_adjacent, lemma_cat_eq, lemma_le_len,
    lemma_u16_image, lemma_u64_image, put_bytes, put_le, put_zeros, zeros};
use crate::meta::error::MetaError;
use crate::meta::leaf::{bitmap, bump, bumped, count_occupied, empty_slots, first_key, get_slots,
    last_key, lemma_slots_len, lemma_slots_round_trip, list_occupied, max_slot_key, min_slot_key,
    occupied_count, occupied_slots, put_bitmap, put_slots, slots_bytes, slots_read, LeafRecord};
use crate::meta::record::ObjectRecord;
use crate::meta::radix::{capacity, fanout_pow, oid_to_radix_path};
use crate::storage::block::{same_magic, BtreeKind, BtreeNodeHeader, BLOCK_PREAMBLE_MAGIC_BTREE};
use crate::storage::device::{overwritten, read_after_write, BlockDevice, StorageError};

verus! {

/// Size of a leaf.
pub const OBJECT_LEAF_SIZE: usize = 262144;

/// Binary logarithm of the size.
pub const OBJECT_LEAF_SIZE_LOG2: u8 = 18;

/// Where the bitmap starts.
pub const OBJECT_LEAF_BITMAP_OFFSET: usize = 64;

/// Length of the bitmap.
pub const OBJECT_LEAF_BITMAP_LEN: usize = 256;

/// Where the trailer starts.
pub const OBJECT_LEAF_TRAILER_OFFSET: usize = 320;

/// Length of the trailer.
pub const OBJECT_LEAF_TRAILER_LEN: usize = 32;

/// Where the first record stands.
pub const OBJECT_LEAF_RECORDS_OFFSET: usize = 352;

/// Format version of leaves.
pub const OBJECT_LEAF_FORMAT_VERSION: u16 = 1;

/// The trailer of a leaf, between the bitmap and the records.
#[derive(Clone, Copy, Debug)]
pub struct ObjectLeafTrailer {
    /// Counts the writes of the leaf.
    pub leaf_generation: u64,
    pub format_version: u16,
    pub _reserved: [u8; 22],
}

impl ObjectLeafTrailer {
    /// The bytes on disk.
    pub open spec fn image(&self) -> Seq<u8> {
        le(self.leaf_generation as nat, 8) + le(self.format_version as nat, 2) + self._reserved@
    }

    /// Append the bytes on disk to `out`.
    pub fn put(&self, out: &mut Vec<u8>)
        ensures
            final(out)@ == old(out)@ + self.image(),
    {
        let ghost start = out@;
        put_le(out, self.leaf_generation, 8);
        put_le(out, self.format_version as u64, 2);
        put_bytes(out, self._reserved.as_slice());
        proof {
            assert(out@ =~= start + self.image());
        }
    }

    /// The value whose bytes stand at `at`.
    pub fn get(s: &[u8], at: usize) -> (r: Self)
        requires
            at + 32 <= s@.len(),
        ensures
            r.image() == s@.subrange(at as int, at + 32),
    {
        let total = s.len();
        let r = ObjectLeafTrailer {
            leaf_generation: get_u64(s, at),
            format_version: get_u16(s, at + 8),
            _reserved: get_array::<22>(s, at + 10),
        };
        proof {
            lemma_adjacent(s@, at as int, at + 8, at + 10);
            lemma_adjacent(s@, at as int, at + 10, at + 32);
        }
        r
    }

    /// The image determines the trailer.
    pub proof fn image_injective(a: ObjectLeafTrailer, b: ObjectLeafTrailer)
        requires
            a.image() == b.image(),
        ensures
            a == b,
    {
        broadcast use lemma_le_len;

        let g = le(a.leaf_generation as nat, 8);
        let h = le(b.leaf_generation as nat, 8);
        let v = le(a.format_version as nat, 2);
        let w = le(b.format_version as nat, 2);
        lemma_cat_eq(g + v, a._reserved@, h + w, b._reserved@);
        lemma_cat_eq(g, v, h, w);
        lemma_u64_image(a.leaf_generation, b.leaf_generation);
        lemma_u16_image(a.format_version, b.format_version);
        assert(a._reserved =~= b._reserved);
    }

    /// An image has thirty-two bytes.
    pub proof fn image_len(&self)
        ensures
            self.image().len() == 32,
    {
        broadcast use lemma_le_len;

    }
}

/// A leaf in memory. `slots[i]` is the record of local id `i`.
#[derive(Clone, Debug)]
pub struct ObjectLeaf {
    pub header: BtreeNodeHeader,
    pub slots: Vec<Option<ObjectRecord>>,
    pub trailer: ObjectLeafTrailer,
}

/// The header of `after` is that of a leaf with these slots that is written
/// once more than `before`.
pub open spec fn header_written(
    before: BtreeNodeHeader,
    after: BtreeNodeHeader,
    slots: Seq<Option<ObjectRecord>>,
) -> bool {
    &&& after.pre == before.pre
    &&& after.level == before.level
    &&& after.region_size_log2 == before.region_size_log2
    &&& after.reserved == before.reserved
    &&& after.seq == bumped(before.seq)
    &&& after.sorted_run_count == 0
    &&& after.payload_used == 262080
    &&& first_key(slots, after.min_key@)
    &&& last_key(slots, after.max_key@)
}

/// Kind, magic and version are those of a leaf of this table.
pub open spec fn well_marked(leaf: ObjectLeaf) -> bool {
    &&& leaf.header.pre.kind == BtreeKind::ObjectTable.number()
    &&& leaf.header.pre.magic@ == BLOCK_PREAMBLE_MAGIC_BTREE@
    &&& leaf.trailer.format_version == OBJECT_LEAF_FORMAT_VERSION
}

/// The leaf is what the bytes hold: header, trailer and slots, whatever
/// kind, magic and version they carry.
pub open spec fn holds(bytes: Seq<u8>, leaf: ObjectLeaf) -> bool {
    &&& bytes.len() == 262144
    &&& leaf.wf()
    &&& leaf.header.image() == bytes.subrange(0, 64)
    &&& leaf.trailer.image() == bytes.subrange(320, 352)
    &&& slots_read(leaf.slots@, bytes, 64, 352)
}

/// `r` is what parsing the bytes gives. The checks come in order: length,
/// kind, magic, version.
pub open spec fn parses(bytes: Seq<u8>, r: Result<ObjectLeaf, MetaError>) -> bool {
    if bytes.len() != 262144 {
        r == Err::<ObjectLeaf, MetaError>(
            MetaError::BufferTooSmall { needed: 262144, got: bytes.len() as usize },
        )
    } else {
        exists|leaf: ObjectLeaf|
            {
                &&& #[trigger] holds(bytes, leaf)
                &&& match r {
                    Ok(l) => l == leaf && well_marked(leaf),
                    Err(MetaError::Storage(StorageError::InvalidBtreeKind(k))) => k
                        == leaf.header.pre.kind && k != BtreeKind::ObjectTable.number(),
                    Err(MetaError::Storage(StorageError::InvalidMagic { expected, actual })) => {
                        &&& leaf.header.pre.kind == BtreeKind::ObjectTable.number()
                        &&& expected@ == BLOCK_PREAMBLE_MAGIC_BTREE@
                        &&& actual == leaf.header.pre.magic
                        &&& actual@ != expected@
                    },
                    Err(MetaError::Storage(StorageError::UnsupportedFormatVersion(v))) => {
                        &&& leaf.header.pre.kind == BtreeKind::ObjectTable.number()
                        &&& leaf.header.pre.magic@ == BLOCK_PREAMBLE_MAGIC_BTREE@
                        &&& v == leaf.trailer.format_version
                        &&& v != OBJECT_LEAF_FORMAT_VERSION
                    },
                    Err(_) => false,
                }
            }
    }
}

/// The leaf has no record and has never been written.
pub open spec fn is_blank(leaf: ObjectLeaf) -> bool {
    &&& leaf.wf()
    &&& well_marked(leaf)
    &&& leaf.header.level == 0
    &&& leaf.header.region_size_log2 == OBJECT_LEAF_SIZE_LOG2
    &&& leaf.header.pre.format_version == OBJECT_LEAF_FORMAT_VERSION
    &&& leaf.header.sorted_run_count == 0
    &&& leaf.header.payload_used == 0
    &&& leaf.header.seq == 0
    &&& leaf.header.min_key@ == zeros(16)
    &&& leaf.header.max_key@ == zeros(16)
    &&& leaf.header.reserved@ == zeros(8)
    &&& leaf.trailer.leaf_generation == 0
    &&& leaf.trailer._reserved@ == zeros(22)
    &&& leaf.slots@ == Seq::new(2044, |i: int| None::<ObjectRecord>)
}

impl Default for ObjectLeaf {
    /// A blank leaf.
    fn default() -> (r: Self)
        ensures
            is_blank(r),
    {
        ObjectLeaf::new()
    }
}

impl ObjectLeaf {
    /// There is one slot per local id.
    pub open spec fn wf(&self) -> bool {
        self.slots@.len() == 2044
    }

    /// The bytes of the leaf.
    pub open spec fn image(&self) -> Seq<u8> {
        self.header.image() + bitmap(self.slots@, 256) + self.trailer.image() + slots_bytes(
            self.slots@,
            2044,
        ) + zeros(160)
    }

    /// An empty leaf.
    pub fn new() -> (r: Self)
        ensures
            is_blank(r),
    {
        let reserved: [u8; 22] = [0u8; 22];
        proof {
            assert(reserved@ =~= zeros(22));
        }
        ObjectLeaf {
            header: BtreeNodeHeader::new(
                BtreeKind::ObjectTable,
                OBJECT_LEAF_FORMAT_VERSION,
                0,
                OBJECT_LEAF_SIZE_LOG2,
            ),
            slots: empty_slots::<ObjectRecord>(2044),
            trailer: ObjectLeafTrailer {
                leaf_generation: 0,
                format_version: OBJECT_LEAF_FORMAT_VERSION,
                _reserved: reserved,
            },
        }
    }

    /// The slot of a local id. A tree of one leaf addresses as many ids as
    /// the leaf has slots.
    fn slot_of(oid_local: u64) -> (r: Result<usize, MetaError>)
        ensures
            match r {
                Ok(i) => i == oid_local && oid_local < 2044,
                Err(e) => oid_local >= 2044 && e == (MetaError::OidOutOfRange {
                    oid_local,
                    root_level: 0,
                }),
            },
    {
        proof {
            assert(fanout_pow(0) == 1);
            assert(capacity(0, 2044) == 2044);
        }
        match oid_to_radix_path(oid_local, 0) {
            Ok(path) => Ok(path.leaf_slot as usize),
            Err(e) => Err(e),
        }
    }

    /// Put a record into the slot of `oid_local`.
    pub fn set(&mut self, oid_local: u64, record: ObjectRecord) -> (r: Result<(), MetaError>)
        requires
            old(self).wf(),
        ensures
            final(self).wf(),
            final(self).header == old(self).header,
            final(self).trailer == old(self).trailer,
            match r {
                Ok(_) => oid_local < 2044 && final(self).slots@ == old(self).slots@.update(
                    oid_local as int,
                    Some(record),
                ),
                Err(e) => {
                    &&& oid_local >= 2044
                    &&& e == (MetaError::OidOutOfRange { oid_local, root_level: 0 })
                    &&& final(self).slots@ == old(self).slots@
                },
            },
    {
        match Self::slot_of(oid_local) {
            Ok(i) => {
                self.slots[i] = Some(record);
                Ok(())
            },
            Err(e) => Err(e),
        }
    }

    /// The record of `oid_local`, if its slot is occupied.
    pub fn get(&self, oid_local: u64) -> (r: Result<Option<&ObjectRecord>, MetaError>)
        requires
            self.wf(),
        ensures
            match r {
                Ok(Some(rec)) => oid_local < 2044 && self.slots@[oid_local as int] == Some(*rec),
                Ok(None) => oid_local < 2044 && self.slots@[oid_local as int] is None,
                Err(e) => oid_local >= 2044 && e == (MetaError::OidOutOfRange {
                    oid_local,
                    root_level: 0,
                }),
            },
    {
        match Self::slot_of(oid_local) {
            Ok(i) => Ok(self.slots[i].as_ref()),
            Err(e) => Err(e),
        }
    }

    /// Empty the slot of `oid_local`, and return what it held.
    pub fn clear(&mut self, oid_local: u64) -> (r: Result<Option<ObjectRecord>, MetaError>)
        requires
            old(self).wf(),
        ensures
            final(self).wf(),
            final(self).header == old(self).header,
            final(self).trailer == old(self).trailer,
            match r {
                Ok(prev) => {
                    &&& oid_local < 2044
                    &&& prev == old(self).slots@[oid_local as int]
                    &&& final(self).slots@ == old(self).slots@.update(oid_local as int, None)
                },
                Err(e) => {
                    &&& oid_local >= 2044
                    &&& e == (MetaError::OidOutOfRange { oid_local, root_level: 0 })
                    &&& final(self).slots@ == old(self).slots@
                },
            },
    {
        match Self::slot_of(oid_local) {
            Ok(i) => {
                let prev = self.slots[i];
                self.slots[i] = None;
                Ok(prev)
            },
            Err(e) => Err(e),
        }
    }

    /// The occupied slots with their records, in slot order.
    pub fn iter(&self) -> (r: Vec<(u64, ObjectRecord)>)
        requires
            self.wf(),
        ensures
            r@ == occupied_slots(self.slots@, 2044),
    {
        list_occupied(&self.slots)
    }

    /// Number of occupied slots.
    pub fn occupied(&self) -> (r: usize)
        requires
            self.wf(),
        ensures
            r == occupied_count(self.slots@, 2044),
    {
        count_occupied(&self.slots)
    }

    /// Count one more write, note the covered keys, and return the bytes.
    pub fn serialise(&mut self) -> (r: Vec<u8>)
        requires
            old(self).wf(),
        ensures
            final(self).wf(),
            final(self).slots@ == old(self).slots@,
            final(self).trailer == (ObjectLeafTrailer {
                leaf_generation: bumped(old(self).trailer.leaf_generation),
                ..old(self).trailer
            }),
            header_written(old(self).header, final(self).header, old(self).slots@),
            r@ == final(self).image(),
            r@.len() == 262144,
    {
        self.trailer.leaf_generation = bump(self.trailer.leaf_generation);
        self.header.seq = bump(self.header.seq);
        self.header.min_key = min_slot_key(&self.slots);
        self.header.max_key = max_slot_key(&self.slots);
        self.header.payload_used = 262080;
        self.header.sorted_run_count = 0;
        let mut out: Vec<u8> = Vec::new();
        self.header.put(&mut out);
        put_bitmap(&mut out, &self.slots, 256);
        self.trailer.put(&mut out);
        put_slots(&mut out, &self.slots);
        put_zeros(&mut out, 160);
        proof {
            assert(out@ =~= self.image());
            lemma_image_len(*self);
        }
        out
    }

    /// Read a leaf back from its bytes.
    pub fn parse(bytes: &[u8]) -> (r: Result<Self, MetaError>)
        ensures
            parses(bytes@, r),
    {
        if bytes.len() != 262144 {
            return Err(MetaError::BufferTooSmall { needed: 262144, got: bytes.len() });
        }
        proof {
            assert(ObjectRecord::size() == 128);
        }
        let header = BtreeNodeHeader::get(bytes, 0);
        let trailer = ObjectLeafTrailer::get(bytes, 320);
        let slots = get_slots::<ObjectRecord>(bytes, 64, 352, 2044);
        let leaf = ObjectLeaf { header, slots, trailer };
        proof {
            assert(holds(bytes@, leaf));
        }
        if leaf.header.pre.kind != BtreeKind::ObjectTable.code() {
            return Err(
                MetaError::Storage(StorageError::InvalidBtreeKind(leaf.header.pre.kind)),
            );
        }
        if !same_magic(&leaf.header.pre.magic, &BLOCK_PREAMBLE_MAGIC_BTREE) {
            return Err(
                MetaError::Storage(
                    StorageError::InvalidMagic {
                        expected: BLOCK_PREAMBLE_MAGIC_BTREE,
                        actual: leaf.header.pre.magic,
                    },
                ),
            );
        }
        if leaf.trailer.format_version != OBJECT_LEAF_FORMAT_VERSION {
            return Err(
                MetaError::Storage(
                    StorageError::UnsupportedFormatVersion(leaf.trailer.format_version as u32),
                ),
            );
        }
        Ok(leaf)
    }

    /// Write the leaf to `device` at `offset`.
    pub fn write<D: BlockDevice>(&mut self, device: &mut D, offset: u64) -> (r: Result<
        (),
        MetaError,
    >)
        requires
            old(self).wf(),
        ensures
            final(self).wf(),
            final(self).slots@ == old(self).slots@,
            final(self).trailer == (ObjectLeafTrailer {
                leaf_generation: bumped(old(self).trailer.leaf_generation),
                ..old(self).trailer
            }),
            header_written(old(self).header, final(self).header, old(self).slots@),
            old(device).reliable() ==> final(device).reliable(),
            match r {
                Ok(_) => {
                    &&& offset + 262144 <= old(device).contents().len()
                    &&& final(device).contents() == overwritten(
                        old(device).contents(),
                        offset as int,
                        final(self).image(),
                    )
                },
                Err(e) => e is Storage && (old(device).reliable() ==> offset + 262144 > old(
                    device,
                ).contents().len() && final(device).contents() == old(device).contents()),
            },
    {
        let bytes = self.serialise();
        match device.write_at(offset, bytes.as_slice()) {
            Ok(_) => Ok(()),
            Err(e) => Err(MetaError::Storage(e)),
        }
    }

    /// Read a leaf from `device` at `offset`. Where the first four bytes are
    /// zero nothing was ever written, and the leaf is empty.
    pub fn read<D: BlockDevice>(device: &D, offset: u64) -> (r: Result<Self, MetaError>)
        ensures
            leaf_read(device.contents(), offset as int, device.reliable(), r),
    {
        let probe = match device.read_at(offset, 8) {
            Ok(b) => b,
            Err(e) => {
                return Err(MetaError::Storage(e));
            },
        };
        proof {
            let c = device.contents();
            assert(probe@ == c.subrange(offset as int, offset + 8));
            assert(c.subrange(offset as int, offset + 4) =~= probe@.subrange(0, 4));
        }
        if probe[0] == 0 && probe[1] == 0 && probe[2] == 0 && probe[3] == 0 {
            proof {
                assert(probe@.subrange(0, 4) =~= zeros(4));
            }
            return Ok(ObjectLeaf::new());
        }
        proof {
            if probe@.subrange(0, 4) == zeros(4) {
                assert(probe@[0] == probe@.subrange(0, 4)[0]);
                assert(probe@[1] == probe@.subrange(0, 4)[1]);
                assert(probe@[2] == probe@.subrange(0, 4)[2]);
                assert(probe@[3] == probe@.subrange(0, 4)[3]);
            }
        }
        match device.read_at(offset, OBJECT_LEAF_SIZE) {
            Ok(b) => Self::parse(b.as_slice()),
            Err(e) => Err(MetaError::Storage(e)),
        }
    }
}

/// `r` is what reading a leaf at `offset` gives.
pub open spec fn leaf_read(
    contents: Seq<u8>,
    offset: int,
    reliable: bool,
    r: Result<ObjectLeaf, MetaError>,
) -> bool {
    if reliable && offset + 8 > contents.len() {
        r is Err && r->Err_0 is Storage
    } else if offset + 8 <= contents.len() && contents.subrange(offset, offset + 4) == zeros(4) {
        match r {
            Ok(l) => is_blank(l),
            Err(e) => e is Storage && !reliable,
        }
    } else if reliable && offset + 262144 > contents.len() {
        r is Err && r->Err_0 is Storage
    } else {
        ||| offset + 262144 <= contents.len() && parses(
            contents.subrange(offset, offset + 262144),
            r,
        )
        ||| !reliable && r is Err && r->Err_0 is Storage
    }
}

proof fn lemma_image_len(leaf: ObjectLeaf)
    requires
        leaf.wf(),
    ensures
        leaf.image().len() == 262144,
        slots_bytes(leaf.slots@, 2044).len() == 261632,
{
    leaf.header.image_len();
    leaf.trailer.image_len();
    lemma_slots_len(leaf.slots@, 2044);
    assert(ObjectRecord::size() == 128);
}

/// Parsing the bytes of a well-marked leaf gives the leaf back.
pub proof fn leaf_round_trip(leaf: ObjectLeaf, r: Result<ObjectLeaf, MetaError>)
    requires
        leaf.wf(),
        well_marked(leaf),
        parses(leaf.image(), r),
    ensures
        r is Ok,
        r->Ok_0.header == leaf.header,
        r->Ok_0.slots@ == leaf.slots@,
        r->Ok_0.trailer == leaf.trailer,
{
    let bytes = leaf.image();
    lemma_image_len(leaf);
    leaf.header.image_len();
    leaf.trailer.image_len();
    let back = choose|l: ObjectLeaf|
        {
            &&& #[trigger] holds(bytes, l)
            &&& match r {
                Ok(k) => k == l && well_marked(l),
                Err(MetaError::Storage(StorageError::InvalidBtreeKind(k))) => k
                    == l.header.pre.kind && k != BtreeKind::ObjectTable.number(),
                Err(MetaError::Storage(StorageError::InvalidMagic { expected, actual })) => {
                    &&& l.header.pre.kind == BtreeKind::ObjectTable.number()
                    &&& expected@ == BLOCK_PREAMBLE_MAGIC_BTREE@
                    &&& actual == l.header.pre.magic
                    &&& actual@ != expected@
                },
                Err(MetaError::Storage(StorageError::UnsupportedFormatVersion(v))) => {
                    &&& l.header.pre.kind == BtreeKind::ObjectTable.number()
                    &&& l.header.pre.magic@ == BLOCK_PREAMBLE_MAGIC_BTREE@
                    &&& v == l.trailer.format_version
                    &&& v != OBJECT_LEAF_FORMAT_VERSION
                },
                Err(_) => false,
            }
        };
    assert(bytes.subrange(0, 64) =~= leaf.header.image());
    assert(bytes.subrange(64, 320) =~= bitmap(leaf.slots@, 256));
    assert(bytes.subrange(320, 352) =~= leaf.trailer.image());
    assert(bytes.subrange(352, 261984) =~= slots_bytes(leaf.slots@, 2044));
    BtreeNodeHeader::image_injective(back.header, leaf.header);
    ObjectLeafTrailer::image_injective(back.trailer, leaf.trailer);
    assert(ObjectRecord::size() == 128);
    lemma_slots_round_trip(leaf.slots@, back.slots@, 256, bytes, 64, 352);
}

/// Writing to a device that answers and reading back gives the leaf.
pub proof fn leaf_device_round_trip(
    contents: Seq<u8>,
    offset: int,
    leaf: ObjectLeaf,
    r: Result<ObjectLeaf, MetaError>,
)
    requires
        leaf.wf(),
        well_marked(leaf),
        0 <= offset,
        offset + 262144 <= contents.len(),
        leaf_read(overwritten(contents, offset, leaf.image()), offset, true, r),
    ensures
        r is Ok,
        r->Ok_0.header == leaf.header,
        r->Ok_0.slots@ == leaf.slots@,
        r->Ok_0.trailer == leaf.trailer,
{
    lemma_image_len(leaf);
    read_after_write(contents, offset, leaf.image());
    let c = overwritten(contents, offset, leaf.image());
    assert(c.subrange(offset, offset + 4) =~= leaf.image().subrange(0, 4));
    assert(leaf.image().subrange(0, 4) =~= leaf.header.pre.magic@) by {
        leaf.header.image_len();
        leaf.header.pre.image_len();
    }
    assert(leaf.header.pre.magic@[0] == 77);
    assert(zeros(4)[0] == 0);
    leaf_round_trip(leaf, r);
}

} // verus!
