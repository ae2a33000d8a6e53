//! The description of a disk in the root block of a pool.

use vstd::prelude::*;
use vstd::utf8::{decode_utf8, encode_utf8, valid_utf8};
use crate::bytes::{copy_range, get_array, get_u16, get_u32, get_u64, le, lemma_adjacent,
    lemma_cat_eq, lemma_le_len, lemma_u16_image, lemma_u32_image, lemma_u64_image, put_bytes,
    put_le, zeros};
use crate::index::overflow_chain::null_ref;
use crate::pool::error::PoolError;
use crate::storage::block::BlockRef;
use crate::storage::records::Fixed;
use crate::text::text_from_utf8;
use crate::types::id::DiskId;
use crate::types::policy::{DiskState, MediaType, StorageTier};

verus! {

/// Bytes for the path of a disk.
pub const DISK_PATH_INLINE_LEN: usize = 192;

/// Size of a [`DiskDescriptorOnDisk`].
pub const DISK_DESCRIPTOR_ON_DISK_SIZE: usize = 256;

/// The number that stands for a medium on disk.
pub open spec fn media_code(m: MediaType) -> u8 {
    match m {
        MediaType::NVMe => 0,
        MediaType::Ssd => 1,
        MediaType::Hdd => 2,
        MediaType::SmrHdd => 3,
        MediaType::Remote => 4,
    }
}

/// The number that stands for a medium on disk.
pub fn media_type_to_u8(m: MediaType) -> (r: u8)
    ensures
        r == media_code(m),
{
    match m {
        MediaType::NVMe => 0,
        MediaType::Ssd => 1,
        MediaType::Hdd => 2,
        MediaType::SmrHdd => 3,
        MediaType::Remote => 4,
    }
}

/// The medium that a number stands for.
pub fn media_type_from_u8(v: u8) -> (r: Result<MediaType, PoolError>)
    ensures
        match r {
            Ok(m) => media_code(m) == v,
            Err(e) => v > 4 && e == PoolError::InvalidMediaType(v),
        },
{
    match v {
        0 => Ok(MediaType::NVMe),
        1 => Ok(MediaType::Ssd),
        2 => Ok(MediaType::Hdd),
        3 => Ok(MediaType::SmrHdd),
        4 => Ok(MediaType::Remote),
        other => Err(PoolError::InvalidMediaType(other)),
    }
}

/// The number that stands for a state on disk.
pub open spec fn state_code(s: DiskState) -> u8 {
    match s {
        DiskState::Online => 0,
        DiskState::Draining => 1,
        DiskState::Removed => 2,
        DiskState::Faulted => 3,
    }
}

/// The number that stands for a state on disk.
pub fn disk_state_to_u8(s: DiskState) -> (r: u8)
    ensures
        r == state_code(s),
{
    match s {
        DiskState::Online => 0,
        DiskState::Draining => 1,
        DiskState::Removed => 2,
        DiskState::Faulted => 3,
    }
}

/// The state that a number stands for.
pub open spec fn state_of(v: u8) -> Result<DiskState, PoolError> {
    if v == 0 {
        Ok(DiskState::Online)
    } else if v == 1 {
        Ok(DiskState::Draining)
    } else if v == 2 {
        Ok(DiskState::Removed)
    } else if v == 3 {
        Ok(DiskState::Faulted)
    } else {
        Err(PoolError::InvalidDiskState(v))
    }
}

/// The state that a number stands for.
pub fn disk_state_from_u8(v: u8) -> (r: Result<DiskState, PoolError>)
    ensures
        r == state_of(v),
{
    match v {
        0 => Ok(DiskState::Online),
        1 => Ok(DiskState::Draining),
        2 => Ok(DiskState::Removed),
        3 => Ok(DiskState::Faulted),
        other => Err(PoolError::InvalidDiskState(other)),
    }
}

/// One disk.
#[derive(Clone, Copy, Debug)]
pub struct DiskDescriptorOnDisk {
    /// `[0..2]`
    pub disk_id: u16,
    /// `[2..3]`
    pub media_type: u8,
    /// `[3..4]`
    pub tier: u8,
    /// `[4..5]`
    pub state: u8,
    /// `[5..6]`
    pub _pad0: u8,
    /// `[6..7]`
    pub path_len: u8,
    /// `[7..8]`
    pub _pad1: u8,
    /// `[8..16]`
    pub capacity_bytes: u64,
    /// `[16..24]`
    pub used_bytes: u64,
    /// `[24..28]`
    pub bucket_count: u32,
    /// `[28..32]`
    pub first_usable_bucket: u32,
    /// `[32..48]`
    pub buckets_root: BlockRef,
    /// `[48..64]`
    pub freespace_root: BlockRef,
    /// `[64..256]`
    pub path: [u8; 192],
}

/// A descriptor of zeros.
pub open spec fn is_blank(d: DiskDescriptorOnDisk) -> bool {
    &&& d.disk_id == 0
    &&& d.media_type == 0
    &&& d.tier == 0
    &&& d.state == 0
    &&& d._pad0 == 0
    &&& d.path_len == 0
    &&& d._pad1 == 0
    &&& d.capacity_bytes == 0
    &&& d.used_bytes == 0
    &&& d.bucket_count == 0
    &&& d.first_usable_bucket == 0
    &&& d.buckets_root == null_ref()
    &&& d.freespace_root == null_ref()
    &&& d.path@ == zeros(192)
}

/// The descriptor has these fields, and zeros for all others.
pub open spec fn describes(
    d: DiskDescriptorOnDisk,
    id: DiskId,
    media: MediaType,
    tier: StorageTier,
    state: DiskState,
    capacity: u64,
    used: u64,
    path: Seq<char>,
) -> bool {
    let p = encode_utf8(path);
    &&& p.len() <= 192
    &&& d.disk_id == id
    &&& d.media_type == media_code(media)
    &&& d.tier == tier.code()
    &&& d.state == state_code(state)
    &&& d._pad0 == 0
    &&& d.path_len == p.len()
    &&& d._pad1 == 0
    &&& d.capacity_bytes == capacity
    &&& d.used_bytes == used
    &&& d.bucket_count == 0
    &&& d.first_usable_bucket == 0
    &&& d.buckets_root == null_ref()
    &&& d.freespace_root == null_ref()
    &&& d.path@ == p + zeros((192 - p.len()) as nat)
}

impl Default for DiskDescriptorOnDisk {
    fn default() -> (r: Self)
        ensures
            is_blank(r),
    {
        let none = BlockRef { disk_id: 0, _pad: 0, block_no: 0, generation: 0 };
        let r = DiskDescriptorOnDisk {
            disk_id: 0,
            media_type: 0,
            tier: 0,
            state: 0,
            _pad0: 0,
            path_len: 0,
            _pad1: 0,
            capacity_bytes: 0,
            used_bytes: 0,
            bucket_count: 0,
            first_usable_bucket: 0,
            buckets_root: none,
            freespace_root: none,
            path: [0u8; 192],
        };
        proof {
            assert(r.path@ =~= zeros(192));
        }
        r
    }
}

impl DiskDescriptorOnDisk {
    /// The bytes on disk.
    pub open spec fn image(&self) -> Seq<u8> {
        le(self.disk_id as nat, 2) + seq![self.media_type] + seq![self.tier] + seq![self.state]
            + seq![self._pad0] + seq![self.path_len] + seq![self._pad1]
            + le(self.capacity_bytes as nat, 8) + le(self.used_bytes as nat, 8)
            + le(self.bucket_count as nat, 4) + le(self.first_usable_bucket as nat, 4)
            + self.buckets_root.image() + self.freespace_root.image() + self.path@
    }

    /// Append the bytes on disk to `out`.
    pub fn put(&self, out: &mut Vec<u8>)
        ensures
            final(out)@ == old(out)@ + self.image(),
    {
        let ghost start = out@;
        put_le(out, self.disk_id as u64, 2);
        out.push(self.media_type);
        out.push(self.tier);
        out.push(self.state);
        out.push(self._pad0);
        out.push(self.path_len);
        out.push(self._pad1);
        put_le(out, self.capacity_bytes, 8);
        put_le(out, self.used_bytes, 8);
        put_le(out, self.bucket_count as u64, 4);
        put_le(out, self.first_usable_bucket as u64, 4);
        self.buckets_root.put(out);
        self.freespace_root.put(out);
        put_bytes(out, self.path.as_slice());
        proof {
            assert(out@ =~= start + self.image());
        }
    }

    /// The value whose bytes stand at `at`.
    pub fn get(s: &[u8], at: usize) -> (r: Self)
        requires
            at + 256 <= s@.len(),
        ensures
            r.image() == s@.subrange(at as int, at + 256),
    {
        let total = s.len();
        let r = DiskDescriptorOnDisk {
            disk_id: get_u16(s, at),
            media_type: s[at + 2],
            tier: s[at + 3],
            state: s[at + 4],
            _pad0: s[at + 5],
            path_len: s[at + 6],
            _pad1: s[at + 7],
            capacity_bytes: get_u64(s, at + 8),
            used_bytes: get_u64(s, at + 16),
            bucket_count: get_u32(s, at + 24),
            first_usable_bucket: get_u32(s, at + 28),
            buckets_root: BlockRef::get(s, at + 32),
            freespace_root: BlockRef::get(s, at + 48),
            path: get_array::<192>(s, at + 64),
        };
        proof {
            assert(seq![r.media_type] =~= s@.subrange(at + 2, at + 3));
            assert(seq![r.tier] =~= s@.subrange(at + 3, at + 4));
            assert(seq![r.state] =~= s@.subrange(at + 4, at + 5));
            assert(seq![r._pad0] =~= s@.subrange(at + 5, at + 6));
            assert(seq![r.path_len] =~= s@.subrange(at + 6, at + 7));
            assert(seq![r._pad1] =~= s@.subrange(at + 7, at + 8));
            lemma_adjacent(s@, at as int, at + 2, at + 3);
            lemma_adjacent(s@, at as int, at + 3, at + 4);
            lemma_adjacent(s@, at as int, at + 4, at + 5);
            lemma_adjacent(s@, at as int, at + 5, at + 6);
            lemma_adjacent(s@, at as int, at + 6, at + 7);
            lemma_adjacent(s@, at as int, at + 7, at + 8);
            lemma_adjacent(s@, at as int, at + 8, at + 16);
            lemma_adjacent(s@, at as int, at + 16, at + 24);
            lemma_adjacent(s@, at as int, at + 24, at + 28);
            lemma_adjacent(s@, at as int, at + 28, at + 32);
            lemma_adjacent(s@, at as int, at + 32, at + 48);
            lemma_adjacent(s@, at as int, at + 48, at + 64);
            lemma_adjacent(s@, at as int, at + 64, at + 256);
        }
        r
    }

    /// An image has 256 bytes.
    pub proof fn image_len(&self)
        ensures
            self.image().len() == 256,
    {
        broadcast use lemma_le_len;

        self.buckets_root.image_len();
        self.freespace_root.image_len();
    }

    /// The image determines the value.
    pub proof fn image_injective(x: DiskDescriptorOnDisk, y: DiskDescriptorOnDisk)
        requires
            x.image() == y.image(),
        ensures
            x == y,
    {
        broadcast use lemma_le_len;

        x.buckets_root.image_len();
        y.buckets_root.image_len();
        x.freespace_root.image_len();
        y.freespace_root.image_len();
        let x1 = le(x.disk_id as nat, 2) + seq![x.media_type];
        let x2 = x1 + seq![x.tier];
        let x3 = x2 + seq![x.state];
        let x4 = x3 + seq![x._pad0];
        let x5 = x4 + seq![x.path_len];
        let x6 = x5 + seq![x._pad1];
        let x7 = x6 + le(x.capacity_bytes as nat, 8);
        let x8 = x7 + le(x.used_bytes as nat, 8);
        let x9 = x8 + le(x.bucket_count as nat, 4);
        let x10 = x9 + le(x.first_usable_bucket as nat, 4);
        let x11 = x10 + x.buckets_root.image();
        let x12 = x11 + x.freespace_root.image();
        let y1 = le(y.disk_id as nat, 2) + seq![y.media_type];
        let y2 = y1 + seq![y.tier];
        let y3 = y2 + seq![y.state];
        let y4 = y3 + seq![y._pad0];
        let y5 = y4 + seq![y.path_len];
        let y6 = y5 + seq![y._pad1];
        let y7 = y6 + le(y.capacity_bytes as nat, 8);
        let y8 = y7 + le(y.used_bytes as nat, 8);
        let y9 = y8 + le(y.bucket_count as nat, 4);
        let y10 = y9 + le(y.first_usable_bucket as nat, 4);
        let y11 = y10 + y.buckets_root.image();
        let y12 = y11 + y.freespace_root.image();
        lemma_cat_eq(x12, x.path@, y12, y.path@);
        lemma_cat_eq(x11, x.freespace_root.image(), y11, y.freespace_root.image());
        lemma_cat_eq(x10, x.buckets_root.image(), y10, y.buckets_root.image());
        lemma_cat_eq(
            x9,
            le(x.first_usable_bucket as nat, 4),
            y9,
            le(y.first_usable_bucket as nat, 4),
        );
        lemma_cat_eq(x8, le(x.bucket_count as nat, 4), y8, le(y.bucket_count as nat, 4));
        lemma_cat_eq(x7, le(x.used_bytes as nat, 8), y7, le(y.used_bytes as nat, 8));
        lemma_cat_eq(x6, le(x.capacity_bytes as nat, 8), y6, le(y.capacity_bytes as nat, 8));
        lemma_cat_eq(x5, seq![x._pad1], y5, seq![y._pad1]);
        lemma_cat_eq(x4, seq![x.path_len], y4, seq![y.path_len]);
        lemma_cat_eq(x3, seq![x._pad0], y3, seq![y._pad0]);
        lemma_cat_eq(x2, seq![x.state], y2, seq![y.state]);
        lemma_cat_eq(x1, seq![x.tier], y1, seq![y.tier]);
        lemma_cat_eq(
            le(x.disk_id as nat, 2),
            seq![x.media_type],
            le(y.disk_id as nat, 2),
            seq![y.media_type],
        );
        lemma_u16_image(x.disk_id, y.disk_id);
        assert(x.media_type == seq![x.media_type][0] && y.media_type == seq![y.media_type][0]);
        assert(x.tier == seq![x.tier][0] && y.tier == seq![y.tier][0]);
        assert(x.state == seq![x.state][0] && y.state == seq![y.state][0]);
        assert(x._pad0 == seq![x._pad0][0] && y._pad0 == seq![y._pad0][0]);
        assert(x.path_len == seq![x.path_len][0] && y.path_len == seq![y.path_len][0]);
        assert(x._pad1 == seq![x._pad1][0] && y._pad1 == seq![y._pad1][0]);
        lemma_u64_image(x.capacity_bytes, y.capacity_bytes);
        lemma_u64_image(x.used_bytes, y.used_bytes);
        lemma_u32_image(x.bucket_count, y.bucket_count);
        lemma_u32_image(x.first_usable_bucket, y.first_usable_bucket);
        BlockRef::image_injective(x.buckets_root, y.buckets_root);
        BlockRef::image_injective(x.freespace_root, y.freespace_root);
        assert(x.path =~= y.path);
    }

    /// The bytes of the descriptor.
    pub fn to_bytes(&self) -> (r: Vec<u8>)
        ensures
            r@ == self.image(),
            r@.len() == 256,
    {
        let mut out: Vec<u8> = Vec::new();
        self.put(&mut out);
        proof {
            self.image_len();
            assert(out@ =~= self.image());
        }
        out
    }

    /// The descriptor of a disk.
    pub fn new(
        disk_id: DiskId,
        media_type: MediaType,
        tier: StorageTier,
        state: DiskState,
        capacity_bytes: u64,
        path: &str,
    ) -> (r: Result<Self, PoolError>)
        ensures
            match r {
                Ok(d) => describes(d, disk_id, media_type, tier, state, capacity_bytes, 0, path@),
                Err(e) => encode_utf8(path@).len() > 192 && e == (PoolError::DiskPathTooLong {
                    len: encode_utf8(path@).len() as usize,
                    max: 192,
                }),
            },
    {
        let bytes = path.as_bytes();
        let n = bytes.len();
        if n > DISK_PATH_INLINE_LEN {
            return Err(PoolError::DiskPathTooLong { len: n, max: DISK_PATH_INLINE_LEN });
        }
        let mut field: [u8; 192] = [0u8; 192];
        let mut i: usize = 0;
        while i < n
            invariant
                i <= n,
                n == bytes@.len(),
                n <= 192,
                forall|j: int| 0 <= j < i ==> field@[j] == bytes@[j],
                forall|j: int| i <= j < 192 ==> field@[j] == 0,
            decreases n - i,
        {
            field[i] = bytes[i];
            i = i + 1;
        }
        let mut d = DiskDescriptorOnDisk::default();
        d.disk_id = disk_id;
        d.media_type = media_type_to_u8(media_type);
        d.tier = tier.to_u8();
        d.state = disk_state_to_u8(state);
        d.path_len = n as u8;
        d.capacity_bytes = capacity_bytes;
        d.path = field;
        proof {
            assert(d.path@ =~= bytes@ + zeros((192 - n) as nat));
        }
        Ok(d)
    }

    /// The bytes of the path.
    pub open spec fn path_bytes(&self) -> Seq<u8> {
        self.path@.take(self.path_len as int)
    }

    /// The path.
    pub fn path_str(&self) -> (r: Result<String, PoolError>)
        ensures
            match r {
                Ok(s) => self.path_len <= 192 && valid_utf8(self.path_bytes()) && s@ == decode_utf8(
                    self.path_bytes(),
                ),
                Err(PoolError::DiskPathTooLong { len, max }) => self.path_len > 192 && len
                    == self.path_len && max == 192,
                Err(e) => self.path_len <= 192 && e == PoolError::InvalidDiskPathUtf8
                    && !valid_utf8(self.path_bytes()),
            },
    {
        let n = self.path_len as usize;
        if n > DISK_PATH_INLINE_LEN {
            return Err(PoolError::DiskPathTooLong { len: n, max: DISK_PATH_INLINE_LEN });
        }
        let bytes = copy_range(self.path.as_slice(), 0, n);
        proof {
            assert(bytes@ =~= self.path_bytes());
        }
        match text_from_utf8(bytes) {
            Some(s) => Ok(s),
            None => Err(PoolError::InvalidDiskPathUtf8),
        }
    }

    /// The medium.
    pub fn media_type_typed(&self) -> (r: Result<MediaType, PoolError>)
        ensures
            match r {
                Ok(m) => media_code(m) == self.media_type,
                Err(e) => self.media_type > 4 && e == PoolError::InvalidMediaType(self.media_type),
            },
    {
        media_type_from_u8(self.media_type)
    }

    /// The tier.
    pub fn tier_typed(&self) -> (r: Result<StorageTier, PoolError>)
        ensures
            match r {
                Ok(t) => t.code() == self.tier,
                Err(e) => self.tier > 3 && e == PoolError::InvalidStorageTier(self.tier),
            },
    {
        match StorageTier::from_u8(self.tier) {
            Some(t) => Ok(t),
            None => Err(PoolError::InvalidStorageTier(self.tier)),
        }
    }

    /// The state.
    pub fn state_typed(&self) -> (r: Result<DiskState, PoolError>)
        ensures
            r == state_of(self.state),
    {
        disk_state_from_u8(self.state)
    }

    /// The id.
    pub fn disk_id_typed(&self) -> (r: DiskId)
        ensures
            r == self.disk_id,
    {
        self.disk_id
    }
}

impl Fixed for DiskDescriptorOnDisk {
    open spec fn bytes(&self) -> Seq<u8> {
        self.image()
    }

    open spec fn width() -> nat {
        256
    }

    proof fn bytes_len(&self) {
        self.image_len();
    }

    proof fn bytes_injective(x: Self, y: Self) {
        DiskDescriptorOnDisk::image_injective(x, y);
    }

    fn put_bytes(&self, out: &mut Vec<u8>) {
        self.put(out);
    }

    fn get_bytes(s: &[u8], at: usize) -> (r: Self) {
        DiskDescriptorOnDisk::get(s, at)
    }
}

/// The path of a descriptor is the one that it was made from.
pub proof fn path_round_trip(
    d: DiskDescriptorOnDisk,
    id: DiskId,
    media: MediaType,
    tier: StorageTier,
    state: DiskState,
    capacity: u64,
    used: u64,
    path: Seq<char>,
)
    requires
        describes(d, id, media, tier, state, capacity, used, path),
    ensures
        d.path_len <= 192,
        valid_utf8(d.path_bytes()),
        decode_utf8(d.path_bytes()) == path,
{
    broadcast use vstd::utf8::encode_utf8_decode_utf8;

    assert(d.path_bytes() =~= encode_utf8(path));
    vstd::utf8::encode_utf8_valid_utf8(path);
    assert(decode_utf8(encode_utf8(path)) == path);
}

} // verus!
