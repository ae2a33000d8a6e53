//! Object locations.

use vstd::prelude::*;
use crate::bytes::{get_array, get_u16, get_u32, get_u64, le, lemma_adjacent, lemma_cat_eq,
    lemma_le_len, lemma_u16_image, lemma_u32_image, lemma_u64_image, put_bytes, put_le, zeros};
use crate::meta::error::MetaError;
use crate::meta::leaf::LeafRecord;

verus! {

/// The replicas are those of the object's chunk list.
pub const LOCATION_FLAG_CHUNKED: u8 = 1;

/// No replica is local.
pub const LOCATION_FLAG_REMOTE_ONLY: u8 = 2;

/// How many replicas fit inline.
pub const MAX_INLINE_REPLICAS: usize = 4;

/// Size of a [`LocationHeader`].
pub const LOCATION_HEADER_SIZE: usize = 16;

/// Size of an [`ObjectLocation`].
pub const OBJECT_LOCATION_SIZE: usize = 48;

/// Where one replica stands.
#[derive(Clone, Copy, Debug, Default, PartialEq, Eq, Structural)]
pub struct ReplicaRef {
    /// `[0..2]` disk.
    pub disk_id: u16,
    /// `[2..4]` sector in the bucket.
    pub sector_offset: u16,
    /// `[4..8]` bucket on the disk.
    pub bucket_no: u32,
}

impl ReplicaRef {
    /// The unused replica slot.
    pub open spec fn unused() -> ReplicaRef {
        ReplicaRef { disk_id: 0, sector_offset: 0, bucket_no: 0 }
    }

    /// The bytes on disk.
    pub open spec fn image(&self) -> Seq<u8> {
        le(self.disk_id as nat, 2) + le(self.sector_offset as nat, 2) + le(self.bucket_no as nat, 4)
    }

    /// Append the bytes on disk to `out`.
    pub fn put(&self, out: &mut Vec<u8>)
        ensures
            final(out)@ == old(out)@ + self.image(),
    {
        let ghost start = out@;
        put_le(out, self.disk_id as u64, 2);
        put_le(out, self.sector_offset as u64, 2);
        put_le(out, self.bucket_no as u64, 4);
        proof {
            assert(out@ =~= start + self.image());
        }
    }

    /// The value whose bytes stand at `at`.
    pub fn get(s: &[u8], at: usize) -> (r: Self)
        requires
            at + 8 <= s@.len(),
        ensures
            r.image() == s@.subrange(at as int, at + 8),
    {
        let total = s.len();
        let r = ReplicaRef {
            disk_id: get_u16(s, at),
            sector_offset: get_u16(s, at + 2),
            bucket_no: get_u32(s, at + 4),
        };
        proof {
            lemma_adjacent(s@, at as int, at + 2, at + 4);
            lemma_adjacent(s@, at as int, at + 4, at + 8);
        }
        r
    }

    /// An image has eight bytes.
    pub proof fn image_len(&self)
        ensures
            self.image().len() == 8,
    {
        broadcast use lemma_le_len;

    }

    /// The image determines the reference.
    pub proof fn image_injective(a: ReplicaRef, b: ReplicaRef)
        requires
            a.image() == b.image(),
        ensures
            a == b,
    {
        broadcast use lemma_le_len;

        let (x, y, z) = (
            le(a.disk_id as nat, 2),
            le(a.sector_offset as nat, 2),
            le(a.bucket_no as nat, 4),
        );
        let (p, q, r) = (
            le(b.disk_id as nat, 2),
            le(b.sector_offset as nat, 2),
            le(b.bucket_no as nat, 4),
        );
        lemma_cat_eq(x + y, z, p + q, r);
        lemma_cat_eq(x, y, p, q);
        lemma_u16_image(a.disk_id, b.disk_id);
        lemma_u16_image(a.sector_offset, b.sector_offset);
        lemma_u32_image(a.bucket_no, b.bucket_no);
    }
}

/// What an [`ObjectLocation`] says before its replicas.
#[derive(Clone, Copy, Debug, Default, PartialEq, Eq)]
pub struct LocationHeader {
    /// `[0..1]` `LOCATION_FLAG_*` bits.
    pub flags: u8,
    /// `[1..2]` number of replicas, at most four.
    pub replica_count: u8,
    /// `[2..8]`
    pub _pad: [u8; 6],
    /// `[8..16]` length of the extent; of the content, where it is chunked.
    pub extent_length: u64,
}

impl LocationHeader {
    /// The bytes on disk.
    pub open spec fn image(&self) -> Seq<u8> {
        seq![self.flags] + seq![self.replica_count] + self._pad@ + le(self.extent_length as nat, 8)
    }

    /// Append the bytes on disk to `out`.
    pub fn put(&self, out: &mut Vec<u8>)
        ensures
            final(out)@ == old(out)@ + self.image(),
    {
        let ghost start = out@;
        out.push(self.flags);
        out.push(self.replica_count);
        put_bytes(out, self._pad.as_slice());
        put_le(out, self.extent_length, 8);
        proof {
            assert(out@ =~= start + self.image());
        }
    }

    /// The value whose bytes stand at `at`.
    pub fn get(s: &[u8], at: usize) -> (r: Self)
        requires
            at + LOCATION_HEADER_SIZE <= s@.len(),
        ensures
            r.image() == s@.subrange(at as int, at + 16),
            r.replica_count == s@[at + 1],
    {
        let total = s.len();
        let r = LocationHeader {
            flags: s[at],
            replica_count: s[at + 1],
            _pad: get_array::<6>(s, at + 2),
            extent_length: get_u64(s, at + 8),
        };
        proof {
            let a = at as int;
            assert(seq![r.flags] =~= s@.subrange(a, a + 1));
            assert(seq![r.replica_count] =~= s@.subrange(a + 1, a + 2));
            lemma_adjacent(s@, a, a + 1, a + 2);
            lemma_adjacent(s@, a, a + 2, a + 8);
            lemma_adjacent(s@, a, a + 8, a + 16);
        }
        r
    }

    /// An image has sixteen bytes.
    pub proof fn image_len(&self)
        ensures
            self.image().len() == 16,
            self.image()[1] == self.replica_count,
    {
        broadcast use lemma_le_len;

    }

    /// The image determines the header.
    pub proof fn image_injective(a: LocationHeader, b: LocationHeader)
        requires
            a.image() == b.image(),
        ensures
            a == b,
    {
        broadcast use lemma_le_len;

        let a1 = seq![a.flags] + seq![a.replica_count];
        let b1 = seq![b.flags] + seq![b.replica_count];
        lemma_cat_eq(
            a1 + a._pad@,
            le(a.extent_length as nat, 8),
            b1 + b._pad@,
            le(b.extent_length as nat, 8),
        );
        lemma_cat_eq(a1, a._pad@, b1, b._pad@);
        lemma_cat_eq(seq![a.flags], seq![a.replica_count], seq![b.flags], seq![b.replica_count]);
        assert(seq![a.flags][0] == seq![b.flags][0]);
        assert(seq![a.replica_count][0] == seq![b.replica_count][0]);
        lemma_u64_image(a.extent_length, b.extent_length);
        assert(a._pad =~= b._pad);
    }
}

/// Where an object's bytes stand: a header and up to four replicas.
#[derive(Clone, Copy, Debug, Default, PartialEq, Eq)]
pub struct ObjectLocation {
    pub header: LocationHeader,
    pub replicas: [ReplicaRef; 4],
}

/// The images of the first `n` replicas.
pub open spec fn replicas_image(replicas: Seq<ReplicaRef>, n: int) -> Seq<u8>
    decreases n,
{
    if n <= 0 {
        Seq::empty()
    } else {
        replicas_image(replicas, n - 1) + replicas[n - 1].image()
    }
}

impl ObjectLocation {
    /// Number of replicas in use.
    pub open spec fn active(&self) -> int {
        if self.header.replica_count <= 4 {
            self.header.replica_count as int
        } else {
            4
        }
    }

    /// The full image, all four replica slots in it.
    pub open spec fn image(&self) -> Seq<u8> {
        self.header.image() + replicas_image(self.replicas@, 4)
    }

    /// The image without the unused replica slots.
    pub open spec fn short_image(&self) -> Seq<u8> {
        self.header.image() + replicas_image(self.replicas@, self.active())
    }

    /// The replica slots beyond the count are unused.
    pub open spec fn tail_unused(&self) -> bool {
        forall|i: int| self.active() <= i < 4 ==> #[trigger] self.replicas@[i] == ReplicaRef::unused()
    }

    /// A location of an extent that is not chunked. More than four replicas
    /// are refused; the error keeps the low eight bits of their number.
    pub fn new(extent_length: u64, replicas: &[ReplicaRef]) -> (r: Result<Self, MetaError>)
        ensures
            match r {
                Ok(loc) => {
                    &&& replicas@.len() <= 4
                    &&& loc.header.flags == 0
                    &&& loc.header.replica_count == replicas@.len()
                    &&& loc.header._pad@ == zeros(6)
                    &&& loc.header.extent_length == extent_length
                    &&& loc.replicas@.take(replicas@.len() as int) == replicas@
                    &&& loc.tail_unused()
                },
                Err(e) => {
                    &&& replicas@.len() > 4
                    &&& e == MetaError::InvalidReplicaCount((replicas@.len() % 256) as u8)
                },
            },
    {
        let n = replicas.len();
        if n > 4 {
            return Err(MetaError::InvalidReplicaCount((n % 256) as u8));
        }
        let unused = ReplicaRef { disk_id: 0, sector_offset: 0, bucket_no: 0 };
        let mut slots: [ReplicaRef; 4] = [unused; 4];
        let mut i: usize = 0;
        while i < n
            invariant
                i <= n <= 4,
                n == replicas@.len(),
                slots@.len() == 4,
                forall|j: int| 0 <= j < i ==> slots@[j] == replicas@[j],
                forall|j: int| i <= j < 4 ==> #[trigger] slots@[j] == ReplicaRef::unused(),
            decreases n - i,
        {
            slots[i] = replicas[i];
            i = i + 1;
        }
        let pad: [u8; 6] = [0u8; 6];
        proof {
            assert(pad@ =~= zeros(6));
            assert(slots@.take(n as int) =~= replicas@);
        }
        Ok(
            ObjectLocation {
                header: LocationHeader {
                    flags: 0,
                    replica_count: n as u8,
                    _pad: pad,
                    extent_length,
                },
                replicas: slots,
            },
        )
    }

    /// The replicas in use.
    pub fn active_replicas(&self) -> (r: Vec<ReplicaRef>)
        ensures
            r@ == self.replicas@.take(self.active()),
    {
        let n: usize = if self.header.replica_count <= 4 {
            self.header.replica_count as usize
        } else {
            4
        };
        let mut out: Vec<ReplicaRef> = Vec::new();
        let mut i: usize = 0;
        while i < n
            invariant
                i <= n <= 4,
                out@ =~= self.replicas@.take(i as int),
            decreases n - i,
        {
            out.push(self.replicas[i]);
            i = i + 1;
        }
        out
    }

    /// Read a location without its unused replica slots. Returns it with the
    /// number of bytes it took.
    pub fn parse(bytes: &[u8]) -> (r: Result<(Self, usize), MetaError>)
        ensures
            match r {
                Ok((loc, n)) => {
                    &&& bytes@.len() >= 16
                    &&& bytes@[1] <= 4
                    &&& n == 16 + 8 * bytes@[1]
                    &&& n <= bytes@.len()
                    &&& loc.header.replica_count == bytes@[1]
                    &&& loc.short_image() == bytes@.take(n as int)
                    &&& loc.tail_unused()
                },
                Err(e) => if bytes@.len() < 16 {
                    e == (MetaError::BufferTooSmall { needed: 16, got: bytes@.len() as usize })
                } else if bytes@[1] > 4 {
                    e == MetaError::InvalidReplicaCount(bytes@[1])
                } else {
                    &&& bytes@.len() < 16 + 8 * bytes@[1]
                    &&& e == (MetaError::BufferTooSmall {
                        needed: (16 + 8 * bytes@[1]) as usize,
                        got: bytes@.len() as usize,
                    })
                },
            },
    {
        if bytes.len() < LOCATION_HEADER_SIZE {
            return Err(
                MetaError::BufferTooSmall { needed: LOCATION_HEADER_SIZE, got: bytes.len() },
            );
        }
        let header = LocationHeader::get(bytes, 0);
        let count = header.replica_count;
        if count > 4 {
            return Err(MetaError::InvalidReplicaCount(count));
        }
        let needed: usize = LOCATION_HEADER_SIZE + (count as usize) * 8;
        if bytes.len() < needed {
            return Err(MetaError::BufferTooSmall { needed, got: bytes.len() });
        }
        let unused = ReplicaRef { disk_id: 0, sector_offset: 0, bucket_no: 0 };
        let mut slots: [ReplicaRef; 4] = [unused; 4];
        let mut i: usize = 0;
        proof {
            assert(header.image() + replicas_image(slots@, 0) =~= bytes@.subrange(0, 16));
        }
        while i < count as usize
            invariant
                i <= count <= 4,
                needed == 16 + 8 * count,
                needed <= bytes@.len(),
                slots@.len() == 4,
                header.image() + replicas_image(slots@, i as int) == bytes@.subrange(0, 16 + 8 * i),
                forall|j: int| i <= j < 4 ==> #[trigger] slots@[j] == ReplicaRef::unused(),
            decreases count - i,
        {
            let ghost before = slots@;
            let rep = ReplicaRef::get(bytes, 16 + 8 * i);
            slots[i] = rep;
            proof {
                lemma_replicas_prefix(before, slots@, i as int);
                lemma_adjacent(bytes@, 0, 16 + 8 * i, 24 + 8 * i);
                assert(header.image() + replicas_image(slots@, i + 1) =~= (header.image()
                    + replicas_image(slots@, i as int)) + rep.image());
            }
            i = i + 1;
        }
        proof {
            assert(bytes@.take(needed as int) =~= bytes@.subrange(0, needed as int));
        }
        Ok((ObjectLocation { header, replicas: slots }, needed))
    }

    /// Append the location without its unused replica slots. Returns the
    /// number of bytes.
    pub fn serialize_into(&self, out: &mut Vec<u8>) -> (r: usize)
        ensures
            final(out)@ == old(out)@ + self.short_image(),
            r == 16 + 8 * self.active(),
    {
        let n: usize = if self.header.replica_count <= 4 {
            self.header.replica_count as usize
        } else {
            4
        };
        let ghost start = out@;
        self.header.put(out);
        let mut i: usize = 0;
        proof {
            assert(start + (self.header.image() + replicas_image(self.replicas@, 0)) =~= out@);
        }
        while i < n
            invariant
                i <= n <= 4,
                out@ == start + (self.header.image() + replicas_image(self.replicas@, i as int)),
            decreases n - i,
        {
            self.replicas[i].put(out);
            proof {
                assert(out@ =~= start + (self.header.image() + replicas_image(
                    self.replicas@,
                    i + 1,
                )));
            }
            i = i + 1;
        }
        LOCATION_HEADER_SIZE + n * 8
    }

    /// The location without its unused replica slots in a buffer of its own.
    pub fn serialize(&self) -> (r: Vec<u8>)
        ensures
            r@ == self.short_image(),
    {
        let mut out: Vec<u8> = Vec::new();
        self.serialize_into(&mut out);
        proof {
            assert(out@ =~= self.short_image());
        }
        out
    }

    /// The bucket and the sector in it of an absolute block number, for
    /// buckets of `2 ^ bucket_size_log2` bytes and sectors of 4096. Bucket
    /// and sector keep their low 32 and 16 bits.
    pub fn block_no_to_bucket_offset(block_no: u64, bucket_size_log2: u32) -> (r: (u32, u16))
        requires
            12 <= bucket_size_log2 < 76,
        ensures
            r.0 == (block_no as int / vstd::arithmetic::power2::pow2(
                (bucket_size_log2 - 12) as nat,
            ) as int) % 0x1_0000_0000,
            r.1 == (block_no as int % vstd::arithmetic::power2::pow2(
                (bucket_size_log2 - 12) as nat,
            ) as int) % 0x1_0000,
    {
        let shift: u32 = bucket_size_log2 - 12;
        let per_bucket: u64 = 1u64 << shift;
        proof {
            vstd::arithmetic::power2::lemma2_to64();
            vstd::arithmetic::power2::lemma_pow2_pos(shift as nat);
            vstd::arithmetic::power2::lemma_pow2_strictly_increases(shift as nat, 64);
            vstd::bits::lemma_u64_shl_is_mul(1, shift as u64);
        }
        let bucket: u64 = block_no / per_bucket;
        let sector: u64 = block_no % per_bucket;
        ((bucket % 0x1_0000_0000) as u32, (sector % 0x1_0000) as u16)
    }

    /// Append the full image.
    pub fn put(&self, out: &mut Vec<u8>)
        ensures
            final(out)@ == old(out)@ + self.image(),
    {
        let ghost start = out@;
        self.header.put(out);
        self.replicas[0].put(out);
        self.replicas[1].put(out);
        self.replicas[2].put(out);
        self.replicas[3].put(out);
        proof {
            reveal_with_fuel(replicas_image, 5);
            assert(out@ =~= start + self.image());
        }
    }

    /// The location whose full image starts at `at`.
    pub fn get(s: &[u8], at: usize) -> (r: Self)
        requires
            at + OBJECT_LOCATION_SIZE <= s@.len(),
        ensures
            r.image() == s@.subrange(at as int, at + 48),
    {
        let total = s.len();
        let r = ObjectLocation {
            header: LocationHeader::get(s, at),
            replicas: [
                ReplicaRef::get(s, at + 16),
                ReplicaRef::get(s, at + 24),
                ReplicaRef::get(s, at + 32),
                ReplicaRef::get(s, at + 40),
            ],
        };
        proof {
            let a = at as int;
            reveal_with_fuel(replicas_image, 5);
            assert(replicas_image(r.replicas@, 4) =~= s@.subrange(a + 16, a + 48));
            lemma_adjacent(s@, a, a + 16, a + 48);
        }
        r
    }

    /// A full image has 48 bytes.
    pub proof fn image_len(&self)
        ensures
            self.image().len() == 48,
    {
        self.header.image_len();
        lemma_replicas_len(self.replicas@, 4);
    }

    /// The full image determines the location.
    pub proof fn image_injective(a: ObjectLocation, b: ObjectLocation)
        requires
            a.image() == b.image(),
        ensures
            a == b,
    {
        a.header.image_len();
        b.header.image_len();
        lemma_cat_eq(
            a.header.image(),
            replicas_image(a.replicas@, 4),
            b.header.image(),
            replicas_image(b.replicas@, 4),
        );
        LocationHeader::image_injective(a.header, b.header);
        lemma_replicas_injective(a.replicas@, b.replicas@, 4);
        assert(a.replicas =~= b.replicas);
    }
}

pub(crate) proof fn lemma_replicas_len(s: Seq<ReplicaRef>, n: int)
    requires
        0 <= n <= s.len(),
    ensures
        replicas_image(s, n).len() == 8 * n,
    decreases n,
{
    if n > 0 {
        lemma_replicas_len(s, n - 1);
        s[n - 1].image_len();
    }
}

proof fn lemma_replicas_prefix(a: Seq<ReplicaRef>, b: Seq<ReplicaRef>, n: int)
    requires
        0 <= n <= a.len(),
        n <= b.len(),
        forall|i: int| 0 <= i < n ==> a[i] == b[i],
    ensures
        replicas_image(a, n) == replicas_image(b, n),
    decreases n,
{
    if n > 0 {
        lemma_replicas_prefix(a, b, n - 1);
    }
}

proof fn lemma_replicas_injective(a: Seq<ReplicaRef>, b: Seq<ReplicaRef>, n: int)
    requires
        0 <= n <= a.len(),
        n <= b.len(),
        replicas_image(a, n) == replicas_image(b, n),
    ensures
        forall|i: int| 0 <= i < n ==> a[i] == b[i],
    decreases n,
{
    if n > 0 {
        a[n - 1].image_len();
        b[n - 1].image_len();
        lemma_cat_eq(
            replicas_image(a, n - 1),
            a[n - 1].image(),
            replicas_image(b, n - 1),
            b[n - 1].image(),
        );
        lemma_replicas_injective(a, b, n - 1);
        ReplicaRef::image_injective(a[n - 1], b[n - 1]);
    }
}

/// Parsing what was serialised gives the location back, as long as its unused
/// replica slots are zero and its count is at most four.
pub proof fn location_round_trip(loc: ObjectLocation, back: ObjectLocation)
    requires
        loc.header.replica_count <= 4,
        loc.tail_unused(),
        back.tail_unused(),
        back.short_image() == loc.short_image(),
    ensures
        back == loc,
{
    loc.header.image_len();
    back.header.image_len();
    lemma_cat_eq(
        back.header.image(),
        replicas_image(back.replicas@, back.active()),
        loc.header.image(),
        replicas_image(loc.replicas@, loc.active()),
    );
    LocationHeader::image_injective(back.header, loc.header);
    lemma_replicas_injective(back.replicas@, loc.replicas@, loc.active());
    assert forall|i: int| 0 <= i < 4 implies back.replicas@[i] == loc.replicas@[i] by {
        if i >= loc.active() {
            assert(back.replicas@[i] == ReplicaRef::unused());
            assert(loc.replicas@[i] == ReplicaRef::unused());
        }
    }
    assert(back.replicas =~= loc.replicas);
}

impl LeafRecord for ObjectLocation {
    open spec fn size() -> nat {
        48
    }

    open spec fn bytes(&self) -> Seq<u8> {
        self.image()
    }

    proof fn bytes_len(&self) {
        self.image_len();
    }

    proof fn bytes_injective(a: Self, b: Self) {
        ObjectLocation::image_injective(a, b);
    }

    fn record_size() -> (r: usize) {
        OBJECT_LOCATION_SIZE
    }

    fn put_record(&self, out: &mut Vec<u8>) {
        self.put(out)
    }

    fn get_record(s: &[u8], at: usize) -> (r: Self) {
        Self::get(s, at)
    }
}

} // verus!
