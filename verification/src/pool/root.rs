//! The root block of a pool: its disks.

use vstd::prelude::*;
use crate::bytes::{get_array, get_u32, le, lemma_adjacent, lemma_cat_eq, lemma_le_len,
    lemma_u32_image, put_bytes, put_le, zeros};
use crate::pool::disk::{is_blank, DiskDescriptorOnDisk};
use crate::pool::error::PoolError;
use crate::sorting::{sorted_stays_sorted, stable_sort, stably_sorted, Ranked};
use crate::storage::block::{same_magic, BlockHeader, BlockKind, BtreeKind,
    BLOCK_PREAMBLE_MAGIC_BLOCK};
use crate::storage::crc::{block_crc, crc32c};
use crate::storage::device::{overwritten, BlockDevice, StorageError};
use crate::storage::node::{LoadedNode, SortedRun};
use crate::storage::records::{get_images, images, lemma_images_injective, lemma_images_len,
    put_images};
use crate::storage::region::{codec_fits, load_node, node_loaded, node_stored, store_node,
    stored_region_loads};
use crate::text::{four_bytes, push_four_bytes};

verus! {

/// Size of the region for the disks that the root block has no room for.
pub const DISKS_OVERFLOW_REGION_SIZE: u64 = 262144;

/// Binary logarithm of [`DISKS_OVERFLOW_REGION_SIZE`].
pub const DISKS_OVERFLOW_REGION_SIZE_LOG2: u8 = 18;

/// Disks in the root block, at most.
pub const POOL_STATE_ROOT_INLINE_DISKS: usize = 12;

/// Size of the root block.
pub const POOL_STATE_ROOT_SIZE: usize = 4096;

/// Format version of the root block.
pub const POOL_STATE_ROOT_FORMAT_VERSION: u16 = 1;

/// The root block of a pool.
#[derive(Clone, Copy, Debug)]
pub struct PoolStateRoot {
    /// `[0..32]`
    pub header: BlockHeader,
    /// `[32..36]`
    pub disk_count: u32,
    /// `[36..40]`
    pub cluster_node_count: u32,
    /// `[40..3112]`
    pub inline_disks: [DiskDescriptorOnDisk; 12],
    /// `[3112..4092]`
    pub _reserved: [u8; 980],
    /// `[4092..4096]` checksum of all bytes before it.
    pub crc: u32,
}

/// What is wrong with a root block.
pub ghost enum RootFault {
    Magic(Seq<u8>),
    Kind(u16),
    Crc(u32, u32),
}

/// Why the header of a root block is not accepted, if it is not.
pub open spec fn root_header_fault(b: PoolStateRoot) -> Option<RootFault> {
    if b.header.pre.magic@ != BLOCK_PREAMBLE_MAGIC_BLOCK@ {
        Some(RootFault::Magic(b.header.pre.magic@))
    } else if b.header.pre.kind != BlockKind::PoolStateRoot.number() {
        Some(RootFault::Kind(b.header.pre.kind))
    } else {
        None
    }
}

/// Why a root block is not accepted, if it is not.
pub open spec fn root_fault(b: PoolStateRoot) -> Option<RootFault> {
    match root_header_fault(b) {
        Some(f) => Some(f),
        None => if b.crc != b.checksum() {
            Some(RootFault::Crc(b.crc, b.checksum()))
        } else {
            None
        },
    }
}

/// `e` reports the fault.
pub open spec fn root_reports(e: PoolError, f: RootFault) -> bool {
    match f {
        RootFault::Magic(m) => e is InvalidPayload && e->InvalidPayload_0@
            == "bad block preamble magic: "@ + four_bytes(m),
        RootFault::Kind(k) => e == PoolError::InvalidBlockKind(k),
        RootFault::Crc(expected, actual) => e == (PoolError::CrcMismatch { expected, actual }),
    }
}

/// The block that `bytes` hold.
pub open spec fn root_of(bytes: Seq<u8>) -> PoolStateRoot {
    choose|b: PoolStateRoot| #[trigger] b.image() == bytes
}

impl PoolStateRoot {
    /// The bytes on disk.
    pub open spec fn image(&self) -> Seq<u8> {
        self.header.image() + le(self.disk_count as nat, 4) + le(self.cluster_node_count as nat, 4)
            + images(self.inline_disks@, 12) + self._reserved@ + le(self.crc as nat, 4)
    }

    /// Append the bytes on disk to `out`.
    pub fn put(&self, out: &mut Vec<u8>)
        ensures
            final(out)@ == old(out)@ + self.image(),
    {
        let ghost start = out@;
        self.header.put(out);
        put_le(out, self.disk_count as u64, 4);
        put_le(out, self.cluster_node_count as u64, 4);
        put_images(out, self.inline_disks.as_slice());
        put_bytes(out, self._reserved.as_slice());
        put_le(out, self.crc as u64, 4);
        proof {
            assert(out@ =~= start + self.image());
        }
    }

    /// The value whose bytes stand at `at`.
    pub fn get(s: &[u8], at: usize) -> (r: Self)
        requires
            at + 4096 <= s@.len(),
        ensures
            r.image() == s@.subrange(at as int, at + 4096),
    {
        let total = s.len();
        let r = PoolStateRoot {
            header: BlockHeader::get(s, at),
            disk_count: get_u32(s, at + 32),
            cluster_node_count: get_u32(s, at + 36),
            inline_disks: get_images::<DiskDescriptorOnDisk, 12>(s, at + 40, 256),
            _reserved: get_array::<980>(s, at + 3112),
            crc: get_u32(s, at + 4092),
        };
        proof {
            lemma_adjacent(s@, at as int, at + 32, at + 36);
            lemma_adjacent(s@, at as int, at + 36, at + 40);
            lemma_adjacent(s@, at as int, at + 40, at + 3112);
            lemma_adjacent(s@, at as int, at + 3112, at + 4092);
            lemma_adjacent(s@, at as int, at + 4092, at + 4096);
        }
        r
    }

    /// An image has 4096 bytes.
    pub proof fn image_len(&self)
        ensures
            self.image().len() == 4096,
    {
        broadcast use lemma_le_len;

        self.header.image_len();
        lemma_images_len(self.inline_disks@, 12);
    }

    /// The image determines the value.
    pub proof fn image_injective(x: PoolStateRoot, y: PoolStateRoot)
        requires
            x.image() == y.image(),
        ensures
            x == y,
    {
        broadcast use lemma_le_len;

        x.header.image_len();
        y.header.image_len();
        lemma_images_len(x.inline_disks@, 12);
        lemma_images_len(y.inline_disks@, 12);
        let x1 = x.header.image() + le(x.disk_count as nat, 4);
        let x2 = x1 + le(x.cluster_node_count as nat, 4);
        let x3 = x2 + images(x.inline_disks@, 12);
        let x4 = x3 + x._reserved@;
        let y1 = y.header.image() + le(y.disk_count as nat, 4);
        let y2 = y1 + le(y.cluster_node_count as nat, 4);
        let y3 = y2 + images(y.inline_disks@, 12);
        let y4 = y3 + y._reserved@;
        lemma_cat_eq(x4, le(x.crc as nat, 4), y4, le(y.crc as nat, 4));
        lemma_cat_eq(x3, x._reserved@, y3, y._reserved@);
        lemma_cat_eq(x2, images(x.inline_disks@, 12), y2, images(y.inline_disks@, 12));
        lemma_cat_eq(
            x1,
            le(x.cluster_node_count as nat, 4),
            y1,
            le(y.cluster_node_count as nat, 4),
        );
        lemma_cat_eq(
            x.header.image(),
            le(x.disk_count as nat, 4),
            y.header.image(),
            le(y.disk_count as nat, 4),
        );
        BlockHeader::image_injective(x.header, y.header);
        lemma_u32_image(x.disk_count, y.disk_count);
        lemma_u32_image(x.cluster_node_count, y.cluster_node_count);
        lemma_images_injective(x.inline_disks@, y.inline_disks@, 12);
        assert(x.inline_disks =~= y.inline_disks);
        assert(x._reserved =~= y._reserved);
        lemma_u32_image(x.crc, y.crc);
    }

    /// The checksum of the block.
    pub open spec fn checksum(&self) -> u32 {
        crc32c(self.image().subrange(0, 4092))
    }

    /// The block with its checksum set.
    pub open spec fn sealed(&self) -> PoolStateRoot {
        PoolStateRoot { crc: self.checksum(), ..*self }
    }

    /// The checksum does not depend on the field that holds it.
    pub proof fn checksum_ignores_crc(x: PoolStateRoot, y: PoolStateRoot)
        requires
            y == (PoolStateRoot { crc: y.crc, ..x }),
        ensures
            x.checksum() == y.checksum(),
    {
        broadcast use lemma_le_len;

        x.image_len();
        y.image_len();
        assert(x.image().subrange(0, 4092) =~= y.image().subrange(0, 4092));
    }

    /// The disks in use.
    pub open spec fn disks(&self) -> Seq<DiskDescriptorOnDisk> {
        self.inline_disks@.take(
            if self.disk_count <= 12 {
                self.disk_count as int
            } else {
                12
            },
        )
    }

    /// A root block without disks; its checksum is not set.
    pub fn new_blank() -> (b: Self)
        ensures
            root_header_fault(b) is None,
            b.header.pre.format_version == POOL_STATE_ROOT_FORMAT_VERSION,
            b.header.payload_len == 4060,
            b.header.reserved@ == zeros(20),
            b.disk_count == 0,
            b.cluster_node_count == 0,
            forall|i: int| 0 <= i < 12 ==> is_blank(#[trigger] b.inline_disks@[i]),
            b._reserved@ == zeros(980),
            b.crc == 0,
    {
        let none = DiskDescriptorOnDisk::default();
        let b = PoolStateRoot {
            header: BlockHeader::new(
                BlockKind::PoolStateRoot,
                POOL_STATE_ROOT_FORMAT_VERSION,
                4060,
            ),
            disk_count: 0,
            cluster_node_count: 0,
            inline_disks: [none; 12],
            _reserved: [0u8; 980],
            crc: 0,
        };
        proof {
            assert(b._reserved@ =~= zeros(980));
        }
        b
    }

    /// The bytes of the block.
    pub fn to_bytes(&self) -> (r: Vec<u8>)
        ensures
            r@ == self.image(),
            r@.len() == 4096,
    {
        let mut out: Vec<u8> = Vec::new();
        self.put(&mut out);
        proof {
            self.image_len();
            assert(out@ =~= self.image());
        }
        out
    }

    fn computed_crc(&self) -> (r: u32)
        ensures
            r == self.checksum(),
    {
        let bytes = self.to_bytes();
        block_crc(bytes.as_slice(), 0, 4092)
    }

    /// Set the checksum.
    pub fn recompute_crc(&mut self)
        ensures
            *final(self) == old(self).sealed(),
    {
        let crc = self.computed_crc();
        self.crc = crc;
    }

    /// Whether the checksum is that of the block.
    pub fn verify_crc(&self) -> (r: Result<(), PoolError>)
        ensures
            r == if self.crc == self.checksum() {
                Ok::<(), PoolError>(())
            } else {
                Err(PoolError::CrcMismatch { expected: self.crc, actual: self.checksum() })
            },
    {
        let actual = self.computed_crc();
        if self.crc == actual {
            Ok(())
        } else {
            Err(PoolError::CrcMismatch { expected: self.crc, actual })
        }
    }

    /// Number of disks in the block.
    pub fn inline_disk_count(&self) -> (r: usize)
        ensures
            r == self.disks().len(),
            r <= 12,
    {
        if self.disk_count <= 12 {
            self.disk_count as usize
        } else {
            12
        }
    }

    /// Set the disks. The slots that are left are blank.
    pub fn set_inline_disks(&mut self, disks: &Vec<DiskDescriptorOnDisk>) -> (r: Result<
        (),
        PoolError,
    >)
        ensures
            match r {
                Ok(_) => {
                    &&& disks@.len() <= 12
                    &&& *final(self) == (PoolStateRoot {
                        disk_count: disks@.len() as u32,
                        inline_disks: final(self).inline_disks,
                        ..*old(self)
                    })
                    &&& final(self).disks() == disks@
                    &&& forall|i: int|
                        disks@.len() <= i < 12 ==> is_blank(#[trigger] final(self).inline_disks@[i])
                },
                Err(e) => {
                    &&& disks@.len() > 12
                    &&& e == (PoolError::DiskOverflowUnsupported {
                        count: (disks@.len() % 0x1_0000_0000) as u32,
                        max: 12,
                    })
                    &&& *final(self) == *old(self)
                },
            },
    {
        let n = disks.len();
        if n > POOL_STATE_ROOT_INLINE_DISKS {
            return Err(
                PoolError::DiskOverflowUnsupported {
                    count: (n as u64 % 0x1_0000_0000) as u32,
                    max: 12,
                },
            );
        }
        let none = DiskDescriptorOnDisk::default();
        let mut slots: [DiskDescriptorOnDisk; 12] = [none; 12];
        let mut i: usize = 0;
        while i < n
            invariant
                i <= n,
                n == disks@.len(),
                n <= 12,
                forall|j: int| 0 <= j < i ==> slots@[j] == disks@[j],
                forall|j: int| i <= j < 12 ==> is_blank(#[trigger] slots@[j]),
            decreases n - i,
        {
            slots[i] = disks[i];
            i = i + 1;
        }
        self.inline_disks = slots;
        self.disk_count = n as u32;
        proof {
            assert(self.disks() =~= disks@);
        }
        Ok(())
    }

    /// The disks in use.
    pub fn inline_iter(&self) -> (r: Vec<DiskDescriptorOnDisk>)
        ensures
            r@ == self.disks(),
    {
        let n = self.inline_disk_count();
        let mut out: Vec<DiskDescriptorOnDisk> = Vec::new();
        let mut i: usize = 0;
        while i < n
            invariant
                i <= n,
                n <= 12,
                n == self.disks().len(),
                out@ =~= self.inline_disks@.take(i as int),
            decreases n - i,
        {
            out.push(self.inline_disks[i]);
            i = i + 1;
        }
        out
    }

    /// Whether the block can be accepted.
    fn validate(&self) -> (r: Result<(), PoolError>)
        ensures
            match root_fault(*self) {
                Some(f) => r is Err && root_reports(r->Err_0, f),
                None => r is Ok,
            },
    {
        if !same_magic(&self.header.pre.magic, &BLOCK_PREAMBLE_MAGIC_BLOCK) {
            let mut m = String::new();
            m.push_str("bad block preamble magic: ");
            push_four_bytes(&mut m, &self.header.pre.magic);
            proof {
                assert(m@ =~= "bad block preamble magic: "@ + four_bytes(
                    self.header.pre.magic@,
                ));
            }
            return Err(PoolError::InvalidPayload(m));
        }
        if self.header.pre.kind != BlockKind::PoolStateRoot.code() {
            return Err(PoolError::InvalidBlockKind(self.header.pre.kind));
        }
        self.verify_crc()
    }

    /// Set the checksum and write the block.
    pub fn write<D: BlockDevice>(&mut self, device: &mut D, offset: u64) -> (r: Result<
        (),
        PoolError,
    >)
        ensures
            *final(self) == old(self).sealed(),
            old(device).reliable() ==> final(device).reliable(),
            match r {
                Ok(_) => {
                    &&& offset + 4096 <= old(device).contents().len()
                    &&& final(device).contents() == overwritten(
                        old(device).contents(),
                        offset as int,
                        old(self).sealed().image(),
                    )
                },
                Err(e) => e is Storage && (old(device).reliable() ==> offset + 4096 > old(
                    device,
                ).contents().len() && final(device).contents() == old(device).contents()),
            },
    {
        self.recompute_crc();
        let bytes = self.to_bytes();
        match device.write_at(offset, bytes.as_slice()) {
            Ok(_) => Ok(()),
            Err(e) => Err(PoolError::Storage(e)),
        }
    }

    /// Read a root block and check it.
    pub fn read<D: BlockDevice>(device: &D, offset: u64) -> (r: Result<Self, PoolError>)
        ensures
            root_read(device.contents(), device.reliable(), offset as int, r),
    {
        match device.read_at(offset, 4096) {
            Ok(bytes) => {
                let b = PoolStateRoot::get(bytes.as_slice(), 0);
                proof {
                    assert(bytes@.subrange(0, 4096) =~= bytes@);
                    lemma_root_of(b);
                }
                match b.validate() {
                    Ok(_) => Ok(b),
                    Err(e) => Err(e),
                }
            },
            Err(e) => Err(PoolError::Storage(e)),
        }
    }
}

/// `r` is what reading the root block at `offset` gives.
pub open spec fn root_read(
    contents: Seq<u8>,
    reliable: bool,
    offset: int,
    r: Result<PoolStateRoot, PoolError>,
) -> bool {
    ||| r is Err && r->Err_0 is Storage && (reliable ==> offset + 4096 > contents.len())
    ||| {
        let b = root_of(contents.subrange(offset, offset + 4096));
        &&& offset + 4096 <= contents.len()
        &&& match root_fault(b) {
            Some(f) => r is Err && root_reports(r->Err_0, f),
            None => r == Ok::<PoolStateRoot, PoolError>(b),
        }
    }
}

proof fn lemma_root_of(b: PoolStateRoot)
    ensures
        root_of(b.image()) == b,
{
    PoolStateRoot::image_injective(root_of(b.image()), b);
}

/// A sealed root block is accepted.
pub proof fn lemma_root_sealed(b: PoolStateRoot)
    requires
        root_header_fault(b) is None,
    ensures
        root_of(b.sealed().image()) == b.sealed(),
        root_fault(b.sealed()) is None,
{
    lemma_root_of(b.sealed());
    PoolStateRoot::checksum_ignores_crc(b, b.sealed());
}

/// A root block that was written is read back as it was, with its checksum set.
pub proof fn root_write_then_read(
    contents: Seq<u8>,
    offset: int,
    b: PoolStateRoot,
    r: Result<PoolStateRoot, PoolError>,
)
    requires
        0 <= offset,
        offset + 4096 <= contents.len(),
        root_header_fault(b) is None,
        root_read(overwritten(contents, offset, b.sealed().image()), true, offset, r),
    ensures
        r == Ok::<PoolStateRoot, PoolError>(b.sealed()),
{
    b.sealed().image_len();
    crate::storage::device::read_after_write(contents, offset, b.sealed().image());
    lemma_root_sealed(b);
}

impl Ranked for (u16, DiskDescriptorOnDisk) {
    open spec fn rank(&self) -> int {
        self.0 as int
    }

    fn ranks_before(&self, other: &Self) -> (r: bool) {
        self.0 < other.0
    }
}

/// The disks by id.
pub open spec fn keyed(disks: Seq<DiskDescriptorOnDisk>) -> Seq<(u16, DiskDescriptorOnDisk)> {
    disks.map_values(|d: DiskDescriptorOnDisk| (d.disk_id, d))
}

/// The disks of the entries.
pub open spec fn unkeyed(entries: Seq<(u16, DiskDescriptorOnDisk)>) -> Seq<DiskDescriptorOnDisk> {
    entries.map_values(|e: (u16, DiskDescriptorOnDisk)| e.1)
}

/// Disks in ascending order of ids come back from their node as they were.
pub proof fn overflow_round_trip(
    overflow: Seq<DiskDescriptorOnDisk>,
    entries: Seq<(u16, DiskDescriptorOnDisk)>,
)
    requires
        forall|i: int, j: int|
            0 <= i < j < overflow.len() ==> (#[trigger] overflow[i]).disk_id <= (
            #[trigger] overflow[j]).disk_id,
        stably_sorted(keyed(overflow), entries),
    ensures
        unkeyed(entries) == overflow,
{
    let k = keyed(overflow);
    assert forall|i: int, j: int| 0 <= i < j < k.len() implies (#[trigger] k[i]).rank() <= (
    #[trigger] k[j]).rank() by {
        assert(overflow[i].disk_id <= overflow[j].disk_id);
    }
    sorted_stays_sorted(k, entries);
    assert(unkeyed(entries) =~= overflow);
}

/// The disks that the root block has no room for as the node that goes to
/// disk: in ascending order of ids, those of one id in their order.
pub fn disks_overflow_to_loaded_node(overflow: &Vec<DiskDescriptorOnDisk>) -> (r: LoadedNode<
    u16,
    DiskDescriptorOnDisk,
>)
    ensures
        r.fresh(BtreeKind::DiskDescriptors, DISKS_OVERFLOW_REGION_SIZE_LOG2),
        stably_sorted(keyed(overflow@), r.entries()),
        r.entries().to_multiset() == keyed(overflow@).to_multiset(),
{
    let mut plain: Vec<(u16, DiskDescriptorOnDisk)> = Vec::new();
    let mut i: usize = 0;
    while i < overflow.len()
        invariant
            i <= overflow@.len(),
            plain@ =~= keyed(overflow@).take(i as int),
        decreases overflow@.len() - i,
    {
        plain.push((overflow[i].disk_id, overflow[i]));
        i = i + 1;
    }
    proof {
        assert(plain@ =~= keyed(overflow@));
    }
    let entries = stable_sort(plain);
    if entries.len() == 0 {
        let r = LoadedNode::new(BtreeKind::DiskDescriptors, 0, DISKS_OVERFLOW_REGION_SIZE_LOG2);
        proof {
            assert(r.entries() =~= entries@);
        }
        r
    } else {
        LoadedNode::with_run(
            BtreeKind::DiskDescriptors,
            0,
            DISKS_OVERFLOW_REGION_SIZE_LOG2,
            entries,
        )
    }
}

/// The disks that a node from disk holds.
pub fn disks_overflow_from_loaded_node(node: &LoadedNode<u16, DiskDescriptorOnDisk>) -> (r: Vec<
    DiskDescriptorOnDisk,
>)
    ensures
        r@ == unkeyed(node.entries()),
{
    let all = node.merge_iter();
    let ghost want = unkeyed(node.entries());
    let mut out: Vec<DiskDescriptorOnDisk> = Vec::new();
    let mut i: usize = 0;
    while i < all.len()
        invariant
            i <= all@.len(),
            all@.len() == node.entries().len(),
            forall|j: int| 0 <= j < all@.len() ==> *(#[trigger] all@[j]) == node.entries()[j],
            want == unkeyed(node.entries()),
            out@ =~= want.take(i as int),
        decreases all@.len() - i,
    {
        let e = all[i];
        proof {
            assert(*all@[i as int] == node.entries()[i as int]);
        }
        out.push(e.1);
        i = i + 1;
    }
    out
}

/// The node holds the disks, in ascending order of ids.
pub open spec fn is_disk_node(
    node: LoadedNode<u16, DiskDescriptorOnDisk>,
    disks: Seq<DiskDescriptorOnDisk>,
) -> bool {
    &&& node.fresh(BtreeKind::DiskDescriptors, DISKS_OVERFLOW_REGION_SIZE_LOG2)
    &&& stably_sorted(keyed(disks), node.entries())
}

/// `r` are the disks that were read.
pub open spec fn disks_read(
    read: Result<Option<LoadedNode<u16, DiskDescriptorOnDisk>>, StorageError>,
    r: Result<Seq<DiskDescriptorOnDisk>, PoolError>,
) -> bool {
    r == match read {
        Ok(None) => Ok::<Seq<DiskDescriptorOnDisk>, PoolError>(Seq::empty()),
        Ok(Some(node)) => Ok(unkeyed(node.entries())),
        Err(e) => Err(PoolError::Storage(e)),
    }
}

/// Write the disks that the root block has no room for to the region at `offset`
/// on `device`. `encode` turns the runs of the node into bytes.
pub fn flush_disks_overflow_to_region<
    D: BlockDevice,
    F: Fn(&Vec<SortedRun<u16, DiskDescriptorOnDisk>>) -> Result<Vec<u8>, StorageError>,
>(overflow: &Vec<DiskDescriptorOnDisk>, device: &mut D, offset: u64, encode: F) -> (r: Result<(), PoolError>)
    requires
        forall|runs: &Vec<SortedRun<u16, DiskDescriptorOnDisk>>| encode.requires((runs,)),
    ensures
        old(device).reliable() ==> final(device).reliable(),
        exists|
            node: LoadedNode<u16, DiskDescriptorOnDisk>,
            encoded: Result<Vec<u8>, StorageError>,
            stored: Result<(), StorageError>,
        |
            {
                &&& #[trigger] is_disk_node(node, overflow@)
                &&& #[trigger] encode.ensures((&node.sorted_runs,), encoded)
                &&& #[trigger] node_stored(
                    old(device).contents(),
                    final(device).contents(),
                    old(device).reliable(),
                    offset as int,
                    node.header,
                    encoded,
                    stored,
                )
                &&& r == match stored {
                    Ok(_) => Ok::<(), PoolError>(()),
                    Err(e) => Err(PoolError::Storage(e)),
                }
            },
{
    let node = disks_overflow_to_loaded_node(overflow);
    proof {
        assert(is_disk_node(node, overflow@));
    }
    match store_node(device, offset, &node, encode) {
        Ok(_) => Ok(()),
        Err(e) => Err(PoolError::Storage(e)),
    }
}

/// Read the disks that the root block has no room for from the region at
/// `offset` on `device`; a blank region holds none. `decode` turns the bytes of
/// the runs into runs.
pub fn load_disks_overflow_from_region<
    D: BlockDevice,
    G: Fn(Vec<u8>) -> Result<Vec<SortedRun<u16, DiskDescriptorOnDisk>>, StorageError>,
>(device: &D, offset: u64, decode: G) -> (r: Result<Vec<DiskDescriptorOnDisk>, PoolError>)
    requires
        forall|bytes: Vec<u8>| decode.requires((bytes,)),
    ensures
        exists|read: Result<Option<LoadedNode<u16, DiskDescriptorOnDisk>>, StorageError>|
            #[trigger] node_loaded(
                device.contents(),
                device.reliable(),
                offset as int,
                Some(BtreeKind::DiskDescriptors),
                decode,
                read,
            ) && disks_read(read, match r {
                Ok(v) => Ok(v@),
                Err(e) => Err(e),
            }),
{
    match load_node(device, offset, Some(BtreeKind::DiskDescriptors), decode) {
        Ok(Some(node)) => Ok(disks_overflow_from_loaded_node(&node)),
        Ok(None) => Ok(Vec::new()),
        Err(e) => Err(PoolError::Storage(e)),
    }
}

/// Entries that hold the same disks.
pub open spec fn same_disks() -> spec_fn(
    Seq<(u16, DiskDescriptorOnDisk)>,
    Seq<(u16, DiskDescriptorOnDisk)>,
) -> bool {
    |a: Seq<(u16, DiskDescriptorOnDisk)>, b: Seq<(u16, DiskDescriptorOnDisk)>|
        unkeyed(a) == unkeyed(b)
}

/// Disks in ascending order of ids that were flushed are loaded again as they
/// were, if the two functions for their runs belong together.
pub proof fn disks_flush_then_load<
    F: Fn(&Vec<SortedRun<u16, DiskDescriptorOnDisk>>) -> Result<Vec<u8>, StorageError>,
    G: Fn(Vec<u8>) -> Result<Vec<SortedRun<u16, DiskDescriptorOnDisk>>, StorageError>,
>(
    disks: Seq<DiskDescriptorOnDisk>,
    before: Seq<u8>,
    after: Seq<u8>,
    offset: int,
    node: LoadedNode<u16, DiskDescriptorOnDisk>,
    encode: F,
    encoded: Result<Vec<u8>, StorageError>,
    decode: G,
    read: Result<Option<LoadedNode<u16, DiskDescriptorOnDisk>>, StorageError>,
    r: Result<Seq<DiskDescriptorOnDisk>, PoolError>,
)
    requires
        0 <= offset <= u64::MAX - 4096,
        codec_fits(encode, decode, same_disks()),
        is_disk_node(node, disks),
        encode.ensures((&node.sorted_runs,), encoded),
        node_stored(before, after, true, offset, node.header, encoded, Ok(())),
        node_loaded(after, true, offset, Some(BtreeKind::DiskDescriptors), decode, read),
        disks_read(read, r),
        forall|i: int, j: int|
            0 <= i < j < disks.len() ==> (#[trigger] disks[i]).disk_id <= (#[trigger] disks[j]).disk_id,
    ensures
        r == Ok::<Seq<DiskDescriptorOnDisk>, PoolError>(disks),
{
    stored_region_loads(
        before,
        after,
        offset,
        node,
        BtreeKind::DiskDescriptors,
        Some(BtreeKind::DiskDescriptors),
        encode,
        encoded,
        decode,
        same_disks(),
        read,
    );
    overflow_round_trip(disks, node.entries());
}

} // verus!
