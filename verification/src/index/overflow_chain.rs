//! Overflow chains: the assertions of an object that has too many for its
//! leaf entry, in regions that each point to the next.

use vstd::prelude::*;
use crate::bytes::{put_zeros, zeros};
use crate::index::error::IndexError;
use crate::index::packed::{get_packed, lemma_packed_injective, lemma_packed_len, packed_images,
    put_packed, PackedAssertion, PACKED_ASSERTION_SIZE};
use crate::storage::block::{BlockRef, BtreeKind, BtreeNodeHeader, BLOCK_PREAMBLE_MAGIC_BTREE};
use crate::storage::device::{overwritten, read_after_write, BlockDevice, StorageError};

verus! {

/// Assertions per region.
pub const FORWARD_OVERFLOW_REGION_CAPACITY: usize = 16379;

/// Size of a region.
pub const FORWARD_OVERFLOW_REGION_SIZE: usize = 262144;

/// The reference to the block at a byte offset. The block number keeps its
/// low 32 bits.
pub open spec fn ref_at(offset: int) -> BlockRef {
    BlockRef {
        disk_id: 0,
        _pad: 0,
        block_no: (offset / 4096 % 0x1_0000_0000) as u32,
        generation: 1,
    }
}

/// The reference to the block at a byte offset.
pub fn block_ref_at(byte_offset: u64) -> (r: BlockRef)
    ensures
        r == ref_at(byte_offset as int),
{
    BlockRef {
        disk_id: 0,
        _pad: 0,
        block_no: (byte_offset / 4096 % 0x1_0000_0000) as u32,
        generation: 1,
    }
}

/// The reference that points nowhere.
pub open spec fn null_ref() -> BlockRef {
    BlockRef { disk_id: 0, _pad: 0, block_no: 0, generation: 0 }
}

/// Byte offset of a slot in the area.
pub open spec fn slot_offset(area: int, slot: int) -> int {
    area + slot * 262144
}

/// The first `slots` slots of the area reach beyond a device of this length, or
/// the last of them has no 64-bit offset.
pub open spec fn slots_beyond(area: int, slots: int, device_len: nat) -> bool {
    slot_offset(area, slots) > device_len || slot_offset(area, slots - 1) > u64::MAX
}

/// A number of slots, as far as it can be counted.
pub open spec fn counted(slots: int) -> usize {
    if slots > usize::MAX {
        usize::MAX
    } else {
        slots as usize
    }
}

/// How many regions `n` assertions take.
pub open spec fn chunk_count(n: nat) -> nat {
    (n + 16378) / 16379
}

/// The assertions in region `c` of a chain.
pub open spec fn chunk(p: Seq<PackedAssertion>, c: int) -> Seq<PackedAssertion> {
    p.subrange(
        c * 16379,
        if (c + 1) * 16379 <= p.len() {
            (c + 1) * 16379
        } else {
            p.len() as int
        },
    )
}

/// The header of a region with `n` assertions.
pub open spec fn region_header(h: BtreeNodeHeader, n: nat) -> bool {
    &&& h.pre.magic@ == BLOCK_PREAMBLE_MAGIC_BTREE@
    &&& h.pre.kind == BtreeKind::ForwardOverflow.number()
    &&& h.pre.format_version == 1
    &&& h.level == 0
    &&& h.region_size_log2 == 18
    &&& h.sorted_run_count == 0
    &&& h.payload_used == 16 * n
    &&& h.seq == 0
    &&& h.min_key@ == zeros(16)
    &&& h.max_key@ == zeros(16)
    &&& h.reserved@ == zeros(8)
}

/// `bytes` are a region with the assertions `p` and the link `next`.
pub open spec fn is_region(bytes: Seq<u8>, p: Seq<PackedAssertion>, next: BlockRef) -> bool {
    &&& p.len() <= 16379
    &&& exists|h: BtreeNodeHeader|
        #[trigger] region_header(h, p.len()) && bytes == h.image() + packed_images(
            p,
            p.len() as int,
        ) + zeros((262064 - 16 * p.len()) as nat) + next.image()
}

/// One write: a slot and the bytes that go there.
pub ghost struct SlotWrite {
    pub slot: int,
    pub bytes: Seq<u8>,
}

/// The contents after the writes.
pub open spec fn written(contents: Seq<u8>, area: int, writes: Seq<SlotWrite>) -> Seq<u8>
    decreases writes.len(),
{
    if writes.len() == 0 {
        contents
    } else {
        overwritten(
            written(contents, area, writes.drop_last()),
            slot_offset(area, writes.last().slot),
            writes.last().bytes,
        )
    }
}

/// The link from region `c` of a chain of `n` regions that starts at `slot`.
pub open spec fn link_after(area: int, slot: int, n: int, c: int) -> BlockRef {
    if c + 1 >= n {
        null_ref()
    } else {
        ref_at(slot_offset(area, slot + c + 1))
    }
}

/// `writes` lay out the assertions `p` as a chain that starts at `slot`, the
/// last region first.
pub open spec fn lays_out(
    writes: Seq<SlotWrite>,
    p: Seq<PackedAssertion>,
    area: int,
    slot: int,
) -> bool {
    let n = chunk_count(p.len()) as int;
    &&& writes.len() == n
    &&& forall|i: int|
        0 <= i < n ==> (#[trigger] writes[i]).slot == slot + (n - 1 - i) && is_region(
            writes[i].bytes,
            chunk(p, n - 1 - i),
            link_after(area, slot, n, n - 1 - i),
        )
}

/// The bytes of one region.
fn region_bytes(packed: &Vec<PackedAssertion>, from: usize, to: usize, next: BlockRef) -> (r: Vec<
    u8,
>)
    requires
        from <= to <= packed@.len(),
        to - from <= 16379,
    ensures
        is_region(r@, packed@.subrange(from as int, to as int), next),
        r@.len() == 262144,
{
    let n: usize = to - from;
    let mut header = BtreeNodeHeader::new(BtreeKind::ForwardOverflow, 1, 0, 18);
    header.payload_used = (n * PACKED_ASSERTION_SIZE) as u32;
    let mut out: Vec<u8> = Vec::new();
    header.put(&mut out);
    put_packed(&mut out, packed, from, to);
    put_zeros(&mut out, 262064 - 16 * n);
    next.put(&mut out);
    proof {
        let p = packed@.subrange(from as int, to as int);
        assert(region_header(header, p.len()));
        header.image_len();
        lemma_packed_len(p, p.len() as int);
        next.image_len();
        assert(out@ =~= header.image() + packed_images(p, p.len() as int) + zeros(
            (262064 - 16 * p.len()) as nat,
        ) + next.image());
    }
    out
}

/// Write the assertions as a chain into the slots from `*next_slot` on, and
/// return the reference to its first region.
pub fn write_overflow_chain<D: BlockDevice>(
    device: &mut D,
    area_offset: u64,
    cap_regions: usize,
    next_slot: &mut usize,
    packed: &Vec<PackedAssertion>,
) -> (r: Result<BlockRef, IndexError>)
    requires
        0 < packed@.len() <= 0x7FFF,
    ensures
        old(device).reliable() ==> final(device).reliable(),
        match r {
            Ok(head) => {
                let n = chunk_count(packed@.len()) as int;
                &&& *old(next_slot) + n <= cap_regions
                &&& *final(next_slot) == *old(next_slot) + n
                &&& head == ref_at(slot_offset(area_offset as int, *old(next_slot) as int))
                &&& exists|writes: Seq<SlotWrite>|
                    #[trigger] lays_out(
                        writes,
                        packed@,
                        area_offset as int,
                        *old(next_slot) as int,
                    ) && final(device).contents() == written(
                        old(device).contents(),
                        area_offset as int,
                        writes,
                    )
                &&& slot_offset(area_offset as int, *old(next_slot) + n) <= old(
                    device,
                ).contents().len()
            },
            Err(IndexError::OverflowAreaExhausted { needed, cap }) => {
                &&& needed == counted(*old(next_slot) + chunk_count(packed@.len()))
                &&& *old(next_slot) + chunk_count(packed@.len()) > cap_regions
                &&& cap == cap_regions
                &&& *final(device) == *old(device)
                &&& *final(next_slot) == *old(next_slot)
            },
            Err(e) => {
                &&& e is Storage
                &&& *old(next_slot) + chunk_count(packed@.len()) <= cap_regions
                &&& old(device).reliable() ==> slots_beyond(
                    area_offset as int,
                    *old(next_slot) + chunk_count(packed@.len()),
                    old(device).contents().len(),
                ) && final(device).contents() == old(device).contents()
            },
        },
{
    let total = packed.len();
    let n: usize = (total + 16378) / 16379;
    let first: usize = *next_slot;
    if cap_regions < n || first > cap_regions - n {
        let needed: usize = if first > usize::MAX - n {
            usize::MAX
        } else {
            first + n
        };
        return Err(IndexError::OverflowAreaExhausted { needed, cap: cap_regions });
    }
    let last: u64 = (first + (n - 1)) as u64;
    if last > (u64::MAX - area_offset) / 262144 {
        return Err(
            IndexError::Storage(
                StorageError::OutOfBounds { offset: area_offset, len: FORWARD_OVERFLOW_REGION_SIZE },
            ),
        );
    }
    *next_slot = first + n;
    let ghost area = area_offset as int;
    let ghost start = device.contents();
    let ghost mut writes: Seq<SlotWrite> = Seq::empty();
    let mut link = BlockRef { disk_id: 0, _pad: 0, block_no: 0, generation: 0 };
    let mut c: usize = n;
    while c > 0
        invariant
            c <= n,
            n == chunk_count(packed@.len()),
            n <= 3,
            total == packed@.len(),
            0 < total <= 0x7FFF,
            first + n <= cap_regions,
            slot_offset(area_offset as int, first + n - 1) <= u64::MAX,
            area == area_offset,
            *next_slot == first + n,
            first == *old(next_slot),
            start == old(device).contents(),
            old(device).reliable() ==> device.reliable(),
            writes.len() == n - c,
            forall|i: int|
                0 <= i < writes.len() ==> (#[trigger] writes[i]).slot == first + (n - 1 - i)
                    && is_region(
                    writes[i].bytes,
                    chunk(packed@, n - 1 - i),
                    link_after(area, first as int, n as int, n - 1 - i),
                ),
            device.contents() == written(start, area, writes),
            device.contents().len() == start.len(),
            c < n ==> slot_offset(area, first + n) <= start.len(),
            link == link_after(area, first as int, n as int, c - 1),
        decreases c,
    {
        c = c - 1;
        let from: usize = c * 16379;
        let to: usize = if (c + 1) * 16379 <= total {
            (c + 1) * 16379
        } else {
            total
        };
        let offset: u64 = area_offset + ((first + c) as u64) * 262144;
        let bytes = region_bytes(packed, from, to, link);
        match device.write_at(offset, bytes.as_slice()) {
            Ok(_) => {},
            Err(e) => {
                return Err(IndexError::Storage(e));
            },
        }
        proof {
            let w = SlotWrite { slot: first + c, bytes: bytes@ };
            let before = writes;
            writes = writes.push(w);
            assert(writes.drop_last() =~= before);
            assert(packed@.subrange(from as int, to as int) == chunk(packed@, c as int));
        }
        link = block_ref_at(offset);
    }
    proof {
        assert(lays_out(writes, packed@, area, first as int));
    }
    let head_offset: u64 = area_offset + (first as u64) * 262144;
    Ok(block_ref_at(head_offset))
}

/// Why a chain cannot be read.
pub ghost enum ChainFault {
    /// A region lies outside the device.
    Bounds,
    /// The chain is not what it should be.
    Corrupt(Seq<char>),
}

/// The assertions of a region: `n` of them, `n` taken from the header.
pub open spec fn region_holds(
    bytes: Seq<u8>,
    h: BtreeNodeHeader,
    p: Seq<PackedAssertion>,
    next: BlockRef,
) -> bool {
    &&& bytes.len() == 262144
    &&& h.image() == bytes.subrange(0, 64)
    &&& next.image() == bytes.subrange(262128, 262144)
    &&& 16 * p.len() == h.payload_used
    &&& p.len() <= 16379
    &&& packed_images(p, p.len() as int) == bytes.subrange(64, 64 + 16 * p.len() as int)
}

/// `r` is what the rest of a chain gives: `cur` is the next link, `seen`
/// regions were read, and `acc` is what they held.
pub open spec fn chain_gives(
    contents: Seq<u8>,
    cur: BlockRef,
    expected: nat,
    seen: nat,
    acc: Seq<PackedAssertion>,
    r: Result<Seq<PackedAssertion>, ChainFault>,
) -> bool
    decreases expected / 16379 + 2 - seen,
{
    let at = cur.block_no as int * 4096;
    if cur.is_null() {
        if acc.len() == expected {
            r == Ok::<Seq<PackedAssertion>, ChainFault>(acc)
        } else {
            r == Err::<Seq<PackedAssertion>, ChainFault>(
                ChainFault::Corrupt("chain entry count != leaf entry total"@),
            )
        }
    } else if seen + 1 > expected / 16379 + 2 {
        r == Err::<Seq<PackedAssertion>, ChainFault>(
            ChainFault::Corrupt("chain exceeds expected length"@),
        )
    } else if at + 262144 > contents.len() {
        r == Err::<Seq<PackedAssertion>, ChainFault>(ChainFault::Bounds)
    } else {
        let bytes = contents.subrange(at, at + 262144);
        exists|h: BtreeNodeHeader|
            {
                &&& #[trigger] h.image() == bytes.subrange(0, 64)
                &&& if h.pre.kind != BtreeKind::ForwardOverflow.number() {
                    r == Err::<Seq<PackedAssertion>, ChainFault>(
                        ChainFault::Corrupt("non-ForwardOverflow region in chain"@),
                    )
                } else if h.payload_used % 16 != 0 {
                    r == Err::<Seq<PackedAssertion>, ChainFault>(
                        ChainFault::Corrupt(
                            "payload_used not a multiple of PackedAssertion size"@,
                        ),
                    )
                } else if h.payload_used / 16 > 16379 {
                    r == Err::<Seq<PackedAssertion>, ChainFault>(
                        ChainFault::Corrupt("payload_used exceeds region capacity"@),
                    )
                } else {
                    exists|p: Seq<PackedAssertion>, next: BlockRef|
                        #[trigger] region_holds(bytes, h, p, next) && chain_gives(
                            contents,
                            next,
                            expected,
                            seen + 1,
                            acc + p,
                            r,
                        )
                }
            }
    }
}

/// `r` reports what `g` says.
pub open spec fn chain_reports(
    r: Result<Vec<PackedAssertion>, IndexError>,
    g: Result<Seq<PackedAssertion>, ChainFault>,
) -> bool {
    match g {
        Ok(p) => r is Ok && r->Ok_0@ == p,
        Err(ChainFault::Bounds) => r is Err && r->Err_0 is Storage,
        Err(ChainFault::Corrupt(m)) => r is Err && r->Err_0 is CorruptOverflowChain
            && r->Err_0->CorruptOverflowChain_0@ == m,
    }
}

/// Read the chain that starts at `head`. It has to hold exactly
/// `expected_total` assertions.
pub fn read_overflow_chain<D: BlockDevice>(device: &D, head: BlockRef, expected_total: usize) -> (r:
    Result<Vec<PackedAssertion>, IndexError>)
    requires
        expected_total <= 0x7FFF,
    ensures
        (!device.reliable() && r is Err && r->Err_0 is Storage) || exists|
            g: Result<Seq<PackedAssertion>, ChainFault>,
        |
            #[trigger] chain_reports(r, g) && chain_gives(
                device.contents(),
                head,
                expected_total as nat,
                0,
                Seq::empty(),
                g,
            ),
{
    let out: Vec<PackedAssertion> = Vec::new();
    proof {
        assert(out@ =~= Seq::<PackedAssertion>::empty());
    }
    read_chain_from(device, head, expected_total, 0, out)
}

fn read_chain_from<D: BlockDevice>(
    device: &D,
    cur: BlockRef,
    expected_total: usize,
    seen: usize,
    acc: Vec<PackedAssertion>,
) -> (r: Result<Vec<PackedAssertion>, IndexError>)
    requires
        expected_total <= 0x7FFF,
        seen <= expected_total / 16379 + 2,
    ensures
        (!device.reliable() && r is Err && r->Err_0 is Storage) || exists|
            g: Result<Seq<PackedAssertion>, ChainFault>,
        |
            #[trigger] chain_reports(r, g) && chain_gives(
                device.contents(),
                cur,
                expected_total as nat,
                seen as nat,
                acc@,
                g,
            ),
    decreases expected_total / 16379 + 2 - seen,
{
    if cur.points_nowhere() {
        if acc.len() != expected_total {
            let e = IndexError::CorruptOverflowChain("chain entry count != leaf entry total");
            proof {
                let g = Err::<Seq<PackedAssertion>, ChainFault>(
                    ChainFault::Corrupt("chain entry count != leaf entry total"@),
                );
                assert(chain_reports(Err::<Vec<PackedAssertion>, IndexError>(e), g));
            }
            return Err(e);
        }
        proof {
            let g = Ok::<Seq<PackedAssertion>, ChainFault>(acc@);
            assert(chain_reports(Ok::<Vec<PackedAssertion>, IndexError>(acc), g));
        }
        return Ok(acc);
    }
    if seen + 1 > expected_total / 16379 + 2 {
        let e = IndexError::CorruptOverflowChain("chain exceeds expected length");
        proof {
            let g = Err::<Seq<PackedAssertion>, ChainFault>(
                ChainFault::Corrupt("chain exceeds expected length"@),
            );
            assert(chain_reports(Err::<Vec<PackedAssertion>, IndexError>(e), g));
        }
        return Err(e);
    }
    let offset: u64 = (cur.block_no as u64) * 4096;
    let bytes = match device.read_at(offset, FORWARD_OVERFLOW_REGION_SIZE) {
        Ok(b) => b,
        Err(e) => {
            let e = IndexError::Storage(e);
            proof {
                let g = Err::<Seq<PackedAssertion>, ChainFault>(ChainFault::Bounds);
                assert(chain_reports(Err::<Vec<PackedAssertion>, IndexError>(e), g));
            }
            return Err(e);
        },
    };
    let header = BtreeNodeHeader::get(bytes.as_slice(), 0);
    proof {
        assert(header.image() == bytes@.subrange(0, 64));
    }
    if header.pre.kind != BtreeKind::ForwardOverflow.code() {
        let e = IndexError::CorruptOverflowChain("non-ForwardOverflow region in chain");
        proof {
            let g = Err::<Seq<PackedAssertion>, ChainFault>(
                ChainFault::Corrupt("non-ForwardOverflow region in chain"@),
            );
            assert(chain_reports(Err::<Vec<PackedAssertion>, IndexError>(e), g));
        }
        return Err(e);
    }
    let used: usize = header.payload_used as usize;
    if used % PACKED_ASSERTION_SIZE != 0 {
        let e = IndexError::CorruptOverflowChain(
            "payload_used not a multiple of PackedAssertion size",
        );
        proof {
            let g = Err::<Seq<PackedAssertion>, ChainFault>(
                ChainFault::Corrupt("payload_used not a multiple of PackedAssertion size"@),
            );
            assert(chain_reports(Err::<Vec<PackedAssertion>, IndexError>(e), g));
        }
        return Err(e);
    }
    let live: usize = used / PACKED_ASSERTION_SIZE;
    if live > FORWARD_OVERFLOW_REGION_CAPACITY {
        let e = IndexError::CorruptOverflowChain("payload_used exceeds region capacity");
        proof {
            let g = Err::<Seq<PackedAssertion>, ChainFault>(
                ChainFault::Corrupt("payload_used exceeds region capacity"@),
            );
            assert(chain_reports(Err::<Vec<PackedAssertion>, IndexError>(e), g));
        }
        return Err(e);
    }
    let mut part = get_packed(bytes.as_slice(), 64, live);
    let next = BlockRef::get(bytes.as_slice(), 262128);
    let ghost p = part@;
    proof {
        assert(region_holds(bytes@, header, p, next));
    }
    let ghost acc0 = acc@;
    let mut all = acc;
    all.append(&mut part);
    let r = read_chain_from(device, next, expected_total, seen + 1, all);
    proof {
        assert(all@ == acc0 + p);
        if exists|g: Result<Seq<PackedAssertion>, ChainFault>|
            #[trigger] chain_reports(r, g) && chain_gives(
                device.contents(),
                next,
                expected_total as nat,
                (seen + 1) as nat,
                all@,
                g,
            ) {
            let g = choose|g: Result<Seq<PackedAssertion>, ChainFault>|
                #[trigger] chain_reports(r, g) && chain_gives(
                    device.contents(),
                    next,
                    expected_total as nat,
                    (seen + 1) as nat,
                    all@,
                    g,
                );
            assert(chain_gives(
                device.contents(),
                cur,
                expected_total as nat,
                seen as nat,
                acc0,
                g,
            ));
        }
    }
    r
}

/// What the rest of a chain gives is determined.
pub proof fn lemma_chain_unique(
    contents: Seq<u8>,
    cur: BlockRef,
    expected: nat,
    seen: nat,
    acc: Seq<PackedAssertion>,
    a: Result<Seq<PackedAssertion>, ChainFault>,
    b: Result<Seq<PackedAssertion>, ChainFault>,
)
    requires
        chain_gives(contents, cur, expected, seen, acc, a),
        chain_gives(contents, cur, expected, seen, acc, b),
    ensures
        a == b,
    decreases expected / 16379 + 2 - seen,
{
    let at = cur.block_no as int * 4096;
    if !cur.is_null() && seen + 1 <= expected / 16379 + 2 && at + 262144 <= contents.len() {
        let bytes = contents.subrange(at, at + 262144);
        let g = choose|h: BtreeNodeHeader| region_step(contents, bytes, h, expected, seen, acc, a);
        assert(region_step(contents, bytes, g, expected, seen, acc, a)) by {
            let h0 = choose|h: BtreeNodeHeader|
                {
                    &&& #[trigger] h.image() == bytes.subrange(0, 64)
                    &&& region_rest(contents, bytes, h, expected, seen, acc, a)
                };
            assert(region_step(contents, bytes, h0, expected, seen, acc, a));
        }
        let k = choose|h: BtreeNodeHeader| region_step(contents, bytes, h, expected, seen, acc, b);
        assert(region_step(contents, bytes, k, expected, seen, acc, b)) by {
            let h0 = choose|h: BtreeNodeHeader|
                {
                    &&& #[trigger] h.image() == bytes.subrange(0, 64)
                    &&& region_rest(contents, bytes, h, expected, seen, acc, b)
                };
            assert(region_step(contents, bytes, h0, expected, seen, acc, b));
        }
        BtreeNodeHeader::image_injective(g, k);
        if g.pre.kind == BtreeKind::ForwardOverflow.number() && g.payload_used % 16 == 0
            && g.payload_used / 16 <= 16379 {
            let (p, m) = choose|p: Seq<PackedAssertion>, next: BlockRef|
                #[trigger] region_holds(bytes, g, p, next) && chain_gives(
                    contents,
                    next,
                    expected,
                    seen + 1,
                    acc + p,
                    a,
                );
            let (q, n) = choose|p: Seq<PackedAssertion>, next: BlockRef|
                #[trigger] region_holds(bytes, g, p, next) && chain_gives(
                    contents,
                    next,
                    expected,
                    seen + 1,
                    acc + p,
                    b,
                );
            lemma_packed_injective(p, q);
            BlockRef::image_injective(m, n);
            lemma_chain_unique(contents, m, expected, seen + 1, acc + p, a, b);
        }
    }
}

/// What follows once the header of a region is read.
spec fn region_rest(
    contents: Seq<u8>,
    bytes: Seq<u8>,
    h: BtreeNodeHeader,
    expected: nat,
    seen: nat,
    acc: Seq<PackedAssertion>,
    r: Result<Seq<PackedAssertion>, ChainFault>,
) -> bool {
    if h.pre.kind != BtreeKind::ForwardOverflow.number() {
        r == Err::<Seq<PackedAssertion>, ChainFault>(
            ChainFault::Corrupt("non-ForwardOverflow region in chain"@),
        )
    } else if h.payload_used % 16 != 0 {
        r == Err::<Seq<PackedAssertion>, ChainFault>(
            ChainFault::Corrupt("payload_used not a multiple of PackedAssertion size"@),
        )
    } else if h.payload_used / 16 > 16379 {
        r == Err::<Seq<PackedAssertion>, ChainFault>(
            ChainFault::Corrupt("payload_used exceeds region capacity"@),
        )
    } else {
        exists|p: Seq<PackedAssertion>, next: BlockRef|
            #[trigger] region_holds(bytes, h, p, next) && chain_gives(
                contents,
                next,
                expected,
                seen + 1,
                acc + p,
                r,
            )
    }
}

spec fn region_step(
    contents: Seq<u8>,
    bytes: Seq<u8>,
    h: BtreeNodeHeader,
    expected: nat,
    seen: nat,
    acc: Seq<PackedAssertion>,
    r: Result<Seq<PackedAssertion>, ChainFault>,
) -> bool {
    h.image() == bytes.subrange(0, 64) && region_rest(contents, bytes, h, expected, seen, acc, r)
}

/// Writing two groups is writing the one, then the other.
pub proof fn lemma_written_join(
    contents: Seq<u8>,
    area: int,
    a: Seq<SlotWrite>,
    b: Seq<SlotWrite>,
)
    ensures
        written(contents, area, a + b) == written(written(contents, area, a), area, b),
    decreases b.len(),
{
    if b.len() == 0 {
        assert(a + b =~= a);
    } else {
        assert((a + b).drop_last() =~= a + b.drop_last());
        lemma_written_join(contents, area, a, b.drop_last());
    }
}

/// A region has its full size.
pub proof fn lemma_region_len(bytes: Seq<u8>, p: Seq<PackedAssertion>, next: BlockRef)
    requires
        is_region(bytes, p, next),
    ensures
        bytes.len() == 262144,
{
    let h = choose|h: BtreeNodeHeader|
        #[trigger] region_header(h, p.len()) && bytes == h.image() + packed_images(
            p,
            p.len() as int,
        ) + zeros((262064 - 16 * p.len()) as nat) + next.image();
    h.image_len();
    lemma_packed_len(p, p.len() as int);
    next.image_len();
}

/// Laying out a chain within the device does not change its size.
pub proof fn lemma_laid_len(
    contents: Seq<u8>,
    writes: Seq<SlotWrite>,
    p: Seq<PackedAssertion>,
    area: int,
    slot: int,
)
    requires
        0 <= area,
        0 <= slot,
        lays_out(writes, p, area, slot),
        slot_offset(area, slot + chunk_count(p.len())) <= contents.len(),
    ensures
        written(contents, area, writes).len() == contents.len(),
{
    lemma_laid_prefix_len(contents, writes, p, area, slot, writes.len() as int);
    assert(writes.take(writes.len() as int) =~= writes);
}

proof fn lemma_laid_prefix_len(
    contents: Seq<u8>,
    writes: Seq<SlotWrite>,
    p: Seq<PackedAssertion>,
    area: int,
    slot: int,
    k: int,
)
    requires
        0 <= area,
        0 <= slot,
        0 <= k <= writes.len(),
        lays_out(writes, p, area, slot),
        slot_offset(area, slot + chunk_count(p.len())) <= contents.len(),
    ensures
        written(contents, area, writes.take(k)).len() == contents.len(),
    decreases k,
{
    if k > 0 {
        lemma_laid_prefix_len(contents, writes, p, area, slot, k - 1);
        let n = chunk_count(p.len()) as int;
        let w = writes[k - 1];
        assert(writes.take(k).drop_last() =~= writes.take(k - 1));
        assert(writes.take(k).last() == w);
        assert(w.slot == slot + (n - 1 - (k - 1)));
        lemma_region_len(
            w.bytes,
            chunk(p, n - 1 - (k - 1)),
            link_after(area, slot, n, n - 1 - (k - 1)),
        );
        read_after_write(
            written(contents, area, writes.take(k - 1)),
            slot_offset(area, w.slot),
            w.bytes,
        );
    }
}

} // verus!
