//! Regions of a device, each of which holds a tree node.
//!
//! A region begins with a block that holds the header of the node; the runs
//! follow. How the entries of a run are written differs from tree to tree, so
//! the caller gives the two functions that turn runs into bytes and back.

use vstd::prelude::*;
use crate::bytes::{put_bytes, put_zeros, same_bytes, zeros};
use crate::storage::block::{same_magic, BtreeKind, BtreeNodeHeader, BLOCK_PREAMBLE_MAGIC_BTREE};
use crate::storage::device::{overwritten, read_after_write, BlockDevice, StorageError};
use crate::storage::node::{entries_of, heads, LoadedNode, SortedRun, BTREE_NODE_FORMAT_VERSION};

verus! {

/// Bytes by which a region that was written is told from a blank one: a
/// written region begins with the magic of its header.
pub const REGION_PROBE_LEN: usize = 8;

/// Where the runs begin in a region.
pub const REGION_RUNS_OFFSET: u64 = 4096;

/// Whether the region at `offset` was never written.
pub fn is_blank_region<D: BlockDevice>(device: &D, offset: u64) -> (r: Result<bool, StorageError>)
    ensures
        match r {
            Ok(blank) => {
                &&& offset + 8 <= device.contents().len()
                &&& blank == (device.contents().subrange(offset as int, offset + 8) == zeros(8))
            },
            Err(_) => device.reliable() ==> offset + 8 > device.contents().len(),
        },
{
    let probe = match device.read_at(offset, REGION_PROBE_LEN) {
        Ok(b) => b,
        Err(e) => {
            return Err(e);
        },
    };
    let blank: [u8; 8] = [0; 8];
    proof {
        assert(blank@ =~= zeros(8));
    }
    Ok(same_bytes(probe.as_slice(), blank.as_slice()))
}

/// The header with the length of the runs set.
pub open spec fn with_length(h: BtreeNodeHeader, len: nat) -> BtreeNodeHeader {
    BtreeNodeHeader { payload_used: len as u32, ..h }
}

/// The bytes of a region: the header in a block of its own, then the runs.
pub open spec fn region_image(h: BtreeNodeHeader, runs: Seq<u8>) -> Seq<u8> {
    with_length(h, runs.len()).image() + zeros(4032) + runs
}

/// What is wrong with a header, if anything: the magic, the kind where one is
/// expected, or the format version.
pub open spec fn header_fault(h: BtreeNodeHeader, kind: Option<BtreeKind>) -> Option<StorageError> {
    if h.pre.magic@ != BLOCK_PREAMBLE_MAGIC_BTREE@ {
        Some(
            StorageError::InvalidMagic {
                expected: BLOCK_PREAMBLE_MAGIC_BTREE,
                actual: h.pre.magic,
            },
        )
    } else if kind is Some && h.pre.kind != kind->Some_0.number() {
        Some(StorageError::InvalidBtreeKind(h.pre.kind))
    } else if h.pre.format_version != BTREE_NODE_FORMAT_VERSION {
        Some(StorageError::UnsupportedFormatVersion(h.pre.format_version as u32))
    } else {
        None
    }
}

/// Nothing is wrong with the header.
fn check_header(h: &BtreeNodeHeader, kind: Option<BtreeKind>) -> (r: Result<(), StorageError>)
    ensures
        match r {
            Ok(_) => header_fault(*h, kind) is None,
            Err(e) => header_fault(*h, kind) == Some(e),
        },
{
    if !same_magic(&h.pre.magic, &BLOCK_PREAMBLE_MAGIC_BTREE) {
        return Err(
            StorageError::InvalidMagic {
                expected: BLOCK_PREAMBLE_MAGIC_BTREE,
                actual: h.pre.magic,
            },
        );
    }
    match kind {
        Some(k) => {
            if h.pre.kind != k.code() {
                return Err(StorageError::InvalidBtreeKind(h.pre.kind));
            }
        },
        None => {},
    }
    if h.pre.format_version != BTREE_NODE_FORMAT_VERSION {
        return Err(StorageError::UnsupportedFormatVersion(h.pre.format_version as u32));
    }
    Ok(())
}

/// The header that `bytes` hold.
pub open spec fn header_of(bytes: Seq<u8>) -> BtreeNodeHeader {
    choose|h: BtreeNodeHeader| #[trigger] h.image() == bytes
}

proof fn lemma_header_of(h: BtreeNodeHeader)
    ensures
        header_of(h.image()) == h,
{
    BtreeNodeHeader::image_injective(header_of(h.image()), h);
}

/// The bytes that a node takes up in its region, as far as they can be counted.
pub open spec fn bytes_needed(runs: nat) -> usize {
    if runs + 4096 > usize::MAX {
        usize::MAX
    } else {
        (runs + 4096) as usize
    }
}

/// What storing a node comes to: `encoded` is what the caller's function made
/// of its runs. A node that does not fit into its region is not written.
pub open spec fn node_stored(
    before: Seq<u8>,
    after: Seq<u8>,
    reliable: bool,
    offset: int,
    header: BtreeNodeHeader,
    encoded: Result<Vec<u8>, StorageError>,
    r: Result<(), StorageError>,
) -> bool {
    match encoded {
        Err(e) => r == Err::<(), StorageError>(e) && after == before,
        Ok(b) => if 4096 + b@.len() > 262144 {
            &&& r == Err::<(), StorageError>(
                StorageError::RegionFull { needed: bytes_needed(b@.len()), size: 262144 },
            )
            &&& after == before
        } else {
            match r {
                Ok(_) => {
                    &&& offset + 4096 + b@.len() <= before.len()
                    &&& after == overwritten(before, offset, region_image(header, b@))
                },
                Err(_) => reliable ==> offset + 4096 + b@.len() > before.len() && after == before,
            }
        },
    }
}

/// Write a node to its region of 256 KiB. `encode` turns its runs into bytes.
pub fn store_node<D: BlockDevice, K, V, F: Fn(&Vec<SortedRun<K, V>>) -> Result<
    Vec<u8>,
    StorageError,
>>(device: &mut D, offset: u64, node: &LoadedNode<K, V>, encode: F) -> (r: Result<
    (),
    StorageError,
>)
    requires
        encode.requires((&node.sorted_runs,)),
    ensures
        old(device).reliable() ==> final(device).reliable(),
        exists|encoded: Result<Vec<u8>, StorageError>|
            #[trigger] encode.ensures((&node.sorted_runs,), encoded) && node_stored(
                old(device).contents(),
                final(device).contents(),
                old(device).reliable(),
                offset as int,
                node.header,
                encoded,
                r,
            ),
{
    let runs = match encode(&node.sorted_runs) {
        Ok(b) => b,
        Err(e) => {
            return Err(e);
        },
    };
    if runs.len() > 258048 {
        let needed: usize = if runs.len() > usize::MAX - 4096 {
            usize::MAX
        } else {
            runs.len() + 4096
        };
        return Err(StorageError::RegionFull { needed, size: 262144 });
    }
    let mut header = node.header;
    header.payload_used = runs.len() as u32;
    let mut bytes: Vec<u8> = Vec::new();
    header.put(&mut bytes);
    put_zeros(&mut bytes, 4032);
    put_bytes(&mut bytes, runs.as_slice());
    proof {
        node.header.image_len();
        header.image_len();
        assert(header == with_length(node.header, runs@.len()));
        assert(bytes@ =~= region_image(node.header, runs@));
        assert(bytes@.len() == 4096 + runs@.len());
    }
    let r = device.write_at(offset, bytes.as_slice());
    r
}

/// What loading a node comes to: nothing where the region is blank; the fault
/// of the header where it has one; else what the caller's function made of the
/// bytes of the runs.
pub open spec fn node_loaded<K, V, G: Fn(Vec<u8>) -> Result<Vec<SortedRun<K, V>>, StorageError>>(
    contents: Seq<u8>,
    reliable: bool,
    offset: int,
    kind: Option<BtreeKind>,
    decode: G,
    r: Result<Option<LoadedNode<K, V>>, StorageError>,
) -> bool {
    ||| r is Err && !reliable
    ||| if offset + 8 > contents.len() {
        r is Err
    } else if contents.subrange(offset, offset + 8) == zeros(8) {
        r is Ok && r->Ok_0 is None
    } else if offset + 64 > contents.len() {
        r is Err
    } else {
        let h = header_of(contents.subrange(offset, offset + 64));
        match header_fault(h, kind) {
            Some(e) => r is Err && r->Err_0 == e,
            None => if offset + 4096 > u64::MAX || offset + 4096 + h.payload_used
                > contents.len() {
                r is Err
            } else {
                exists|bytes: Vec<u8>, runs: Result<Vec<SortedRun<K, V>>, StorageError>|
                    {
                        &&& #[trigger] decode.ensures((bytes,), runs)
                        &&& bytes@ == contents.subrange(
                            offset + 4096,
                            offset + 4096 + h.payload_used,
                        )
                        &&& match runs {
                            Ok(v) => r is Ok && r->Ok_0 is Some && r->Ok_0->Some_0.header == h
                                && r->Ok_0->Some_0.sorted_runs == v,
                            Err(e) => r is Err && r->Err_0 == e,
                        }
                    }
            },
        }
    }
}

/// The node in the region at `offset`, if the region was ever written.
/// `decode` turns the bytes of the runs into runs.
pub fn load_node<D: BlockDevice, K, V, G: Fn(Vec<u8>) -> Result<
    Vec<SortedRun<K, V>>,
    StorageError,
>>(device: &D, offset: u64, kind: Option<BtreeKind>, decode: G) -> (r: Result<
    Option<LoadedNode<K, V>>,
    StorageError,
>)
    requires
        forall|bytes: Vec<u8>| decode.requires((bytes,)),
    ensures
        node_loaded(device.contents(), device.reliable(), offset as int, kind, decode, r),
{
    match is_blank_region(device, offset) {
        Ok(true) => {
            return Ok(None);
        },
        Ok(false) => {},
        Err(e) => {
            return Err(e);
        },
    }
    let head = match device.read_at(offset, 64) {
        Ok(b) => b,
        Err(e) => {
            return Err(e);
        },
    };
    let header = BtreeNodeHeader::get(head.as_slice(), 0);
    proof {
        assert(head@.subrange(0, 64) =~= head@);
        lemma_header_of(header);
    }
    match check_header(&header, kind) {
        Ok(_) => {},
        Err(e) => {
            return Err(e);
        },
    }
    if offset > u64::MAX - REGION_RUNS_OFFSET {
        return Err(StorageError::OutOfBounds { offset, len: 4096 });
    }
    let bytes = match device.read_at(offset + REGION_RUNS_OFFSET, header.payload_used as usize) {
        Ok(b) => b,
        Err(e) => {
            return Err(e);
        },
    };
    match decode(bytes) {
        Ok(sorted_runs) => Ok(Some(LoadedNode { header, sorted_runs })),
        Err(e) => Err(e),
    }
}

/// The two functions belong together: what one makes of some runs the other
/// turns into runs with entries that are the same in the sense of `same`.
pub open spec fn codec_fits<
    K,
    V,
    F: Fn(&Vec<SortedRun<K, V>>) -> Result<Vec<u8>, StorageError>,
    G: Fn(Vec<u8>) -> Result<Vec<SortedRun<K, V>>, StorageError>,
>(encode: F, decode: G, same: spec_fn(Seq<(K, V)>, Seq<(K, V)>) -> bool) -> bool {
    forall|
        runs: &Vec<SortedRun<K, V>>,
        bytes: Vec<u8>,
        copy: Vec<u8>,
        back: Result<Vec<SortedRun<K, V>>, StorageError>,
    |
        #[trigger] encode.ensures((runs,), Ok(bytes)) && #[trigger] decode.ensures((copy,), back)
            && copy@ == bytes@ ==> back is Ok && same(entries_of(runs@), entries_of(back->Ok_0@))
}

/// A node that was stored is loaded with the entries that it had, wherever
/// else the device was written to since.
pub proof fn store_then_load<
    K,
    V,
    F: Fn(&Vec<SortedRun<K, V>>) -> Result<Vec<u8>, StorageError>,
    G: Fn(Vec<u8>) -> Result<Vec<SortedRun<K, V>>, StorageError>,
>(
    contents: Seq<u8>,
    offset: int,
    node: LoadedNode<K, V>,
    kind: BtreeKind,
    expected: Option<BtreeKind>,
    encode: F,
    bytes: Vec<u8>,
    decode: G,
    same: spec_fn(Seq<(K, V)>, Seq<(K, V)>) -> bool,
    r: Result<Option<LoadedNode<K, V>>, StorageError>,
)
    requires
        heads(node.header, kind, 18),
        expected is None || expected == Some(kind),
        codec_fits(encode, decode, same),
        encode.ensures((&node.sorted_runs,), Ok(bytes)),
        4096 + bytes@.len() <= 262144,
        0 <= offset <= u64::MAX - 4096,
        offset + 4096 + bytes@.len() <= contents.len(),
        contents.subrange(offset, offset + 4096 + bytes@.len()) == region_image(
            node.header,
            bytes@,
        ),
        node_loaded(contents, true, offset, expected, decode, r),
    ensures
        r is Ok,
        r->Ok_0 is Some,
        same(node.entries(), r->Ok_0->Some_0.entries()),
{
    let h = with_length(node.header, bytes@.len());
    let image = region_image(node.header, bytes@);
    h.image_len();
    assert(image.len() == 4096 + bytes@.len());
    assert(contents.subrange(offset, offset + 64) =~= h.image()) by {
        assert(image.subrange(0, 64) =~= h.image());
        assert(contents.subrange(offset, offset + 64) =~= image.subrange(0, 64));
    }
    lemma_header_of(h);
    assert(h.payload_used == bytes@.len());
    assert(contents.subrange(offset + 4096, offset + 4096 + bytes@.len()) =~= bytes@) by {
        assert(image.subrange(4096, image.len() as int) =~= bytes@);
        assert(contents.subrange(offset + 4096, offset + 4096 + bytes@.len()) =~= image.subrange(
            4096,
            image.len() as int,
        ));
    }
    assert(contents.subrange(offset, offset + 8) != zeros(8)) by {
        let first = contents.subrange(offset, offset + 8);
        h.pre.image_len();
        assert(first[0] == h.image()[0]);
        assert(h.image()[0] == h.pre.image()[0]);
        assert(h.pre.image()[0] == h.pre.magic@[0]);
        assert(h.pre.magic@[0] == 77);
        assert(zeros(8)[0] == 0);
    }
}

/// The same right after the node was stored.
pub proof fn stored_region_loads<
    K,
    V,
    F: Fn(&Vec<SortedRun<K, V>>) -> Result<Vec<u8>, StorageError>,
    G: Fn(Vec<u8>) -> Result<Vec<SortedRun<K, V>>, StorageError>,
>(
    before: Seq<u8>,
    after: Seq<u8>,
    offset: int,
    node: LoadedNode<K, V>,
    kind: BtreeKind,
    expected: Option<BtreeKind>,
    encode: F,
    encoded: Result<Vec<u8>, StorageError>,
    decode: G,
    same: spec_fn(Seq<(K, V)>, Seq<(K, V)>) -> bool,
    r: Result<Option<LoadedNode<K, V>>, StorageError>,
)
    requires
        heads(node.header, kind, 18),
        expected is None || expected == Some(kind),
        codec_fits(encode, decode, same),
        encode.ensures((&node.sorted_runs,), encoded),
        0 <= offset <= u64::MAX - 4096,
        node_stored(before, after, true, offset, node.header, encoded, Ok(())),
        node_loaded(after, true, offset, expected, decode, r),
    ensures
        r is Ok,
        r->Ok_0 is Some,
        same(node.entries(), r->Ok_0->Some_0.entries()),
{
    let bytes = encoded->Ok_0;
    let image = region_image(node.header, bytes@);
    with_length(node.header, bytes@.len()).image_len();
    assert(image.len() == 4096 + bytes@.len());
    read_after_write(before, offset, image);
    store_then_load(after, offset, node, kind, expected, encode, bytes, decode, same, r);
}

} // verus!
