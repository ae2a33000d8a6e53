//! What is written on a device, and what is read back from it.

use vstd::prelude::*;
use crate::bytes::{be, le, put_be, put_le};
use crate::storage::block::{BlockKind, BtreeKind};
use crate::storage::device::{read_after_write, BlockDevice, StorageError};
use crate::storage::node::{heads, LoadedNode, SortedRun};
use crate::storage::region::{codec_fits, load_node, node_stored, region_image, store_node,
    stored_region_loads, with_length};

verus! {

/// A word is written with its low byte first: the remainder by 256, and behind
/// it what is left of the word in one byte less.
pub proof fn low_bytes_come_first(
    out: &mut Vec<u8>,
    rest: &mut Vec<u8>,
    x: u64,
    n: usize,
    y: u64,
    m: usize,
)
    requires
        old(rest)@.len() == 0,
        call_ensures(put_le, (out, x, n), ()),
        call_ensures(put_le, (rest, y, m), ()),
    ensures
        n == 0 ==> final(out)@ == old(out)@,
        n == m + 1 && y == x / 256 ==> final(out)@ == old(out)@.push((x % 256) as u8)
            + final(rest)@,
{
    assert(final(rest)@ =~= le(y as nat, m as nat));
    if n == m + 1 && y == x / 256 {
        assert(le(x as nat, n as nat) == seq![(x as nat % 256) as u8] + le(
            x as nat / 256,
            m as nat,
        ));
        assert(final(out)@ =~= old(out)@.push((x % 256) as u8) + final(rest)@);
    }
}

/// In the other order the low byte comes last.
pub proof fn low_bytes_come_last(
    out: &mut Vec<u8>,
    rest: &mut Vec<u8>,
    x: u64,
    n: usize,
    y: u64,
    m: usize,
)
    requires
        old(out)@ == old(rest)@,
        call_ensures(put_be, (out, x, n), ()),
        call_ensures(put_be, (rest, y, m), ()),
    ensures
        n == 0 ==> final(out)@ == old(out)@,
        n == m + 1 && y == x / 256 ==> final(out)@ == final(rest)@.push((x % 256) as u8),
{
    if n == m + 1 && y == x / 256 {
        assert(be(x as nat, n as nat) == be(x as nat / 256, m as nat).push(
            (x as nat % 256) as u8,
        ));
        assert(final(out)@ =~= final(rest)@.push((x % 256) as u8));
    }
}

/// Blocks and trees of different kinds have different codes, none of them zero.
pub proof fn kinds_have_codes_of_their_own(
    a: BlockKind,
    b: BlockKind,
    x: u16,
    y: u16,
    c: BtreeKind,
    d: BtreeKind,
    z: u16,
    w: u16,
)
    requires
        call_ensures(BlockKind::code, (&a,), x),
        call_ensures(BlockKind::code, (&b,), y),
        call_ensures(BtreeKind::code, (&c,), z),
        call_ensures(BtreeKind::code, (&d,), w),
    ensures
        x != 0,
        x == y <==> a == b,
        z != 0,
        z == w <==> c == d,
{
}

/// What was stored in a region is loaded from it, and loaded as nothing else:
/// asked for as a tree of another kind, it is refused.
pub proof fn stored_node_is_loaded<
    D: BlockDevice,
    K,
    V,
    F: Fn(&Vec<SortedRun<K, V>>) -> Result<Vec<u8>, StorageError>,
    G: Fn(Vec<u8>) -> Result<Vec<SortedRun<K, V>>, StorageError>,
>(
    device: &mut D,
    offset: u64,
    node: LoadedNode<K, V>,
    kind: BtreeKind,
    other: BtreeKind,
    encode: F,
    decode: G,
    same: spec_fn(Seq<(K, V)>, Seq<(K, V)>) -> bool,
    r: Result<Option<LoadedNode<K, V>>, StorageError>,
    refused: Result<Option<LoadedNode<K, V>>, StorageError>,
)
    requires
        old(device).reliable(),
        heads(node.header, kind, 18),
        other != kind,
        codec_fits(encode, decode, same),
        offset <= u64::MAX - 4096,
        call_ensures(store_node::<D, K, V, F>, (device, offset, &node, encode), Ok(())),
        call_ensures(
            load_node::<D, K, V, G>,
            (&*final(device), offset, Some(kind), decode),
            r,
        ),
        call_ensures(
            load_node::<D, K, V, G>,
            (&*final(device), offset, Some(other), decode),
            refused,
        ),
    ensures
        r is Ok,
        r->Ok_0 is Some,
        same(node.entries(), r->Ok_0->Some_0.entries()),
        refused is Err,
{
    let before = old(device).contents();
    let after = final(device).contents();
    let encoded = choose|encoded: Result<Vec<u8>, StorageError>|
        #[trigger] encode.ensures((&node.sorted_runs,), encoded) && node_stored(
            before,
            after,
            old(device).reliable(),
            offset as int,
            node.header,
            encoded,
            Ok(()),
        );
    stored_region_loads(
        before,
        after,
        offset as int,
        node,
        kind,
        Some(kind),
        encode,
        encoded,
        decode,
        same,
        r,
    );
    let bytes = encoded->Ok_0;
    let o = offset as int;
    let image = region_image(node.header, bytes@);
    let h = with_length(node.header, bytes@.len());
    h.image_len();
    h.pre.image_len();
    read_after_write(before, o, image);
    assert(after.subrange(o, o + 64) =~= image.subrange(0, 64));
    assert(after.subrange(o, o + 64) =~= h.image());
    let back = crate::storage::region::header_of(after.subrange(o, o + 64));
    assert(back.image() == h.image());
    crate::storage::block::BtreeNodeHeader::image_injective(back, h);
    assert(image[0] == h.pre.magic@[0]);
    assert(after[o] == image[0]);
    assert(after.subrange(o, o + 8)[0] == after[o]);
    assert(after.subrange(o, o + 8) != crate::bytes::zeros(8));
}

} // verus!
