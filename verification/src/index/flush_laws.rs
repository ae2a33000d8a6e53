//! What flushing an index with its directory and loading it give together.

use vstd::prelude::*;
use crate::bytes::zeros;
use crate::index::bitmap_chain::{lemma_page_images_len, page_images, page_offset};
use crate::index::chain_laws::{blanked, flush_then_load, in_slots, lemma_all_in_slots};
use crate::index::error::IndexError;
use crate::index::forward_index::{all_laid, forward_laid, forward_read, packed_lists,
    ForwardIndex, ForwardIndexKey, ForwardIndexValue};
use crate::index::overflow_chain::{slot_offset, written, SlotWrite};
use crate::index::tag_bitmap_page::TagBitmapPage;
use crate::index::tag_index::{TagIndex, TagIndexKey, TagIndexValue};
use crate::index::tag_region::{area_holds, directory_of, tag_flush_then_load, tags_laid,
    tags_read};
use crate::index::tag_store::StoreModel;
use crate::storage::block::BtreeKind;
use crate::storage::device::{overwritten, StorageError};
use crate::storage::node::{LoadedNode, SortedRun};
use crate::storage::region::{codec_fits, node_loaded, node_stored, region_image,
    stored_region_loads, with_length};
use crate::types::assertion::{AssertionModel, TagOrigin};
use crate::types::id::TagId;

verus! {

/// Two writes to different places can be made in either order.
pub proof fn writes_elsewhere_commute(c: Seq<u8>, a: int, x: Seq<u8>, b: int, y: Seq<u8>)
    requires
        0 <= a,
        0 <= b,
        a + x.len() <= c.len(),
        b + y.len() <= c.len(),
        a + x.len() <= b || b + y.len() <= a,
    ensures
        overwritten(overwritten(c, a, x), b, y) == overwritten(overwritten(c, b, y), a, x),
{
    assert(overwritten(overwritten(c, a, x), b, y) =~= overwritten(overwritten(c, b, y), a, x));
}

/// The chains could have been written after what is written elsewhere.
proof fn lemma_written_commutes(
    c: Seq<u8>,
    area: int,
    writes: Seq<SlotWrite>,
    total: int,
    dir: int,
    image: Seq<u8>,
)
    requires
        0 <= area,
        0 <= dir,
        in_slots(writes, total),
        slot_offset(area, total) <= c.len() || writes.len() == 0,
        dir + image.len() <= c.len(),
        writes.len() == 0 || dir + image.len() <= area || slot_offset(area, total) <= dir,
    ensures
        written(c, area, writes).len() == c.len(),
        overwritten(written(c, area, writes), dir, image) == written(
            overwritten(c, dir, image),
            area,
            writes,
        ),
    decreases writes.len(),
{
    if writes.len() > 0 {
        let front = writes.drop_last();
        assert forall|i: int| 0 <= i < front.len() implies 0 <= (#[trigger] front[i]).slot < total
            && front[i].bytes.len() == 262144 by {
            assert(front[i] == writes[i]);
        }
        assert forall|i: int, j: int| 0 <= i < j < front.len() implies (#[trigger] front[i]).slot
            != (#[trigger] front[j]).slot by {
            assert(front[i] == writes[i] && front[j] == writes[j]);
        }
        lemma_written_commutes(c, area, front, total, dir, image);
        let w = writes.last();
        assert(w == writes[writes.len() - 1]);
        let at = slot_offset(area, w.slot);
        assert(at + 262144 <= slot_offset(area, total)) by (nonlinear_arith)
            requires
                at == area + w.slot * 262144,
                slot_offset(area, total) == area + total * 262144,
                w.slot < total,
        ;
        assert(at >= area) by (nonlinear_arith)
            requires
                at == area + w.slot * 262144,
                w.slot >= 0,
        ;
        writes_elsewhere_commute(written(c, area, front), at, w.bytes, dir, image);
    }
}

/// Directories of a forward index with the same keys and values.
pub open spec fn same_forward_entries() -> spec_fn(
    Seq<(ForwardIndexKey, ForwardIndexValue)>,
    Seq<(ForwardIndexKey, ForwardIndexValue)>,
) -> bool {
    |
        a: Seq<(ForwardIndexKey, ForwardIndexValue)>,
        b: Seq<(ForwardIndexKey, ForwardIndexValue)>,
    |
        a.len() == b.len() && forall|i: int|
            0 <= i < a.len() ==> (#[trigger] a[i]).0 == b[i].0 && a[i].1.0@ == b[i].1.0@
}

/// A forward index that was flushed is loaded again: each object with its
/// assertions in their order, the values of attributes replaced by zero. Where
/// there are chains, the directory does not overlap them, they start at a
/// block, and their block numbers fit into a reference.
pub proof fn forward_flush_then_load<
    F: Fn(&Vec<SortedRun<ForwardIndexKey, ForwardIndexValue>>) -> Result<Vec<u8>, StorageError>,
    G: Fn(Vec<u8>) -> Result<Vec<SortedRun<ForwardIndexKey, ForwardIndexValue>>, StorageError>,
>(
    index: &ForwardIndex,
    before: Seq<u8>,
    mid: Seq<u8>,
    after: Seq<u8>,
    dir: int,
    area: int,
    cap: int,
    node: LoadedNode<ForwardIndexKey, ForwardIndexValue>,
    used: usize,
    encode: F,
    encoded: Result<Vec<u8>, StorageError>,
    decode: G,
    read: Result<Option<LoadedNode<ForwardIndexKey, ForwardIndexValue>>, StorageError>,
    r: Result<Map<u64, Seq<(AssertionModel, TagOrigin)>>, IndexError>,
)
    requires
        index.wf(),
        0 <= area,
        0 <= dir <= u64::MAX - 4096,
        used > 0 ==> area % 4096 == 0 && slot_offset(area, used as int) <= 0x1000_0000_0000,
        used == 0 || dir + 262144 <= area || slot_offset(area, used as int) <= dir,
        codec_fits(encode, decode, same_forward_entries()),
        forward_laid(index.items(), before, mid, true, area, cap, Ok((node, used))),
        encode.ensures((&node.sorted_runs,), encoded),
        node_stored(mid, after, true, dir, node.header, encoded, Ok(())),
        node_loaded(after, true, dir, Some(BtreeKind::Forward), decode, read),
        forward_read(after, true, read, r),
    ensures
        r == Ok::<Map<u64, Seq<(AssertionModel, TagOrigin)>>, IndexError>(
            index@.map_values(|l: Seq<(AssertionModel, TagOrigin)>| blanked(l)),
        ),
{
    stored_region_loads(
        mid,
        after,
        dir,
        node,
        BtreeKind::Forward,
        Some(BtreeKind::Forward),
        encode,
        encoded,
        decode,
        same_forward_entries(),
        read,
    );
    let ls = packed_lists(index.items());
    let n = index.items().len() as int;
    let entries = read->Ok_0->Some_0.entries();
    let writes = choose|writes: Seq<SlotWrite>|
        #[trigger] all_laid(writes, ls, area, n) && mid == written(before, area, writes);
    lemma_all_in_slots(writes, ls, area, n);
    let image = region_image(node.header, encoded->Ok_0@);
    with_length(node.header, encoded->Ok_0@.len()).image_len();
    assert(image.len() <= 262144);
    lemma_mid_len(before, area, writes, used as int);
    lemma_written_commutes(before, area, writes, used as int, dir, image);
    let start = overwritten(before, dir, image);
    assert(start.len() == before.len());
    assert forall|k: int| 0 <= k < entries.len() implies (#[trigger] entries[k]).0.oid
        == index.items()[k].0 && entries[k].1.0@ == node.entries()[k].1.0@ by {
        assert(node.entries()[k].0 == entries[k].0);
    }
    flush_then_load(index, start, writes, entries, area, cap);
}

/// A directory region that was never written is loaded as the empty index.
pub proof fn blank_forward_region_loads<
    G: Fn(Vec<u8>) -> Result<Vec<SortedRun<ForwardIndexKey, ForwardIndexValue>>, StorageError>,
>(
    contents: Seq<u8>,
    dir: int,
    decode: G,
    read: Result<Option<LoadedNode<ForwardIndexKey, ForwardIndexValue>>, StorageError>,
    r: Result<Map<u64, Seq<(AssertionModel, TagOrigin)>>, IndexError>,
)
    requires
        0 <= dir,
        dir + 8 <= contents.len(),
        contents.subrange(dir, dir + 8) == zeros(8),
        node_loaded(contents, true, dir, Some(BtreeKind::Forward), decode, read),
        forward_read(contents, true, read, r),
    ensures
        r == Ok::<Map<u64, Seq<(AssertionModel, TagOrigin)>>, IndexError>(Map::empty()),
{
}

/// Writes within the device leave its length.
proof fn lemma_mid_len(c: Seq<u8>, area: int, writes: Seq<SlotWrite>, total: int)
    requires
        0 <= area,
        in_slots(writes, total),
        slot_offset(area, total) <= c.len() || writes.len() == 0,
    ensures
        written(c, area, writes).len() == c.len(),
{
    if writes.len() > 0 {
        lemma_written_commutes(c, area, writes, total, 0, Seq::empty());
    }
}

/// Directories of a tag index with the same keys and values.
pub open spec fn same_tag_entries() -> spec_fn(
    Seq<(TagIndexKey, TagIndexValue)>,
    Seq<(TagIndexKey, TagIndexValue)>,
) -> bool {
    |a: Seq<(TagIndexKey, TagIndexValue)>, b: Seq<(TagIndexKey, TagIndexValue)>|
        a.len() == b.len() && forall|i: int|
            0 <= i < a.len() ==> (#[trigger] a[i]).0 == b[i].0 && a[i].1.image() == b[i].1.image()
}

/// A tag index that was flushed is loaded again as it was. The directory does
/// not overlap the bitmaps, these start at a block, and their block numbers fit
/// into a reference.
pub proof fn tags_flush_then_load<
    F: Fn(&Vec<SortedRun<TagIndexKey, TagIndexValue>>) -> Result<Vec<u8>, StorageError>,
    G: Fn(Vec<u8>) -> Result<Vec<SortedRun<TagIndexKey, TagIndexValue>>, StorageError>,
>(
    index: &TagIndex,
    before: Seq<u8>,
    mid: Seq<u8>,
    after: Seq<u8>,
    dir: int,
    area: int,
    cap: usize,
    node: LoadedNode<TagIndexKey, TagIndexValue>,
    used: usize,
    encode: F,
    encoded: Result<Vec<u8>, StorageError>,
    decode: G,
    read: Result<Option<LoadedNode<TagIndexKey, TagIndexValue>>, StorageError>,
    r: Result<Map<TagId, StoreModel>, IndexError>,
)
    requires
        index.wf(),
        0 <= area,
        0 <= dir <= u64::MAX - 4096,
        used > 0 ==> area % 4096 == 0 && page_offset(area, used as int) <= 0x1000_0000_0000,
        used == 0 || dir + 262144 <= area || page_offset(area, used as int) <= dir,
        codec_fits(encode, decode, same_tag_entries()),
        tags_laid(index.items(), before, mid, true, area, cap, Ok((node, used))),
        encode.ensures((&node.sorted_runs,), encoded),
        node_stored(mid, after, true, dir, node.header, encoded, Ok(())),
        node_loaded(after, true, dir, None, decode, read),
        tags_read(after, true, read, r),
    ensures
        r == Ok::<Map<TagId, StoreModel>, IndexError>(index@),
{
    stored_region_loads(
        mid,
        after,
        dir,
        node,
        BtreeKind::TagDirectory,
        None,
        encode,
        encoded,
        decode,
        same_tag_entries(),
        read,
    );
    let items = index.items();
    let entries = read->Ok_0->Some_0.entries();
    let (images, pages) = choose|images: Seq<Seq<u8>>, pages: Seq<TagBitmapPage>|
        #[trigger] area_holds(before, mid, items, images, pages, area) && used == pages.len()
            && images.len() == items.len() && directory_of(node.entries(), items, images, area);
    let image = region_image(node.header, encoded->Ok_0@);
    with_length(node.header, encoded->Ok_0@.len()).image_len();
    assert(image.len() <= 262144);
    assert(entries =~= node.entries()) by {
        assert forall|i: int| 0 <= i < entries.len() implies entries[i] == node.entries()[i] by {
            assert(node.entries()[i].0 == entries[i].0);
            TagIndexValue::image_injective(node.entries()[i].1, entries[i].1);
        }
    }
    let start = overwritten(before, dir, image);
    assert(area_holds(start, after, items, images, pages, area)) by {
        if pages.len() > 0 {
            lemma_page_images_len(pages, 0);
            writes_elsewhere_commute(before, area, page_images(pages, 0), dir, image);
        }
    }
    tag_flush_then_load(index, start, after, images, pages, entries, area, r);
}

} // verus!
