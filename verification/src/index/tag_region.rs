//! The tag index on disk: a directory node and an area of bitmap pages.

use vstd::prelude::*;
use crate::bytes::zeros;
use crate::index::bitmap::{bitmap_bytes, bitmap_decoded, bitmap_len, bitmap_set};
use crate::index::bitmap_chain::{chain_outcome, chain_round_trip, is_chain,
    lemma_overwritten_back, lemma_page_images_at, lemma_page_images_join, lemma_page_images_len,
    page_count, page_images, page_offset, pages_beyond, read_bitmap_chain, write_bitmap_chain};
use crate::index::error::IndexError;
use crate::index::overflow_chain::{counted, ref_at};
use crate::index::tag_bitmap_page::{page_error_text, TagBitmapPage, TagBitmapPageError};
use crate::index::tag_index::{TagIndex, TagIndexKey, TagIndexValue, REGION_SIZE_LOG2};
use crate::index::tag_store::{StoreModel, TagStore, TagStoreKind};
use crate::storage::block::{BlockRef, BtreeKind};
use crate::storage::device::{overwritten, BlockDevice, StorageError};
use crate::storage::node::{LoadedNode, SortedRun};
use crate::storage::region::{load_node, node_loaded, node_stored, store_node};
use crate::types::id::TagId;

verus! {

/// How many pages the first `k` bitmaps take.
pub open spec fn pages_before(images: Seq<Seq<u8>>, k: int) -> nat
    decreases k,
{
    if k <= 0 {
        0
    } else {
        pages_before(images, k - 1) + page_count(images[k - 1])
    }
}

/// `images` are serialised forms of the members of the first tags.
pub open spec fn images_of(images: Seq<Seq<u8>>, items: Seq<(TagId, TagStore)>) -> bool {
    &&& images.len() <= items.len()
    &&& forall|i: int|
        0 <= i < images.len() ==> (#[trigger] images[i]) == bitmap_bytes(items[i].1.bitmap())
            && images[i].len() > 0 && bitmap_decoded(images[i]) == Some(items[i].1@.members())
}

/// `pages` are the bitmaps as chains, one after the other.
pub open spec fn all_chained(
    pages: Seq<TagBitmapPage>,
    images: Seq<Seq<u8>>,
    area: int,
) -> bool {
    &&& pages.len() == pages_before(images, images.len() as int)
    &&& forall|i: int|
        0 <= i < images.len() ==> is_chain(
            pages.subrange(pages_before(images, i) as int, pages_before(images, i + 1) as int),
            #[trigger] images[i],
            area,
            pages_before(images, i) as int,
        )
}

/// The directory entry of tag `i`.
pub open spec fn directory_entry(
    key: TagIndexKey,
    v: TagIndexValue,
    item: (TagId, TagStore),
    root: BlockRef,
) -> bool {
    &&& key == (TagIndexKey { tag_id: item.0.id, snapshot: 0 })
    &&& v.last_modify_lsn == 0
    &&& v.store_root == root
    &&& v.cardinality == item.1@.members().len()
    &&& v.generation == 1
    &&& v.store_kind == 0
    &&& v._pad@ == zeros(7)
}

/// No tag before `k` has a sequence or ranking.
pub open spec fn simple_up_to(items: Seq<(TagId, TagStore)>, k: int) -> bool {
    forall|i: int| 0 <= i < k ==> (#[trigger] items[i]).1@ is Simple
}

/// `pages` hold the first `n` tags of the index.
pub open spec fn area_holds(
    before: Seq<u8>,
    after: Seq<u8>,
    items: Seq<(TagId, TagStore)>,
    images: Seq<Seq<u8>>,
    pages: Seq<TagBitmapPage>,
    area: int,
) -> bool {
    &&& images_of(images, items)
    &&& all_chained(pages, images, area)
    &&& if pages.len() == 0 {
        after == before
    } else {
        page_offset(area, pages.len() as int) <= before.len() && after == overwritten(
            before,
            area,
            page_images(pages, 0),
        )
    }
}

/// The stores that the first `k` directory entries and their bitmaps make up.
pub open spec fn stores_of(
    entries: Seq<(TagIndexKey, TagIndexValue)>,
    bitmaps: Seq<roaring::RoaringBitmap>,
    k: int,
) -> Map<TagId, StoreModel>
    decreases k,
{
    if k <= 0 {
        Map::empty()
    } else {
        stores_of(entries, bitmaps, k - 1).insert(
            TagId { id: entries[k - 1].0.tag_id },
            StoreModel::Simple(bitmap_set(bitmaps[k - 1])),
        )
    }
}

/// `resolve` gives these bitmaps for the first directory entries.
pub open spec fn resolves<F: Fn(BlockRef) -> Result<roaring::RoaringBitmap, IndexError>>(
    resolve: F,
    entries: Seq<(TagIndexKey, TagIndexValue)>,
    bitmaps: Seq<roaring::RoaringBitmap>,
) -> bool {
    &&& bitmaps.len() <= entries.len()
    &&& forall|i: int|
        0 <= i < bitmaps.len() ==> (#[trigger] entries[i]).1.store_kind == 0 && resolve.ensures(
            (entries[i].1.store_root,),
            Ok(bitmaps[i]),
        )
}

/// The first directory entries have chains that give these bitmaps.
pub open spec fn chains_give(
    contents: Seq<u8>,
    reliable: bool,
    entries: Seq<(TagIndexKey, TagIndexValue)>,
    bitmaps: Seq<roaring::RoaringBitmap>,
) -> bool {
    &&& bitmaps.len() <= entries.len()
    &&& forall|i: int|
        0 <= i < bitmaps.len() ==> (#[trigger] entries[i]).1.store_kind == 0 && chain_outcome(
            contents,
            reliable,
            entries[i].1.store_root,
            Ok(bitmaps[i]),
        )
}

/// `r` is what loading an index gives.
pub open spec fn load_gives(
    contents: Seq<u8>,
    reliable: bool,
    entries: Seq<(TagIndexKey, TagIndexValue)>,
    r: Result<Map<TagId, StoreModel>, IndexError>,
) -> bool {
    exists|bitmaps: Seq<roaring::RoaringBitmap>|
        #[trigger] chains_give(contents, reliable, entries, bitmaps) && match r {
            Ok(m) => bitmaps.len() == entries.len() && m == stores_of(
                entries,
                bitmaps,
                entries.len() as int,
            ),
            Err(e) => bitmaps.len() < entries.len() && {
                let v = entries[bitmaps.len() as int].1;
                if v.store_kind != 0 {
                    e == IndexError::UnsupportedStoreKind(v.store_kind)
                } else {
                    chain_outcome(contents, reliable, v.store_root, Err(e))
                }
            },
        }
}

/// What laying an index out comes to: the node of the directory and the pages
/// in use, or why some store could not be laid out.
pub open spec fn tags_laid(
    items: Seq<(TagId, TagStore)>,
    before: Seq<u8>,
    after: Seq<u8>,
    reliable: bool,
    area: int,
    cap: usize,
    r: Result<(LoadedNode<TagIndexKey, TagIndexValue>, usize), IndexError>,
) -> bool {
    match r {
        Ok((node, used)) => {
            &&& used <= cap
            &&& simple_up_to(items, items.len() as int)
            &&& node.fresh(BtreeKind::TagDirectory, REGION_SIZE_LOG2)
            &&& exists|images: Seq<Seq<u8>>, pages: Seq<TagBitmapPage>|
                #[trigger] area_holds(
                    before,
                    after,
                    items,
                    images,
                    pages,
                    area,
                ) && used == pages.len() && images.len() == items.len() && directory_of(
                    node.entries(),
                    items,
                    images,
                    area,
                )
        },
        Err(IndexError::UnsupportedStoreKind(k)) => {
            &&& after == before
            &&& exists|i: int|
                0 <= i < items.len() && simple_up_to(items, i) && !((
                #[trigger] items[i]).1@ is Simple) && k
                    == items[i].1@.kind().number()
        },
        Err(e) => {
            &&& simple_up_to(items, items.len() as int)
            &&& e is Roaring && !reliable || exists|
                images: Seq<Seq<u8>>,
                pages: Seq<TagBitmapPage>,
            |
                #[trigger] area_holds(
                    before,
                    after,
                    items,
                    images,
                    pages,
                    area,
                ) && images.len() < items.len() && stopped(
                    e,
                    items[images.len() as int].1.bitmap(),
                    pages.len() as int,
                    area,
                    cap,
                    before.len(),
                )
        },
    }
}

/// `r` is the index that was read from its directory and the device.
pub open spec fn tags_read(
    contents: Seq<u8>,
    reliable: bool,
    read: Result<Option<LoadedNode<TagIndexKey, TagIndexValue>>, StorageError>,
    r: Result<Map<TagId, StoreModel>, IndexError>,
) -> bool {
    match read {
        Ok(None) => r == Ok::<Map<TagId, StoreModel>, IndexError>(Map::empty()),
        Ok(Some(node)) => load_gives(contents, reliable, node.entries(), r),
        Err(e) => r is Err && r->Err_0 == IndexError::Storage(e),
    }
}

impl TagIndex {
    /// The index that directory entries make up, `resolve` giving the bitmap
    /// that starts at a page. Only plain stores are read.
    pub fn from_leaf_entries<F: Fn(BlockRef) -> Result<roaring::RoaringBitmap, IndexError>>(
        entries: &[(TagIndexKey, TagIndexValue)],
        resolve: F,
    ) -> (r: Result<Self, IndexError>)
        requires
            forall|b: BlockRef| resolve.requires((b,)),
        ensures
            r is Ok ==> r->Ok_0.wf() && exists|bitmaps: Seq<roaring::RoaringBitmap>|
                #[trigger] resolves(resolve, entries@, bitmaps) && bitmaps.len() == entries@.len()
                    && r->Ok_0@ == stores_of(entries@, bitmaps, entries@.len() as int),
            r is Err ==> exists|bitmaps: Seq<roaring::RoaringBitmap>|
                #[trigger] resolves(resolve, entries@, bitmaps) && bitmaps.len() < entries@.len()
                    && {
                    let v = entries@[bitmaps.len() as int].1;
                    if v.store_kind != 0 {
                        r->Err_0 == IndexError::UnsupportedStoreKind(v.store_kind)
                    } else {
                        resolve.ensures((v.store_root,), Err(r->Err_0))
                    }
                },
    {
        let mut out = TagIndex::new();
        let ghost mut bitmaps: Seq<roaring::RoaringBitmap> = Seq::empty();
        let mut i: usize = 0;
        proof {
            assert(resolves(resolve, entries@, bitmaps));
        }
        while i < entries.len()
            invariant
                forall|b: BlockRef| resolve.requires((b,)),
                i <= entries@.len(),
                bitmaps.len() == i,
                resolves(resolve, entries@, bitmaps),
                out.wf(),
                out@ == stores_of(entries@, bitmaps, i as int),
            decreases entries@.len() - i,
        {
            let key = entries[i].0;
            let value = entries[i].1;
            if value.store_kind != TagStoreKind::Simple.to_u8() {
                return Err(IndexError::UnsupportedStoreKind(value.store_kind));
            }
            match resolve(value.store_root) {
                Ok(b) => {
                    proof {
                        let before = bitmaps;
                        bitmaps = bitmaps.push(b);
                        lemma_stores_prefix(entries@, before, bitmaps, i as int);
                        assert(resolves(resolve, entries@, bitmaps));
                    }
                    out.insert(TagId::new(key.tag_id), TagStore::Simple(b));
                },
                Err(e) => {
                    return Err(e);
                },
            }
            i = i + 1;
        }
        Ok(out)
    }

    /// Lay the index out: the bitmaps go as chains of pages to the area of
    /// `device`, everything else into the directory node that is returned,
    /// with the number of pages used. Only plain stores are written.
    pub fn lay_out<D: BlockDevice>(
        &self,
        device: &mut D,
        bitmap_area_offset: u64,
        bitmap_area_cap_pages: usize,
    ) -> (r: Result<(LoadedNode<TagIndexKey, TagIndexValue>, usize), IndexError>)
        requires
            self.wf(),
        ensures
            old(device).reliable() ==> final(device).reliable(),
            tags_laid(
                self.items(),
                old(device).contents(),
                final(device).contents(),
                old(device).reliable(),
                bitmap_area_offset as int,
                bitmap_area_cap_pages,
                r,
            ),
    {
        let all = self.iter();
        let total = all.len();
        let ghost items = self.items();
        let ghost area = bitmap_area_offset as int;
        let ghost start = device.contents();
        let mut i: usize = 0;
        while i < total
            invariant
                i <= total,
                total == items.len(),
                all@.len() == total,
                items == self.items(),
                *device == *old(device),
                forall|j: int|
                    0 <= j < all@.len() ==> (#[trigger] all@[j]).0 == items[j].0 && *all@[j].1
                        == items[j].1,
                simple_up_to(items, i as int),
            decreases total - i,
        {
            let kind = all[i].1.kind();
            proof {
                assert(*all@[i as int].1 == items[i as int].1);
            }
            if kind != TagStoreKind::Simple {
                proof {
                    assert(!(items[i as int].1@ is Simple));
                }
                return Err(IndexError::UnsupportedStoreKind(kind.to_u8()));
            }
            i = i + 1;
        }
        let mut leaves: Vec<(TagIndexKey, TagIndexValue)> = Vec::new();
        let mut next_slot: usize = 0;
        let ghost mut images: Seq<Seq<u8>> = Seq::empty();
        let ghost mut pages: Seq<TagBitmapPage> = Seq::empty();
        i = 0;
        while i < total
            invariant
                i <= total,
                total == items.len(),
                all@.len() == total,
                items == self.items(),
                simple_up_to(items, total as int),
                forall|j: int|
                    0 <= j < all@.len() ==> (#[trigger] all@[j]).0 == items[j].0 && *all@[j].1
                        == items[j].1,
                area == bitmap_area_offset,
                start == old(device).contents(),
                old(device).reliable() ==> device.reliable(),
                images.len() == i,
                next_slot == pages.len(),
                next_slot <= bitmap_area_cap_pages,
                leaves@.len() == i,
                area_holds(start, device.contents(), items, images, pages, area),
                device.contents().len() == start.len(),
                directory_of(leaves@, items, images, area),
            decreases total - i,
        {
            let tag = all[i].0;
            let store = all[i].1;
            proof {
                assert(*all@[i as int].1 == items[i as int].1);
            }
            let members = store.members();
            let count = bitmap_len(members);
            if count > 0xFFFF_FFFF {
                let e = IndexError::CardinalityOverflow(count);
                proof {
                    assert(stopped(
                        e,
                        items[i as int].1.bitmap(),
                        pages.len() as int,
                        area,
                        bitmap_area_cap_pages,
                        start.len(),
                    ));
                }
                return Err(e);
            }
            let ghost slot = next_slot as int;
            let ghost before = device.contents();
            let root = match write_bitmap_chain(
                device,
                bitmap_area_offset,
                bitmap_area_cap_pages,
                &mut next_slot,
                members,
            ) {
                Ok(h) => h,
                Err(e) => {
                    proof {
                        if old(device).reliable() || e is BitmapAreaExhausted {
                            assert(device.contents() == before);
                            assert(stopped(
                                e,
                                items[i as int].1.bitmap(),
                                pages.len() as int,
                                area,
                                bitmap_area_cap_pages,
                                start.len(),
                            ));
                        }
                    }
                    return Err(e);
                },
            };
            proof {
                let bytes = bitmap_bytes(*members);
                let more = choose|p: Seq<TagBitmapPage>|
                    #[trigger] is_chain(p, bytes, area, slot) && device.contents() == overwritten(
                        before,
                        page_offset(area, slot),
                        page_images(p, 0),
                    );
                lemma_area_grows(start, before, items, images, pages, area, bytes, more);
                let old_images = images;
                images = images.push(bytes);
                pages = pages + more;
                lemma_pages_before(old_images, images, i as int);
                lemma_directory_images(leaves@, items, old_images, images, area);
            }
            leaves.push(
                (
                    TagIndexKey { tag_id: tag.raw(), snapshot: 0 },
                    TagIndexValue {
                        last_modify_lsn: 0,
                        store_root: root,
                        cardinality: count as u32,
                        generation: 1,
                        store_kind: TagStoreKind::Simple.to_u8(),
                        _pad: [0u8; 7],
                    },
                ),
            );
            proof {
                assert(leaves@[i as int].1._pad@ =~= zeros(7));
                assert(directory_entry(
                    leaves@[i as int].0,
                    leaves@[i as int].1,
                    items[i as int],
                    ref_at(page_offset(area, pages_before(images, i as int) as int)),
                ));
            }
            i = i + 1;
        }
        if leaves.len() == 0 {
            Ok((LoadedNode::new(BtreeKind::TagDirectory, 0, REGION_SIZE_LOG2), next_slot))
        } else {
            Ok(
                (
                    LoadedNode::with_run(BtreeKind::TagDirectory, 0, REGION_SIZE_LOG2, leaves),
                    next_slot,
                ),
            )
        }
    }

    /// Write the index: its bitmaps to the area, its directory to the region at
    /// `dir_offset` on `device`. Gives the number of pages used. `encode` turns
    /// the runs of the directory into bytes.
    pub fn flush_to_region<
        D: BlockDevice,
        F: Fn(&Vec<SortedRun<TagIndexKey, TagIndexValue>>) -> Result<Vec<u8>, StorageError>,
    >(
        &self,
        device: &mut D,
        dir_offset: u64,
        bitmap_area_offset: u64,
        bitmap_area_cap_pages: usize,
        encode: F,
    ) -> (r: Result<usize, IndexError>)
        requires
            self.wf(),
            forall|runs: &Vec<SortedRun<TagIndexKey, TagIndexValue>>| encode.requires((runs,)),
        ensures
            old(device).reliable() ==> final(device).reliable(),
            exists|
                mid: Seq<u8>,
                laid: Result<(LoadedNode<TagIndexKey, TagIndexValue>, usize), IndexError>,
            |
                #[trigger] tags_laid(
                    self.items(),
                    old(device).contents(),
                    mid,
                    old(device).reliable(),
                    bitmap_area_offset as int,
                    bitmap_area_cap_pages,
                    laid,
                ) && match laid {
                    Err(e) => r == Err::<usize, IndexError>(e) && final(device).contents() == mid,
                    Ok((node, used)) => exists|
                        encoded: Result<Vec<u8>, StorageError>,
                        stored: Result<(), StorageError>,
                    |
                        {
                            &&& #[trigger] encode.ensures((&node.sorted_runs,), encoded)
                            &&& #[trigger] node_stored(
                                mid,
                                final(device).contents(),
                                old(device).reliable(),
                                dir_offset as int,
                                node.header,
                                encoded,
                                stored,
                            )
                            &&& r == match stored {
                                Ok(_) => Ok::<usize, IndexError>(used),
                                Err(e) => Err(IndexError::Storage(e)),
                            }
                        },
                },
    {
        let ghost before = device.contents();
        let ghost reliable = device.reliable();
        let laid = self.lay_out(device, bitmap_area_offset, bitmap_area_cap_pages);
        let ghost mid = device.contents();
        let ghost mid_reliable = device.reliable();
        match laid {
            Err(e) => Err(e),
            Ok((node, used)) => {
                let stored = store_node(device, dir_offset, &node, encode);
                proof {
                    let encoded = choose|encoded: Result<Vec<u8>, StorageError>|
                        #[trigger] encode.ensures((&node.sorted_runs,), encoded) && node_stored(
                            mid,
                            device.contents(),
                            mid_reliable,
                            dir_offset as int,
                            node.header,
                            encoded,
                            stored,
                        );
                    assert(node_stored(
                        mid,
                        device.contents(),
                        reliable,
                        dir_offset as int,
                        node.header,
                        encoded,
                        stored,
                    ));
                    assert(tags_laid(
                        self.items(),
                        before,
                        mid,
                        reliable,
                        bitmap_area_offset as int,
                        bitmap_area_cap_pages,
                        Ok((node, used)),
                    ));
                }
                match stored {
                    Ok(_) => Ok(used),
                    Err(e) => Err(IndexError::Storage(e)),
                }
            },
        }
    }

    /// Read the index from the directory region at `dir_offset` on `device` and
    /// the bitmaps that it refers to; a blank region is the empty index.
    /// `decode` turns the bytes of the directory's runs into runs.
    pub fn load_from_region<
        D: BlockDevice,
        G: Fn(Vec<u8>) -> Result<Vec<SortedRun<TagIndexKey, TagIndexValue>>, StorageError>,
    >(device: &D, dir_offset: u64, decode: G) -> (r: Result<Self, IndexError>)
        requires
            forall|bytes: Vec<u8>| decode.requires((bytes,)),
        ensures
            r is Ok ==> r->Ok_0.wf(),
            exists|read: Result<Option<LoadedNode<TagIndexKey, TagIndexValue>>, StorageError>|
                #[trigger] node_loaded(
                    device.contents(),
                    device.reliable(),
                    dir_offset as int,
                    None,
                    decode,
                    read,
                ) && tags_read(
                    device.contents(),
                    device.reliable(),
                    read,
                    match r {
                        Ok(t) => Ok(t@),
                        Err(e) => Err(e),
                    },
                ),
    {
        match load_node(device, dir_offset, None, decode) {
            Ok(Some(node)) => TagIndex::load_from_node(device, &node),
            Ok(None) => Ok(TagIndex::new()),
            Err(e) => Err(IndexError::Storage(e)),
        }
    }

    /// Read the index back from its directory node, and the bitmaps that the
    /// node refers to from `device`.
    pub fn load_from_node<D: BlockDevice>(
        device: &D,
        node: &LoadedNode<TagIndexKey, TagIndexValue>,
    ) -> (r: Result<Self, IndexError>)
        ensures
            r is Ok ==> r->Ok_0.wf(),
            load_gives(
                device.contents(),
                device.reliable(),
                node.entries(),
                match r {
                    Ok(t) => Ok(t@),
                    Err(e) => Err(e),
                },
            ),
    {
        let all = node.merge_iter();
        let mut entries: Vec<(TagIndexKey, TagIndexValue)> = Vec::new();
        let mut i: usize = 0;
        while i < all.len()
            invariant
                i <= all@.len(),
                all@.len() == node.entries().len(),
                forall|j: int| 0 <= j < all@.len() ==> *(#[trigger] all@[j]) == node.entries()[j],
                entries@ =~= node.entries().take(i as int),
            decreases all@.len() - i,
        {
            let e = all[i];
            proof {
                assert(*all@[i as int] == node.entries()[i as int]);
            }
            entries.push((e.0, e.1));
            i = i + 1;
        }
        proof {
            assert(entries@ =~= node.entries());
        }
        let resolve = |head: BlockRef| -> (r: Result<roaring::RoaringBitmap, IndexError>)
            ensures
                chain_outcome(device.contents(), device.reliable(), head, r),
            { read_bitmap_chain(device, head) };
        let r = TagIndex::from_leaf_entries(entries.as_slice(), resolve);
        proof {
            let bitmaps = choose|bitmaps: Seq<roaring::RoaringBitmap>|
                #[trigger] resolves(resolve, entries@, bitmaps) && match r {
                    Ok(t) => bitmaps.len() == entries@.len() && t@ == stores_of(
                        entries@,
                        bitmaps,
                        entries@.len() as int,
                    ),
                    Err(e) => bitmaps.len() < entries@.len() && {
                        let v = entries@[bitmaps.len() as int].1;
                        if v.store_kind != 0 {
                            e == IndexError::UnsupportedStoreKind(v.store_kind)
                        } else {
                            resolve.ensures((v.store_root,), Err(e))
                        }
                    },
                };
            assert(resolves(resolve, entries@, bitmaps));
            assert(chains_give(device.contents(), device.reliable(), entries@, bitmaps));
        }
        r
    }
}

/// The directory entries are those of the first tags, whose bitmaps have
/// these serialised forms.
pub open spec fn directory_of(
    entries: Seq<(TagIndexKey, TagIndexValue)>,
    items: Seq<(TagId, TagStore)>,
    images: Seq<Seq<u8>>,
    area: int,
) -> bool {
    &&& entries.len() == images.len()
    &&& images.len() <= items.len()
    &&& forall|i: int|
        0 <= i < entries.len() ==> directory_entry(
            (#[trigger] entries[i]).0,
            entries[i].1,
            items[i],
            ref_at(page_offset(area, pages_before(images, i) as int)),
        )
}

/// Why a flush stops at a tag with this bitmap, `used` pages being taken.
pub open spec fn stopped(
    e: IndexError,
    b: roaring::RoaringBitmap,
    used: int,
    area: int,
    cap_pages: usize,
    device_len: nat,
) -> bool {
    let end = used + page_count(bitmap_bytes(b));
    if bitmap_set(b).len() > u32::MAX {
        e is CardinalityOverflow && e->CardinalityOverflow_0 == bitmap_set(b).len()
    } else if end > cap_pages {
        e == (IndexError::BitmapAreaExhausted { needed: counted(end), cap: cap_pages })
    } else {
        &&& e is Roaring
        &&& e->Roaring_0@ == page_error_text(TagBitmapPageError::Io)
        &&& pages_beyond(area, end, device_len)
    }
}

proof fn lemma_stores_prefix(
    entries: Seq<(TagIndexKey, TagIndexValue)>,
    a: Seq<roaring::RoaringBitmap>,
    b: Seq<roaring::RoaringBitmap>,
    k: int,
)
    requires
        0 <= k <= a.len(),
        k <= b.len(),
        forall|i: int| 0 <= i < k ==> a[i] == b[i],
    ensures
        stores_of(entries, a, k) == stores_of(entries, b, k),
    decreases k,
{
    if k > 0 {
        lemma_stores_prefix(entries, a, b, k - 1);
    }
}

proof fn lemma_pages_before(a: Seq<Seq<u8>>, b: Seq<Seq<u8>>, k: int)
    requires
        0 <= k <= a.len(),
        k <= b.len(),
        forall|i: int| 0 <= i < k ==> a[i] == b[i],
    ensures
        pages_before(a, k) == pages_before(b, k),
    decreases k,
{
    if k > 0 {
        lemma_pages_before(a, b, k - 1);
    }
}

proof fn lemma_pages_grow(images: Seq<Seq<u8>>, a: int, b: int)
    requires
        a <= b,
    ensures
        pages_before(images, a) <= pages_before(images, b),
    decreases b - a,
{
    if a < b {
        lemma_pages_grow(images, a, b - 1);
    }
}

proof fn lemma_directory_images(
    entries: Seq<(TagIndexKey, TagIndexValue)>,
    items: Seq<(TagId, TagStore)>,
    a: Seq<Seq<u8>>,
    b: Seq<Seq<u8>>,
    area: int,
)
    requires
        directory_of(entries, items, a, area),
        a.len() <= b.len(),
        forall|i: int| 0 <= i < a.len() ==> a[i] == b[i],
    ensures
        forall|i: int|
            0 <= i < entries.len() ==> directory_entry(
                (#[trigger] entries[i]).0,
                entries[i].1,
                items[i],
                ref_at(page_offset(area, pages_before(b, i) as int)),
            ),
{
    assert forall|i: int| 0 <= i < entries.len() implies directory_entry(
        (#[trigger] entries[i]).0,
        entries[i].1,
        items[i],
        ref_at(page_offset(area, pages_before(b, i) as int)),
    ) by {
        lemma_pages_before(a, b, i);
    }
}

/// One more chain behind the others.
proof fn lemma_chained_grows(
    images: Seq<Seq<u8>>,
    pages: Seq<TagBitmapPage>,
    area: int,
    bytes: Seq<u8>,
    more: Seq<TagBitmapPage>,
)
    requires
        all_chained(pages, images, area),
        is_chain(more, bytes, area, pages.len() as int),
    ensures
        all_chained(pages + more, images.push(bytes), area),
{
    let next = images.push(bytes);
    let n = images.len() as int;
    lemma_pages_before(images, next, n);
    assert(pages_before(next, n + 1) == pages.len() + more.len());
    assert forall|i: int| 0 <= i < next.len() implies is_chain(
        (pages + more).subrange(pages_before(next, i) as int, pages_before(next, i + 1) as int),
        #[trigger] next[i],
        area,
        pages_before(next, i) as int,
    ) by {
        if i < n {
            assert(next[i] == images[i]);
            lemma_pages_before(images, next, i);
            lemma_pages_before(images, next, i + 1);
            lemma_pages_grow(images, i, i + 1);
            lemma_pages_grow(images, i + 1, n);
            assert((pages + more).subrange(
                pages_before(next, i) as int,
                pages_before(next, i + 1) as int,
            ) =~= pages.subrange(
                pages_before(images, i) as int,
                pages_before(images, i + 1) as int,
            ));
        } else {
            assert((pages + more).subrange(
                pages_before(next, i) as int,
                pages_before(next, i + 1) as int,
            ) =~= more);
        }
    }
}

/// More pages right behind the others.
proof fn lemma_bytes_grow(
    start: Seq<u8>,
    before: Seq<u8>,
    pages: Seq<TagBitmapPage>,
    area: int,
    more: Seq<TagBitmapPage>,
)
    requires
        0 <= area,
        before.len() == start.len(),
        page_offset(area, (pages.len() + more.len()) as int) <= start.len(),
        if pages.len() == 0 {
            before == start
        } else {
            before == overwritten(start, area, page_images(pages, 0))
        },
    ensures
        overwritten(before, page_offset(area, pages.len() as int), page_images(more, 0))
            == overwritten(start, area, page_images(pages + more, 0)),
        overwritten(before, page_offset(area, pages.len() as int), page_images(more, 0)).len()
            == start.len(),
{
    lemma_page_images_len(pages, 0);
    lemma_page_images_len(more, 0);
    lemma_page_images_join(pages, more, 0);
    if pages.len() == 0 {
        assert(page_images(pages, 0) =~= Seq::empty());
        assert(page_images(pages + more, 0) =~= page_images(more, 0));
    } else {
        lemma_overwritten_back(start, area, page_images(pages, 0), page_images(more, 0));
    }
}

/// One more chain right behind the others.
proof fn lemma_area_grows(
    start: Seq<u8>,
    before: Seq<u8>,
    items: Seq<(TagId, TagStore)>,
    images: Seq<Seq<u8>>,
    pages: Seq<TagBitmapPage>,
    area: int,
    bytes: Seq<u8>,
    more: Seq<TagBitmapPage>,
)
    requires
        0 <= area,
        area_holds(start, before, items, images, pages, area),
        before.len() == start.len(),
        images.len() < items.len(),
        bytes.len() > 0,
        bytes == bitmap_bytes(items[images.len() as int].1.bitmap()),
        bitmap_decoded(bytes) == Some(items[images.len() as int].1@.members()),
        is_chain(more, bytes, area, pages.len() as int),
        page_offset(area, (pages.len() + more.len()) as int) <= start.len(),
    ensures
        area_holds(
            start,
            overwritten(before, page_offset(area, pages.len() as int), page_images(more, 0)),
            items,
            images.push(bytes),
            pages + more,
            area,
        ),
        overwritten(before, page_offset(area, pages.len() as int), page_images(more, 0)).len()
            == start.len(),
{
    lemma_chained_grows(images, pages, area, bytes, more);
    let next = images.push(bytes);
    assert(images_of(next, items)) by {
        assert forall|i: int| 0 <= i < next.len() implies (#[trigger] next[i]) == bitmap_bytes(
            items[i].1.bitmap(),
        ) && next[i].len() > 0 && bitmap_decoded(next[i]) == Some(items[i].1@.members()) by {
            if i < images.len() {
                assert(next[i] == images[i]);
            }
        }
    }
    lemma_bytes_grow(start, before, pages, area, more);
}

/// What was flushed is what is loaded: every tag with its members. The area
/// starts at a block, and its block numbers fit into a reference.
pub proof fn tag_flush_then_load(
    index: &TagIndex,
    before: Seq<u8>,
    after: Seq<u8>,
    images: Seq<Seq<u8>>,
    pages: Seq<TagBitmapPage>,
    entries: Seq<(TagIndexKey, TagIndexValue)>,
    area: int,
    r: Result<Map<TagId, StoreModel>, IndexError>,
)
    requires
        index.wf(),
        simple_up_to(index.items(), index.items().len() as int),
        0 <= area,
        pages.len() > 0 ==> area % 4096 == 0 && page_offset(area, pages.len() as int)
            <= 0x1000_0000_0000,
        area_holds(before, after, index.items(), images, pages, area),
        images.len() == index.items().len(),
        directory_of(entries, index.items(), images, area),
        load_gives(after, true, entries, r),
    ensures
        r == Ok::<Map<TagId, StoreModel>, IndexError>(index@),
{
    let items = index.items();
    let n = items.len() as int;
    let bitmaps = choose|bitmaps: Seq<roaring::RoaringBitmap>|
        #[trigger] chains_give(after, true, entries, bitmaps) && match r {
            Ok(m) => bitmaps.len() == entries.len() && m == stores_of(
                entries,
                bitmaps,
                entries.len() as int,
            ),
            Err(e) => bitmaps.len() < entries.len() && {
                let v = entries[bitmaps.len() as int].1;
                if v.store_kind != 0 {
                    e == IndexError::UnsupportedStoreKind(v.store_kind)
                } else {
                    chain_outcome(after, true, v.store_root, Err(e))
                }
            },
        };
    if r is Err {
        let k = bitmaps.len() as int;
        assert(entries[k].1.store_kind == 0);
        lemma_tag_back(before, after, items, images, pages, area, k, Err(r->Err_0));
        assert(entries[k].1.store_root == ref_at(
            page_offset(area, pages_before(images, k) as int),
        ));
        assert(false);
    }
    assert forall|i: int| 0 <= i < n implies bitmap_set(#[trigger] bitmaps[i])
        == items[i].1@.members() by {
        assert(entries[i].1.store_root == ref_at(
            page_offset(area, pages_before(images, i) as int),
        ));
        lemma_tag_back(before, after, items, images, pages, area, i, Ok(bitmaps[i]));
    }
    index.lemma_items();
    lemma_stores_back(items, entries, bitmaps, n);
    let m = stores_of(entries, bitmaps, n);
    assert forall|t: TagId| #[trigger] m.contains_key(t) == index@.contains_key(t) by {
        if index@.contains_key(t) {
            let i = choose|i: int| 0 <= i < items.len() && (#[trigger] items[i]).0 == t;
            assert(m[items[i].0] == items[i].1@);
        }
    }
    assert(m =~= index@);
}

/// Each page stands in its slot.
proof fn lemma_page_in_place(after: Seq<u8>, pages: Seq<TagBitmapPage>, area: int, x: int)
    requires
        0 <= x < pages.len(),
        0 <= area,
        page_offset(area, pages.len() as int) <= after.len(),
        after.subrange(area, page_offset(area, pages.len() as int)) == page_images(pages, 0),
    ensures
        after.subrange(page_offset(area, x), page_offset(area, x) + 4096) == pages[x].image(),
{
    lemma_page_images_len(pages, 0);
    lemma_page_images_at(pages, 0, x);
    let all = page_images(pages, 0);
    assert(after.subrange(page_offset(area, x), page_offset(area, x) + 4096) =~= all.subrange(
        4096 * x,
        4096 * x + 4096,
    )) by {
        assert forall|i: int| 0 <= i < 4096 implies #[trigger] after[area + 4096 * x + i]
            == all[4096 * x + i] by {
            assert(after.subrange(area, page_offset(area, pages.len() as int))[4096 * x + i]
                == all[4096 * x + i]);
        }
    }
}

/// The pages from `slot` to `end` stand in their slots.
proof fn lemma_chain_in_place(
    after: Seq<u8>,
    pages: Seq<TagBitmapPage>,
    area: int,
    slot: int,
    end: int,
)
    requires
        0 <= slot <= end <= pages.len(),
        0 <= area,
        page_offset(area, pages.len() as int) <= after.len(),
        after.subrange(area, page_offset(area, pages.len() as int)) == page_images(pages, 0),
    ensures
        forall|c: int|
            0 <= c < end - slot ==> after.subrange(
                page_offset(area, slot + c),
                page_offset(area, slot + c) + 4096,
            ) == (#[trigger] pages.subrange(slot, end)[c]).image(),
{
    assert forall|c: int| 0 <= c < end - slot implies after.subrange(
        page_offset(area, slot + c),
        page_offset(area, slot + c) + 4096,
    ) == (#[trigger] pages.subrange(slot, end)[c]).image() by {
        lemma_page_in_place(after, pages, area, slot + c);
        assert(pages.subrange(slot, end)[c] == pages[slot + c]);
    }
}

/// What was written to the area stands there.
proof fn lemma_area_written(
    before: Seq<u8>,
    after: Seq<u8>,
    pages: Seq<TagBitmapPage>,
    area: int,
)
    requires
        0 <= area,
        page_offset(area, pages.len() as int) <= before.len(),
        after == overwritten(before, area, page_images(pages, 0)),
    ensures
        after.len() == before.len(),
        after.subrange(area, page_offset(area, pages.len() as int)) == page_images(pages, 0),
{
    lemma_page_images_len(pages, 0);
    assert(after.subrange(area, page_offset(area, pages.len() as int)) =~= page_images(pages, 0));
}

/// The chain of a tag gives its members, and no error.
proof fn lemma_tag_back(
    before: Seq<u8>,
    after: Seq<u8>,
    items: Seq<(TagId, TagStore)>,
    images: Seq<Seq<u8>>,
    pages: Seq<TagBitmapPage>,
    area: int,
    k: int,
    r: Result<roaring::RoaringBitmap, IndexError>,
)
    requires
        0 <= k < images.len(),
        0 <= area,
        area % 4096 == 0,
        page_offset(area, pages.len() as int) <= 0x1000_0000_0000,
        area_holds(before, after, items, images, pages, area),
        chain_outcome(
            after,
            true,
            ref_at(page_offset(area, pages_before(images, k) as int)),
            r,
        ),
    ensures
        r is Ok,
        bitmap_set(r->Ok_0) == items[k].1@.members(),
{
    let slot = pages_before(images, k) as int;
    let end = pages_before(images, k + 1) as int;
    lemma_pages_grow(images, 0, k);
    lemma_pages_grow(images, k, k + 1);
    lemma_pages_grow(images, k + 1, images.len() as int);
    let mine = pages.subrange(slot, end);
    assert(is_chain(mine, images[k], area, slot));
    assert(end > slot);
    lemma_area_written(before, after, pages, area);
    lemma_chain_in_place(after, pages, area, slot, end);
    chain_round_trip(after, mine, images[k], area, slot, items[k].1@.members(), r);
}

proof fn lemma_stores_back(
    items: Seq<(TagId, TagStore)>,
    entries: Seq<(TagIndexKey, TagIndexValue)>,
    bitmaps: Seq<roaring::RoaringBitmap>,
    k: int,
)
    requires
        0 <= k <= items.len(),
        items.len() == entries.len(),
        bitmaps.len() == entries.len(),
        simple_up_to(items, items.len() as int),
        forall|i: int|
            0 <= i < items.len() ==> (#[trigger] entries[i]).0.tag_id == items[i].0.id,
        forall|i: int|
            0 <= i < items.len() ==> bitmap_set(#[trigger] bitmaps[i]) == items[i].1@.members(),
        forall|i: int, j: int|
            0 <= i < j < items.len() ==> (#[trigger] items[i]).0.id < (#[trigger] items[j]).0.id,
    ensures
        forall|i: int|
            0 <= i < k ==> stores_of(entries, bitmaps, k).contains_key((#[trigger] items[i]).0)
                && stores_of(entries, bitmaps, k)[items[i].0] == items[i].1@,
        forall|t: TagId| #[trigger]
            stores_of(entries, bitmaps, k).contains_key(t) ==> exists|i: int|
                0 <= i < k && (#[trigger] items[i]).0 == t,
    decreases k,
{
    if k > 0 {
        lemma_stores_back(items, entries, bitmaps, k - 1);
        let m = stores_of(entries, bitmaps, k - 1);
        let t = items[k - 1].0;
        assert(entries[k - 1].0.tag_id == t.id);
        assert(TagId { id: entries[k - 1].0.tag_id } == t);
        assert(items[k - 1].1@ is Simple);
        assert(bitmap_set(bitmaps[k - 1]) == items[k - 1].1@.members());
        let next = stores_of(entries, bitmaps, k);
        assert(next == m.insert(t, items[k - 1].1@));
        assert forall|i: int| 0 <= i < k implies next.contains_key((#[trigger] items[i]).0)
            && next[items[i].0] == items[i].1@ by {
            if i < k - 1 {
                assert(items[i].0.id < items[k - 1].0.id);
            }
        }
        assert forall|u: TagId| #[trigger] next.contains_key(u) implies exists|i: int|
            0 <= i < k && (#[trigger] items[i]).0 == u by {
            if u == t {
                assert(items[k - 1].0 == u);
            } else {
                assert(m.contains_key(u));
                let i = choose|i: int| 0 <= i < k - 1 && (#[trigger] items[i]).0 == u;
                assert(items[i].0 == u);
            }
        }
    }
}

} // verus!
