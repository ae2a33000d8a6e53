//! What the blocks of the indexes hold, and when they are read.

use vstd::prelude::*;
use vstd::utf8::encode_utf8;
use crate::index::chunk_index::{hex_round_trip, hex_text, unhexed, ChunkHashKey};
use crate::index::chunk_list::ChunkParamsRecord;
use crate::index::error::IndexError;
use crate::index::kv_bucket::{bucket_of, first_entry, is_for, upsert_then_lookup,
    KvBucketBlock, KvBucketError};
use crate::index::kv_directory::{directory_of, KvDirectoryBlock,
    KvDirectoryError};
use crate::index::tag_bitmap_page::{page_of, TagBitmapPage, TagBitmapPageError};
use crate::storage::block::BlockRef;
use crate::storage::crc::crc32c;
use crate::storage::device::BlockDevice;
use crate::text::digit;

verus! {

/// The bytes of a block whose last four bytes are the checksum of the others,
/// and which says of itself that it is a block of the kind.
pub open spec fn whole(bytes: Seq<u8>, crc: u32, magic: Seq<u8>, kind: u16, code: u16) -> bool {
    &&& bytes.len() == 4096
    &&& crc == crc32c(bytes.subrange(0, 4092))
    &&& magic == seq![77u8, 73, 77, 82]
    &&& kind == code
}

/// A bucket, a directory or a page is read only where the bytes are whole, and
/// then it is the one that the bytes hold.
pub proof fn only_whole_blocks_are_read<D: BlockDevice>(
    device: D,
    offset: u64,
    bucket: KvBucketBlock,
    directory: KvDirectoryBlock,
    page: TagBitmapPage,
    b: Result<KvBucketBlock, KvBucketError>,
    d: Result<KvDirectoryBlock, KvDirectoryError>,
    p: Result<TagBitmapPage, TagBitmapPageError>,
)
    requires
        call_ensures(KvBucketBlock::read::<D>, (&device, offset), b),
        call_ensures(KvDirectoryBlock::read::<D>, (&device, offset), d),
        call_ensures(TagBitmapPage::read::<D>, (&device, offset), p),
        offset + 4096 <= device.contents().len(),
        bucket.image() == device.contents().subrange(offset as int, offset + 4096),
        directory.image() == device.contents().subrange(offset as int, offset + 4096),
        page.image() == device.contents().subrange(offset as int, offset + 4096),
    ensures
        ({
            let bytes = device.contents().subrange(offset as int, offset + 4096);
            &&& b is Ok ==> b->Ok_0 == bucket && whole(
                bytes,
                bucket.crc,
                bucket.header.pre.magic@,
                bucket.header.pre.kind,
                3,
            ) && bucket.entry_count <= 144
            &&& d is Ok ==> d->Ok_0 == directory && whole(
                bytes,
                directory.crc,
                directory.header.pre.magic@,
                directory.header.pre.kind,
                2,
            )
            &&& p is Ok ==> p->Ok_0 == page && whole(
                bytes,
                page.crc,
                page.header.pre.magic@,
                page.header.pre.kind,
                4,
            )
        }),
{
    let bytes = device.contents().subrange(offset as int, offset + 4096);
    let x = bucket_of(bytes);
    assert(x.image() == bytes);
    KvBucketBlock::image_injective(x, bucket);
    let y = directory_of(bytes);
    assert(y.image() == bytes);
    KvDirectoryBlock::image_injective(y, directory);
    let z = page_of(bytes);
    assert(z.image() == bytes);
    TagBitmapPage::image_injective(z, page);
    assert(crate::storage::block::BLOCK_PREAMBLE_MAGIC_BLOCK@ =~= seq![77u8, 73, 77, 82]);
}

/// What is entered in a bucket is found there; what else is there stays. A
/// bucket with room takes every entry.
pub proof fn entered_hash_is_in_the_bucket(
    bucket: &mut KvBucketBlock,
    tag: u32,
    hash: u64,
    bitmap: BlockRef,
    r: Result<(), KvBucketError>,
    other_tag: u32,
    other_hash: u64,
    before: Option<BlockRef>,
    after: Option<BlockRef>,
    full: bool,
)
    requires
        old(bucket).entry_count <= 144,
        call_ensures(KvBucketBlock::is_full, (&*old(bucket),), full),
        call_ensures(KvBucketBlock::upsert, (bucket, tag, hash, bitmap), r),
        call_ensures(KvBucketBlock::lookup, (&*old(bucket), other_tag, other_hash), before),
        call_ensures(KvBucketBlock::lookup, (&*final(bucket), other_tag, other_hash), after),
    ensures
        !full ==> r is Ok,
        r is Ok && other_tag == tag && other_hash == hash ==> after == Some(bitmap),
        r is Err || other_tag != tag || other_hash != hash ==> after == before,
{
    let b = *old(bucket);
    let a = *final(bucket);
    lemma_first(b.held(), tag, hash);
    if r is Ok {
        if exists|i: int| first_entry(b.held(), tag, hash, i) {
            let i = choose|i: int| first_entry(b.held(), tag, hash, i);
            upsert_then_lookup(b, a, tag, hash, bitmap, i);
            assert(is_for(a.held()[i], tag, hash));
        } else {
            upsert_then_lookup(b, a, tag, hash, bitmap, b.entry_count as int);
            assert(is_for(a.held()[b.entry_count as int], tag, hash));
        }
    }
    lemma_first(a.held(), other_tag, other_hash);
    lemma_first(b.held(), other_tag, other_hash);
    if after is Some {
        let i = choose|i: int|
            #[trigger] first_entry(a.held(), other_tag, other_hash, i)
                && a.held()[i].bitmap_ref == after->0;
        assert(is_for(a.held()[i], other_tag, other_hash));
        if r is Err || other_tag != tag || other_hash != hash {
            assert(first_entry(b.held(), other_tag, other_hash, i));
            assert(is_for(b.held()[i], other_tag, other_hash));
            assert(before is Some);
            let j = choose|j: int|
                #[trigger] first_entry(b.held(), other_tag, other_hash, j)
                    && b.held()[j].bitmap_ref == before->0;
            assert(i == j);
        }
    } else if before is Some {
        let j = choose|j: int|
            #[trigger] first_entry(b.held(), other_tag, other_hash, j)
                && b.held()[j].bitmap_ref == before->0;
        if r is Err || other_tag != tag || other_hash != hash {
            assert(first_entry(a.held(), other_tag, other_hash, j));
            assert(is_for(a.held()[j], other_tag, other_hash));
        }
    }
}

proof fn lemma_first(
    s: Seq<crate::index::kv_bucket::KvBucketEntry>,
    tag: u32,
    hash: u64,
)
    ensures
        forall|i: int, j: int| #[trigger]
            first_entry(s, tag, hash, i) && #[trigger] first_entry(s, tag, hash, j) ==> i == j,
        (forall|i: int| !first_entry(s, tag, hash, i)) ==> forall|i: int|
            0 <= i < s.len() ==> !is_for(#[trigger] s[i], tag, hash),
    decreases s.len(),
{
    assert forall|i: int, j: int| #[trigger]
        first_entry(s, tag, hash, i) && #[trigger] first_entry(s, tag, hash, j) implies i == j by {
        if i < j {
            assert(!is_for(s[i], tag, hash));
        }
        if j < i {
            assert(!is_for(s[j], tag, hash));
        }
    }
    if forall|i: int| !first_entry(s, tag, hash, i) {
        assert forall|i: int| 0 <= i < s.len() implies !is_for(#[trigger] s[i], tag, hash) by {
            lemma_none_until(s, tag, hash, i + 1);
        }
    }
}

proof fn lemma_none_until(
    s: Seq<crate::index::kv_bucket::KvBucketEntry>,
    tag: u32,
    hash: u64,
    k: int,
)
    requires
        0 <= k <= s.len(),
        forall|i: int| !first_entry(s, tag, hash, i),
    ensures
        forall|i: int| 0 <= i < k ==> !is_for(#[trigger] s[i], tag, hash),
    decreases k,
{
    if k > 0 {
        lemma_none_until(s, tag, hash, k - 1);
        assert(!first_entry(s, tag, hash, k - 1));
    }
}

/// A new bucket is empty; a new directory of a depth has a place for every
/// number of that many bits, and nothing in them.
pub proof fn new_blocks_hold_nothing(
    depth: u8,
    bucket: KvBucketBlock,
    tag: u32,
    hash: u64,
    found: Option<BlockRef>,
    directory: Result<KvDirectoryBlock, KvDirectoryError>,
    count: u32,
    place: u32,
    at: BlockRef,
)
    requires
        call_ensures(KvBucketBlock::new, (depth,), bucket),
        call_ensures(KvBucketBlock::lookup, (&bucket, tag, hash), found),
        call_ensures(KvDirectoryBlock::new, (depth,), directory),
        directory is Ok ==> call_ensures(KvDirectoryBlock::count, (&directory->Ok_0,), count),
        directory is Ok ==> call_ensures(
            KvDirectoryBlock::get_entry,
            (&directory->Ok_0, place),
            at,
        ),
    ensures
        found is None,
        bucket.local_depth == depth,
        directory is Ok <==> depth <= 7,
        depth == 0 ==> count == 1,
        depth == 1 ==> count == 2,
        depth == 2 ==> count == 4,
        depth == 3 ==> count == 8,
        depth == 4 ==> count == 16,
        depth == 5 ==> count == 32,
        depth == 6 ==> count == 64,
        depth == 7 ==> count == 128,
        directory is Ok ==> at.disk_id == 0 && at._pad == 0 && at.block_no == 0 && at.generation
            == 0,
{
    assert(1u32 << 0u8 == 1 && 1u32 << 1u8 == 2 && 1u32 << 2u8 == 4 && 1u32 << 3u8 == 8) by (
    bit_vector);
    assert(1u32 << 4u8 == 16 && 1u32 << 5u8 == 32 && 1u32 << 6u8 == 64 && 1u32 << 7u8 == 128)
        by (bit_vector);
}

/// What is put in a place of a directory is found there; the other places stay.
pub proof fn entered_bucket_is_in_its_place(
    directory: &mut KvDirectoryBlock,
    place: u32,
    bucket: BlockRef,
    other: u32,
    before: BlockRef,
    after: BlockRef,
)
    requires
        old(directory).bucket_count <= 252,
        call_ensures(KvDirectoryBlock::set_entry, (directory, place, bucket), ()),
        call_ensures(KvDirectoryBlock::get_entry, (&*old(directory), other), before),
        call_ensures(KvDirectoryBlock::get_entry, (&*final(directory), other), after),
    ensures
        place < old(directory).bucket_count && other == place ==> after == bucket,
        other != place ==> after == before,
        place >= old(directory).bucket_count ==> *final(directory) == *old(directory),
{
}

/// A page gives back the bytes that it was made of, and the page behind it.
pub proof fn page_keeps_its_bytes(
    bytes: &[u8],
    next: BlockRef,
    page: TagBitmapPage,
    back: Vec<u8>,
    link: BlockRef,
)
    requires
        bytes@.len() <= 4036,
        call_ensures(TagBitmapPage::from_bytes_chunk, (bytes, next), page),
        call_ensures(TagBitmapPage::bitmap_slice, (&page,), back),
        call_ensures(TagBitmapPage::next_link, (&page,), link),
    ensures
        back@ == bytes@,
        link == next,
{
}

/// The hash of a chunk is written with two digits for each byte, the high one
/// first, and read back from what was written.
pub proof fn hash_is_read_back(
    key: ChunkHashKey,
    written: String,
    text: &str,
    r: Result<ChunkHashKey, IndexError>,
    i: int,
)
    requires
        call_ensures(ChunkHashKey::to_hex, (&key,), written),
        text@ == written@,
        call_ensures(ChunkHashKey::from_hex, (text,), r),
        0 <= i < 32,
    ensures
        written@.len() == 64,
        written@[2 * i] == digit((key.0@[i] / 16) as nat),
        written@[2 * i + 1] == digit((key.0@[i] % 16) as nat),
        r is Ok,
        r->Ok_0.0@ == key.0@,
{
    hex_round_trip(key);
    assert(unhexed(encode_utf8(text@)) == Ok::<Seq<u8>, Seq<char>>(key.0@));
    lemma_hex_text(key.0@, 32, i);
}

proof fn lemma_hex_text(s: Seq<u8>, k: int, i: int)
    requires
        0 <= i < k <= s.len(),
    ensures
        hex_text(s, k).len() == 2 * k,
        hex_text(s, k)[2 * i] == digit((s[i] / 16) as nat),
        hex_text(s, k)[2 * i + 1] == digit((s[i] % 16) as nat),
    decreases k,
{
    if i < k - 1 {
        lemma_hex_text(s, k - 1, i);
    } else if k - 1 > 0 {
        lemma_hex_text(s, k - 1, 0);
    } else {
        assert(hex_text(s, 0) =~= Seq::<char>::empty());
    }
}

/// The record of how content was cut keeps the sizes; the three ways of cutting
/// are told apart, and a record is read back from its bytes.
pub proof fn chunk_records_are_told_apart(
    min: u32,
    avg: u32,
    max: u32,
    whole_content: ChunkParamsRecord,
    cdc: ChunkParamsRecord,
    fixed: ChunkParamsRecord,
    bytes: Vec<u8>,
    slice: &[u8],
    back: Result<ChunkParamsRecord, IndexError>,
)
    requires
        call_ensures(ChunkParamsRecord::none, (), whole_content),
        call_ensures(ChunkParamsRecord::fast_cdc, (min, avg, max), cdc),
        call_ensures(ChunkParamsRecord::fixed_size, (avg,), fixed),
        call_ensures(ChunkParamsRecord::as_bytes, (&cdc,), bytes),
        slice@ == bytes@,
        call_ensures(ChunkParamsRecord::parse, (slice,), back),
    ensures
        whole_content.algo != cdc.algo && cdc.algo != fixed.algo && fixed.algo
            != whole_content.algo,
        cdc.min_size == min && cdc.avg_size == avg && cdc.max_size == max,
        fixed.min_size == avg && fixed.avg_size == avg && fixed.max_size == avg,
        back == Ok::<ChunkParamsRecord, IndexError>(cdc),
{
    assert(bytes@.take(16) =~= bytes@);
    ChunkParamsRecord::image_injective(back->Ok_0, cdc);
}

} // verus!
