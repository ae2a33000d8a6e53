//! Bitmap chains: a serialised bitmap in consecutive pages, each of which
//! points to the next.

use vstd::prelude::*;
use crate::bytes::{copy_range, put_bytes};
use crate::index::bitmap::{bitmap_bytes, bitmap_decoded, bitmap_from_bytes, bitmap_insert, bitmap_new,
    bitmap_set, bitmap_to_bytes};
use crate::index::error::IndexError;
use crate::index::overflow_chain::{block_ref_at, counted, null_ref, ref_at};
use crate::index::tag_bitmap_page::{lemma_page_of, page_carries, page_error_text, page_fault,
    page_read, TagBitmapPage, TagBitmapPageError};
use crate::storage::block::BlockRef;
use crate::storage::device::{overwritten, BlockDevice};

verus! {

/// Byte offset of a page of the area.
pub open spec fn page_offset(area: int, slot: int) -> int {
    area + slot * 4096
}

/// The first `slots` pages of the area reach beyond a device of this length, or
/// the last of them has no 64-bit offset.
pub open spec fn pages_beyond(area: int, slots: int, device_len: nat) -> bool {
    page_offset(area, slots) > device_len || page_offset(area, slots - 1) > u64::MAX
}

/// How many pages `bytes` take. Even no bytes take one.
pub open spec fn page_count(bytes: Seq<u8>) -> nat {
    if bytes.len() == 0 {
        1
    } else {
        (bytes.len() + 4035) / 4036
    }
}

/// The slice of `bytes` in page `c`.
pub open spec fn page_slice(bytes: Seq<u8>, c: int) -> Seq<u8> {
    bytes.subrange(
        c * 4036,
        if (c + 1) * 4036 <= bytes.len() {
            (c + 1) * 4036
        } else {
            bytes.len() as int
        },
    )
}

/// The link from page `c` of a chain of `n` pages that starts at `slot`.
pub open spec fn page_link(area: int, slot: int, n: int, c: int) -> BlockRef {
    if c + 1 >= n {
        null_ref()
    } else {
        ref_at(page_offset(area, slot + c + 1))
    }
}

/// `p` carries `bytes`, points to `next` and has its checksum.
pub open spec fn sealed_page(p: TagBitmapPage, bytes: Seq<u8>, next: BlockRef) -> bool {
    exists|q: TagBitmapPage| #[trigger] page_carries(q, bytes, next) && p == q.sealed()
}

/// `pages` are `bytes` as a chain that starts at `slot`.
pub open spec fn is_chain(pages: Seq<TagBitmapPage>, bytes: Seq<u8>, area: int, slot: int) -> bool {
    &&& pages.len() == page_count(bytes)
    &&& forall|c: int|
        0 <= c < pages.len() ==> sealed_page(
            #[trigger] pages[c],
            page_slice(bytes, c),
            page_link(area, slot, page_count(bytes) as int, c),
        )
}

/// The bytes of pages from `from` on, one after the other.
pub open spec fn page_images(pages: Seq<TagBitmapPage>, from: int) -> Seq<u8>
    decreases pages.len() - from,
{
    if from >= pages.len() {
        Seq::empty()
    } else {
        pages[from].image() + page_images(pages, from + 1)
    }
}

/// The bytes of pages are 4096 for each.
pub proof fn lemma_page_images_len(pages: Seq<TagBitmapPage>, from: int)
    requires
        0 <= from <= pages.len(),
    ensures
        page_images(pages, from).len() == 4096 * (pages.len() - from),
    decreases pages.len() - from,
{
    if from < pages.len() {
        pages[from].image_len();
        lemma_page_images_len(pages, from + 1);
    }
}

/// Where the bytes of a page stand.
pub proof fn lemma_page_images_at(pages: Seq<TagBitmapPage>, from: int, i: int)
    requires
        0 <= from <= i < pages.len(),
    ensures
        page_images(pages, from).len() == 4096 * (pages.len() - from),
        page_images(pages, from).subrange(4096 * (i - from), 4096 * (i - from) + 4096)
            == pages[i].image(),
    decreases i - from,
{
    lemma_page_images_len(pages, from);
    lemma_page_images_len(pages, from + 1);
    pages[from].image_len();
    if from < i {
        lemma_page_images_at(pages, from + 1, i);
        assert(page_images(pages, from).subrange(4096 * (i - from), 4096 * (i - from) + 4096)
            =~= page_images(pages, from + 1).subrange(
            4096 * (i - from - 1),
            4096 * (i - from - 1) + 4096,
        ));
    } else {
        assert(page_images(pages, from).subrange(0, 4096) =~= pages[i].image());
    }
}

/// Adding a page in front.
proof fn lemma_page_images_tail(p: TagBitmapPage, pages: Seq<TagBitmapPage>, k: int)
    requires
        0 <= k <= pages.len(),
    ensures
        page_images(seq![p] + pages, k + 1) == page_images(pages, k),
    decreases pages.len() - k,
{
    if k < pages.len() {
        lemma_page_images_tail(p, pages, k + 1);
        assert((seq![p] + pages)[k + 1] == pages[k]);
    }
}

/// The bytes of two groups of pages.
pub proof fn lemma_page_images_join(a: Seq<TagBitmapPage>, b: Seq<TagBitmapPage>, k: int)
    requires
        0 <= k <= a.len(),
    ensures
        page_images(a + b, k) == page_images(a, k) + page_images(b, 0),
    decreases a.len() - k,
{
    if k < a.len() {
        lemma_page_images_join(a, b, k + 1);
        assert(page_images(a + b, k) =~= page_images(a, k) + page_images(b, 0));
    } else {
        lemma_page_images_shift(a, b, 0);
        assert(page_images(a, k) =~= Seq::empty());
        assert(page_images(a, k) + page_images(b, 0) =~= page_images(b, 0));
    }
}

proof fn lemma_page_images_shift(a: Seq<TagBitmapPage>, b: Seq<TagBitmapPage>, k: int)
    requires
        0 <= k <= b.len(),
    ensures
        page_images(a + b, a.len() + k) == page_images(b, k),
    decreases b.len() - k,
{
    if k < b.len() {
        lemma_page_images_shift(a, b, k + 1);
    }
}

/// Writing right before what was written.
proof fn lemma_overwritten_front(contents: Seq<u8>, at: int, a: Seq<u8>, b: Seq<u8>)
    requires
        0 <= at,
        at + a.len() + b.len() <= contents.len(),
    ensures
        overwritten(overwritten(contents, at + a.len(), b), at, a) == overwritten(
            contents,
            at,
            a + b,
        ),
{
    assert(overwritten(overwritten(contents, at + a.len(), b), at, a) =~= overwritten(
        contents,
        at,
        a + b,
    ));
}

/// Writing right behind what was written.
pub proof fn lemma_overwritten_back(contents: Seq<u8>, at: int, a: Seq<u8>, b: Seq<u8>)
    requires
        0 <= at,
        at + a.len() + b.len() <= contents.len(),
    ensures
        overwritten(overwritten(contents, at, a), at + a.len(), b) == overwritten(
            contents,
            at,
            a + b,
        ),
{
    assert(overwritten(overwritten(contents, at, a), at + a.len(), b) =~= overwritten(
        contents,
        at,
        a + b,
    ));
}

/// Write a serialised bitmap as a chain into the pages from `*next_slot` on,
/// and return the reference to its first page.
pub fn write_image_chain<D: BlockDevice>(
    device: &mut D,
    area_offset: u64,
    cap_pages: usize,
    next_slot: &mut usize,
    bytes: &[u8],
) -> (r: Result<BlockRef, IndexError>)
    ensures
        old(device).reliable() ==> final(device).reliable(),
        match r {
            Ok(head) => {
                let n = page_count(bytes@) as int;
                &&& *final(next_slot) == *old(next_slot) + n
                &&& *final(next_slot) <= cap_pages
                &&& head == ref_at(page_offset(area_offset as int, *old(next_slot) as int))
                &&& page_offset(area_offset as int, *final(next_slot) as int) <= old(
                    device,
                ).contents().len()
                &&& exists|pages: Seq<TagBitmapPage>|
                    #[trigger] is_chain(
                        pages,
                        bytes@,
                        area_offset as int,
                        *old(next_slot) as int,
                    ) && final(device).contents() == overwritten(
                        old(device).contents(),
                        page_offset(area_offset as int, *old(next_slot) as int),
                        page_images(pages, 0),
                    )
            },
            Err(IndexError::BitmapAreaExhausted { needed, cap }) => {
                &&& needed == counted(*old(next_slot) + page_count(bytes@))
                &&& *old(next_slot) + page_count(bytes@) > cap_pages
                &&& cap == cap_pages
                &&& *final(device) == *old(device)
                &&& *final(next_slot) == *old(next_slot)
            },
            Err(e) => {
                &&& e is Roaring
                &&& e->Roaring_0@ == page_error_text(TagBitmapPageError::Io)
                &&& *old(next_slot) + page_count(bytes@) <= cap_pages
                &&& old(device).reliable() ==> pages_beyond(
                    area_offset as int,
                    *old(next_slot) + page_count(bytes@),
                    old(device).contents().len(),
                ) && final(device).contents() == old(device).contents()
            },
        },
{
    let total = bytes.len();
    let n: usize = if total == 0 {
        1
    } else {
        (total - 1) / 4036 + 1
    };
    let first: usize = *next_slot;
    let ghost area = area_offset as int;
    let ghost start = device.contents();
    proof {
        assert(n == page_count(bytes@));
    }
    if cap_pages < n || first > cap_pages - n {
        let needed: usize = if first > usize::MAX - n {
            usize::MAX
        } else {
            first + n
        };
        return Err(IndexError::BitmapAreaExhausted { needed, cap: cap_pages });
    }
    let last: u64 = (first + (n - 1)) as u64;
    if last > (u64::MAX - area_offset) / 4096 {
        return Err(IndexError::Roaring(TagBitmapPageError::Io.message()));
    }
    *next_slot = first + n;
    let ghost mut pages: Seq<TagBitmapPage> = Seq::empty();
    let mut link = BlockRef { disk_id: 0, _pad: 0, block_no: 0, generation: 0 };
    let mut c: usize = n;
    while c > 0
        invariant
            c <= n,
            n == page_count(bytes@),
            total == bytes@.len(),
            first + n <= cap_pages,
            page_offset(area_offset as int, first + n - 1) <= u64::MAX,
            area == area_offset,
            *next_slot == first + n,
            first == *old(next_slot),
            start == old(device).contents(),
            old(device).reliable() ==> device.reliable(),
            pages.len() == n - c,
            forall|i: int|
                0 <= i < pages.len() ==> sealed_page(
                    #[trigger] pages[i],
                    page_slice(bytes@, c + i),
                    page_link(area, first as int, n as int, c + i),
                ),
            c < n ==> device.contents() == overwritten(
                start,
                page_offset(area, first + c),
                page_images(pages, 0),
            ),
            c == n ==> device.contents() == start,
            c < n ==> page_offset(area, first + n) <= start.len(),
            link == page_link(area, first as int, n as int, c - 1),
        decreases c,
    {
        c = c - 1;
        let from: usize = c * 4036;
        let to: usize = if total - from >= 4036 {
            from + 4036
        } else {
            total
        };
        let offset: u64 = area_offset + ((first + c) as u64) * 4096;
        let slice = copy_range(bytes, from, to);
        let mut page = TagBitmapPage::from_bytes_chunk(slice.as_slice(), link);
        let ghost plain = page;
        let ghost before = device.contents();
        match page.write(device, offset) {
            Ok(_) => {},
            Err(e) => {
                return Err(IndexError::Roaring(e.message()));
            },
        }
        proof {
            let old_pages = pages;
            assert(page_carries(plain, page_slice(bytes@, c as int), link));
            assert(sealed_page(page, page_slice(bytes@, c as int), link));
            pages = seq![page] + old_pages;
            assert forall|i: int| 0 <= i < pages.len() implies sealed_page(
                #[trigger] pages[i],
                page_slice(bytes@, c + i),
                page_link(area, first as int, n as int, c + i),
            ) by {
                if i > 0 {
                    assert(pages[i] == old_pages[i - 1]);
                }
            }
            lemma_page_images_tail(page, old_pages, 0);
            lemma_page_images_len(old_pages, 0);
            page.image_len();
            assert(page_images(pages, 0) =~= page.image() + page_images(old_pages, 0));
            if c + 1 < n {
                lemma_overwritten_front(
                    start,
                    offset as int,
                    page.image(),
                    page_images(old_pages, 0),
                );
            } else {
                assert(page_images(old_pages, 0) =~= Seq::empty());
                assert(page_images(pages, 0) =~= page.image());
            }
        }
        link = block_ref_at(offset);
    }
    proof {
        assert(is_chain(pages, bytes@, area, first as int));
    }
    let head_offset: u64 = area_offset + (first as u64) * 4096;
    Ok(block_ref_at(head_offset))
}

/// Write a bitmap as a chain into the pages from `*next_slot` on, and return
/// the reference to its first page.
pub fn write_bitmap_chain<D: BlockDevice>(
    device: &mut D,
    area_offset: u64,
    cap_pages: usize,
    next_slot: &mut usize,
    bitmap: &roaring::RoaringBitmap,
) -> (r: Result<BlockRef, IndexError>)
    ensures
        old(device).reliable() ==> final(device).reliable(),
        ({
            let bytes = bitmap_bytes(*bitmap);
            &&& bitmap_decoded(bytes) == Some(bitmap_set(*bitmap))
            &&& bytes.len() > 0
            &&& match r {
                Ok(head) => {
                    let n = page_count(bytes) as int;
                    &&& *final(next_slot) == *old(next_slot) + n
                    &&& *final(next_slot) <= cap_pages
                    &&& head == ref_at(page_offset(area_offset as int, *old(next_slot) as int))
                    &&& page_offset(area_offset as int, *final(next_slot) as int) <= old(
                        device,
                    ).contents().len()
                    &&& exists|pages: Seq<TagBitmapPage>|
                        #[trigger] is_chain(
                            pages,
                            bytes,
                            area_offset as int,
                            *old(next_slot) as int,
                        ) && final(device).contents() == overwritten(
                            old(device).contents(),
                            page_offset(area_offset as int, *old(next_slot) as int),
                            page_images(pages, 0),
                        )
                },
                Err(IndexError::BitmapAreaExhausted { needed, cap }) => {
                    &&& needed == counted(*old(next_slot) + page_count(bytes))
                    &&& *old(next_slot) + page_count(bytes) > cap_pages
                    &&& cap == cap_pages
                    &&& *final(device) == *old(device)
                    &&& *final(next_slot) == *old(next_slot)
                },
                Err(e) => {
                    &&& e is Roaring
                    &&& e->Roaring_0@ == page_error_text(TagBitmapPageError::Io)
                    &&& *old(next_slot) + page_count(bytes) <= cap_pages
                    &&& old(device).reliable() ==> pages_beyond(
                        area_offset as int,
                        *old(next_slot) + page_count(bytes),
                        old(device).contents().len(),
                    ) && final(device).contents() == old(device).contents()
                },
            }
        }),
{
    let bytes = bitmap_to_bytes(bitmap);
    write_image_chain(device, area_offset, cap_pages, next_slot, bytes.as_slice())
}

/// The link that follows the first `i` pages of a chain.
pub open spec fn link_at(head: BlockRef, pages: Seq<TagBitmapPage>, i: int) -> BlockRef {
    if i <= 0 {
        head
    } else {
        pages[i - 1].next_page
    }
}

/// `pages` are the first pages of the chain that starts at `head`. No block
/// occurs twice.
pub open spec fn pages_from(contents: Seq<u8>, head: BlockRef, pages: Seq<TagBitmapPage>) -> bool {
    &&& forall|i: int|
        0 <= i < pages.len() ==> {
            &&& !(#[trigger] link_at(head, pages, i)).is_null()
            &&& page_read(contents, link_at(head, pages, i).block_no as int * 4096) == Ok::<
                TagBitmapPage,
                TagBitmapPageError,
            >(pages[i])
        }
    &&& forall|i: int, j: int|
        0 <= i < j < pages.len() ==> (#[trigger] link_at(head, pages, i)).block_no != (
        #[trigger] link_at(head, pages, j)).block_no
}

/// The bytes that the first `k` pages carry.
pub open spec fn carried_bytes(pages: Seq<TagBitmapPage>, k: int) -> Seq<u8>
    decreases k,
{
    if k <= 0 {
        Seq::empty()
    } else {
        carried_bytes(pages, k - 1) + pages[k - 1].carried()
    }
}

/// `r` is what reading a chain gives after the pages `pages`, which are the
/// last that can be read.
pub open spec fn chain_ends(
    contents: Seq<u8>,
    reliable: bool,
    head: BlockRef,
    pages: Seq<TagBitmapPage>,
    r: Result<roaring::RoaringBitmap, IndexError>,
) -> bool {
    let n = pages.len() as int;
    let next = link_at(head, pages, n);
    let bytes = carried_bytes(pages, n);
    &&& pages_from(contents, head, pages)
    &&& match r {
        Ok(b) => next.is_null() && if bytes.len() == 0 {
            bitmap_set(b) == Set::<u32>::empty()
        } else {
            bitmap_decoded(bytes) == Some(bitmap_set(b))
        },
        Err(e) => e is Roaring && if next.is_null() {
            bytes.len() > 0 && bitmap_decoded(bytes) is None
        } else {
            let m = e->Roaring_0@;
            ||| {
                &&& exists|i: int| 0 <= i < n && (#[trigger] link_at(head, pages, i)).block_no
                    == next.block_no
                &&& m == "bitmap page chain does not end"@
            }
            ||| page_read(contents, next.block_no as int * 4096) is Err && m == page_error_text(
                page_read(contents, next.block_no as int * 4096)->Err_0,
            )
            ||| !reliable && m == page_error_text(TagBitmapPageError::Io)
        },
    }
}

/// `r` is what reading the chain that starts at `head` gives.
pub open spec fn chain_outcome(
    contents: Seq<u8>,
    reliable: bool,
    head: BlockRef,
    r: Result<roaring::RoaringBitmap, IndexError>,
) -> bool {
    exists|pages: Seq<TagBitmapPage>| #[trigger] chain_ends(contents, reliable, head, pages, r)
}

/// Distinct numbers of 32 bits are no more than there are.
proof fn lemma_distinct_u32(s: Seq<u32>)
    requires
        s.no_duplicates(),
    ensures
        s.len() <= 0x1_0000_0000,
{
    let t = s.map_values(|x: u32| x as int);
    assert(t.no_duplicates()) by {
        assert forall|i: int, j: int| 0 <= i < t.len() && 0 <= j < t.len() && i != j implies t[i]
            != t[j] by {
            assert(s[i] != s[j]);
        }
    }
    t.unique_seq_to_set();
    vstd::set_lib::lemma_int_range(0, 0x1_0000_0000);
    let all = vstd::set_lib::set_int_range(0, 0x1_0000_0000);
    assert(t.to_set().subset_of(all));
    vstd::set_lib::lemma_len_subset(t.to_set(), all);
}

/// Read the chain that starts at `head` and decode the bitmap that its pages
/// carry. A chain that comes back to a page does not end, and is refused.
pub fn read_bitmap_chain<D: BlockDevice>(device: &D, head: BlockRef) -> (r: Result<
    roaring::RoaringBitmap,
    IndexError,
>)
    ensures
        chain_outcome(device.contents(), device.reliable(), head, r),
{
    let ghost contents = device.contents();
    let ghost mut pages: Seq<TagBitmapPage> = Seq::empty();
    let ghost mut numbers: Seq<u32> = Seq::empty();
    let mut seen = bitmap_new();
    let mut buf: Vec<u8> = Vec::new();
    let mut cur = head;
    proof {
        assert(numbers.to_set() =~= Set::<u32>::empty());
    }
    while !cur.points_nowhere()
        invariant
            contents == device.contents(),
            pages_from(contents, head, pages),
            cur == link_at(head, pages, pages.len() as int),
            buf@ == carried_bytes(pages, pages.len() as int),
            numbers.len() == pages.len(),
            numbers.no_duplicates(),
            forall|i: int|
                0 <= i < pages.len() ==> #[trigger] numbers[i] == link_at(head, pages, i).block_no,
            bitmap_set(seen) == numbers.to_set(),
        decreases 0x1_0000_0000 - pages.len(),
    {
        let ghost n = pages.len() as int;
        let ghost known = bitmap_set(seen);
        if !bitmap_insert(&mut seen, cur.block_no) {
            let e = IndexError::Roaring(message_of("bitmap page chain does not end"));
            proof {
                assert(numbers.to_set().contains(cur.block_no));
                let i = choose|i: int| 0 <= i < numbers.len() && numbers[i] == cur.block_no;
                assert(link_at(head, pages, i).block_no == cur.block_no);
                assert(chain_ends(contents, device.reliable(), head, pages, Err(e)));
            }
            return Err(e);
        }
        let offset: u64 = (cur.block_no as u64) * 4096;
        match TagBitmapPage::read(device, offset) {
            Ok(page) => {
                let slice = page.bitmap_slice();
                put_bytes(&mut buf, slice.as_slice());
                proof {
                    let before = pages;
                    let old_numbers = numbers;
                    pages = pages.push(page);
                    numbers = numbers.push(cur.block_no);
                    assert(!old_numbers.to_set().contains(cur.block_no));
                    assert forall|i: int| 0 <= i < old_numbers.len() implies old_numbers[i]
                        != cur.block_no by {
                        assert(old_numbers.contains(old_numbers[i]));
                    }
                    assert forall|i: int| 0 <= i <= n implies #[trigger] link_at(head, pages, i)
                        == link_at(head, before, i) by {}
                    assert forall|i: int| 0 <= i < pages.len() implies #[trigger] numbers[i]
                        == link_at(head, pages, i).block_no by {
                        if i < n {
                            assert(old_numbers[i] == link_at(head, before, i).block_no);
                        }
                    }
                    assert forall|i: int, j: int|
                        0 <= i < j < pages.len() implies (#[trigger] link_at(
                        head,
                        pages,
                        i,
                    )).block_no != (#[trigger] link_at(head, pages, j)).block_no by {
                        assert(numbers[i] == link_at(head, pages, i).block_no);
                        assert(numbers[j] == link_at(head, pages, j).block_no);
                        assert(old_numbers[i] == numbers[i]);
                        if j < n {
                            assert(old_numbers[j] == numbers[j]);
                        }
                    }
                    assert forall|i: int| 0 <= i < pages.len() implies {
                        &&& !(#[trigger] link_at(head, pages, i)).is_null()
                        &&& page_read(contents, link_at(head, pages, i).block_no as int * 4096)
                            == Ok::<TagBitmapPage, TagBitmapPageError>(pages[i])
                    } by {
                        assert(link_at(head, pages, i) == link_at(head, before, i));
                    }
                    lemma_carried_prefix(before, pages, n);
                    assert(numbers.to_set() =~= old_numbers.to_set().insert(cur.block_no)) by {
                        assert forall|x: u32| numbers.contains(x) == (old_numbers.contains(x) || x
                            == cur.block_no) by {
                            if old_numbers.contains(x) {
                                let k = choose|k: int|
                                    0 <= k < old_numbers.len() && old_numbers[k] == x;
                                assert(numbers[k] == x);
                            }
                            assert(numbers[n] == cur.block_no);
                            if numbers.contains(x) && x != cur.block_no {
                                let k = choose|k: int| 0 <= k < numbers.len() && numbers[k] == x;
                                assert(old_numbers[k] == x);
                            }
                        }
                    }
                    lemma_distinct_u32(numbers);
                }
                cur = page.next_link();
            },
            Err(e) => {
                let out = IndexError::Roaring(e.message());
                proof {
                    assert(chain_ends(contents, device.reliable(), head, pages, Err(out)));
                }
                return Err(out);
            },
        }
    }
    if buf.len() == 0 {
        let b = bitmap_new();
        proof {
            assert(chain_ends(contents, device.reliable(), head, pages, Ok(b)));
        }
        return Ok(b);
    }
    match bitmap_from_bytes(buf.as_slice()) {
        Ok(b) => {
            proof {
                assert(chain_ends(contents, device.reliable(), head, pages, Ok(b)));
            }
            Ok(b)
        },
        Err(m) => {
            let e = IndexError::Roaring(m);
            proof {
                assert(chain_ends(contents, device.reliable(), head, pages, Err(e)));
            }
            Err(e)
        },
    }
}

fn message_of(m: &str) -> (r: String)
    ensures
        r@ == m@,
{
    let mut out = String::new();
    out.push_str(m);
    proof {
        assert(out@ =~= m@);
    }
    out
}

proof fn lemma_carried_prefix(a: Seq<TagBitmapPage>, b: Seq<TagBitmapPage>, k: int)
    requires
        0 <= k <= a.len(),
        k <= b.len(),
        forall|i: int| 0 <= i < k ==> a[i] == b[i],
    ensures
        carried_bytes(a, k) == carried_bytes(b, k),
    decreases k,
{
    if k > 0 {
        lemma_carried_prefix(a, b, k - 1);
    }
}

/// A page of a chain is accepted when it is read.
proof fn lemma_sealed_page(p: TagBitmapPage, bytes: Seq<u8>, next: BlockRef)
    requires
        sealed_page(p, bytes, next),
    ensures
        page_fault(p) is None,
        p.carried() == bytes,
        p.next_page == next,
{
    let q = choose|q: TagBitmapPage| #[trigger] page_carries(q, bytes, next) && p == q.sealed();
    TagBitmapPage::checksum_ignores_crc(q, p);
    assert(p.bitmap_bytes@.take(bytes.len() as int) =~= bytes);
}

/// The pages of a chain carry the bytes.
proof fn lemma_chain_carries(
    pages: Seq<TagBitmapPage>,
    bytes: Seq<u8>,
    area: int,
    slot: int,
    k: int,
)
    requires
        is_chain(pages, bytes, area, slot),
        bytes.len() > 0,
        0 <= k <= pages.len(),
    ensures
        carried_bytes(pages, k) == bytes.take(
            if k == pages.len() {
                bytes.len() as int
            } else {
                k * 4036
            },
        ),
    decreases k,
{
    if k > 0 {
        lemma_chain_carries(pages, bytes, area, slot, k - 1);
        let c = k - 1;
        lemma_sealed_page(
            pages[c],
            page_slice(bytes, c),
            page_link(area, slot, page_count(bytes) as int, c),
        );
        assert(carried_bytes(pages, k) =~= bytes.take(
            if k == pages.len() {
                bytes.len() as int
            } else {
                k * 4036
            },
        ));
    } else {
        assert(carried_bytes(pages, 0) =~= bytes.take(0));
    }
}

/// What a chain that was written gives when it is read: the bitmap that was
/// serialised, and no error. The area starts at a block, and its block
/// numbers fit into a reference.
pub proof fn chain_round_trip(
    contents: Seq<u8>,
    pages: Seq<TagBitmapPage>,
    bytes: Seq<u8>,
    area: int,
    slot: int,
    members: Set<u32>,
    r: Result<roaring::RoaringBitmap, IndexError>,
)
    requires
        0 <= area,
        area % 4096 == 0,
        0 <= slot,
        bytes.len() > 0,
        bitmap_decoded(bytes) == Some(members),
        is_chain(pages, bytes, area, slot),
        page_offset(area, slot + pages.len()) <= contents.len(),
        page_offset(area, slot + pages.len()) <= 0x1000_0000_0000,
        forall|c: int|
            0 <= c < pages.len() ==> contents.subrange(
                page_offset(area, slot + c),
                page_offset(area, slot + c) + 4096,
            ) == (#[trigger] pages[c]).image(),
        chain_outcome(contents, true, ref_at(page_offset(area, slot)), r),
    ensures
        r is Ok,
        bitmap_set(r->Ok_0) == members,
{
    let head = ref_at(page_offset(area, slot));
    let n = pages.len() as int;
    let w = choose|w: Seq<TagBitmapPage>| #[trigger] chain_ends(contents, true, head, w, r);
    assert forall|c: int| 0 <= c < n implies #[trigger] in_place(
        contents,
        pages,
        area,
        slot,
        c,
    ) by {
        assert(contents.subrange(
            page_offset(area, slot + c),
            page_offset(area, slot + c) + 4096,
        ) == pages[c].image());
        lemma_in_place(contents, pages, bytes, area, slot, c);
    }
    lemma_walk(contents, pages, area, slot, head, w, w.len() as int);
    lemma_no_early_end(contents, pages, area, slot, w, r);
    assert(w =~= pages);
    lemma_chain_carries(pages, bytes, area, slot, n);
    assert(bytes.take(bytes.len() as int) =~= bytes);
}

/// A page of a chain is read where its reference says.
proof fn lemma_in_place(
    contents: Seq<u8>,
    pages: Seq<TagBitmapPage>,
    bytes: Seq<u8>,
    area: int,
    slot: int,
    c: int,
)
    requires
        0 <= c < pages.len(),
        0 <= area,
        area % 4096 == 0,
        0 <= slot,
        is_chain(pages, bytes, area, slot),
        page_offset(area, slot + pages.len()) <= contents.len(),
        page_offset(area, slot + pages.len()) <= 0x1000_0000_0000,
        contents.subrange(
            page_offset(area, slot + c),
            page_offset(area, slot + c) + 4096,
        ) == pages[c].image(),
    ensures
        in_place(contents, pages, area, slot, c),
{
    let n = pages.len() as int;
    lemma_sealed_page(pages[c], page_slice(bytes, c), page_link(area, slot, n, c));
    lemma_page_of(pages[c]);
    let offset = page_offset(area, slot + c);
    assert(offset % 4096 == 0);
    assert(offset / 4096 < 0x1_0000_0000);
}

/// A reader does not stop before the last page of a chain.
proof fn lemma_no_early_end(
    contents: Seq<u8>,
    pages: Seq<TagBitmapPage>,
    area: int,
    slot: int,
    w: Seq<TagBitmapPage>,
    r: Result<roaring::RoaringBitmap, IndexError>,
)
    requires
        pages.len() > 0,
        forall|c: int|
            0 <= c < pages.len() ==> #[trigger] in_place(contents, pages, area, slot, c),
        chain_ends(contents, true, ref_at(page_offset(area, slot)), w, r),
    ensures
        w.len() == pages.len(),
{
    let head = ref_at(page_offset(area, slot));
    let k = w.len() as int;
    let next = link_at(head, w, k);
    lemma_walk(contents, pages, area, slot, head, w, k);
    if k < pages.len() {
        assert(next == ref_at(page_offset(area, slot + k)));
        assert(in_place(contents, pages, area, slot, k));
        assert(!next.is_null());
        assert forall|i: int| 0 <= i < k implies (#[trigger] link_at(head, w, i)).block_no
            != next.block_no by {
            lemma_walk(contents, pages, area, slot, head, w, i);
            assert(in_place(contents, pages, area, slot, i));
        }
    }
}

/// Page `c` of the chain stands where its reference says.
spec fn in_place(
    contents: Seq<u8>,
    pages: Seq<TagBitmapPage>,
    area: int,
    slot: int,
    c: int,
) -> bool {
    let link = ref_at(page_offset(area, slot + c));
    &&& link.block_no as int * 4096 == page_offset(area, slot + c)
    &&& page_read(contents, link.block_no as int * 4096) == Ok::<
        TagBitmapPage,
        TagBitmapPageError,
    >(pages[c])
    &&& pages[c].next_page == page_link(area, slot, pages.len() as int, c)
}

/// A walk along a chain meets its pages.
proof fn lemma_walk(
    contents: Seq<u8>,
    pages: Seq<TagBitmapPage>,
    area: int,
    slot: int,
    head: BlockRef,
    w: Seq<TagBitmapPage>,
    k: int,
)
    requires
        0 <= k <= w.len(),
        pages.len() > 0,
        head == ref_at(page_offset(area, slot)),
        pages_from(contents, head, w),
        forall|c: int|
            0 <= c < pages.len() ==> #[trigger] in_place(contents, pages, area, slot, c),
    ensures
        k <= pages.len(),
        forall|i: int| 0 <= i < k ==> #[trigger] w[i] == pages[i],
        link_at(head, w, k) == if k < pages.len() {
            ref_at(page_offset(area, slot + k))
        } else {
            null_ref()
        },
    decreases k,
{
    if k > 0 {
        lemma_walk(contents, pages, area, slot, head, w, k - 1);
        assert(!link_at(head, w, k - 1).is_null());
        assert(in_place(contents, pages, area, slot, k - 1));
        assert(w[k - 1] == pages[k - 1]);
    }
}

} // verus!
