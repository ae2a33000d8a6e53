//! Bitmap pages: blocks that each hold a slice of a serialised bitmap and
//! point to the next.

use vstd::prelude::*;
use crate::bytes::{copy_range, get_array, get_u32, le, lemma_adjacent, lemma_cat_eq,
    lemma_le_len, lemma_u32_image, put_bytes, put_le, zeros};
use crate::index::bitmap::{bitmap_bytes, bitmap_decoded, bitmap_from_bytes, bitmap_set, bitmap_to_bytes};
use crate::storage::block::{same_magic, BlockHeader, BlockKind, BlockRef,
    BLOCK_PREAMBLE_MAGIC_BLOCK};
use crate::storage::crc::{block_crc, crc32c};
use crate::storage::device::{overwritten, BlockDevice};
use crate::text::{dec, four_bytes, hex_word, push_dec, push_four_bytes, push_hex_word};

verus! {

/// Size of a page.
pub const TAG_BITMAP_PAGE_SIZE: usize = 4096;

/// Bytes of the serialised bitmap in a page, at most.
pub const TAG_BITMAP_PAGE_MAX_BYTES: usize = 4036;

/// Format version of a page.
pub const TAG_BITMAP_PAGE_FORMAT_VERSION: u16 = 1;

/// One page.
#[derive(Clone, Copy, Debug)]
pub struct TagBitmapPage {
    /// `[0..32]`
    pub header: BlockHeader,
    /// `[32..36]` bytes in this page.
    pub bitmap_len: u32,
    /// `[36..52]` the next page; pointing nowhere in the last.
    pub next_page: BlockRef,
    /// `[52..4088]`
    pub bitmap_bytes: [u8; 4036],
    /// `[4088..4092]`
    pub _pad: [u8; 4],
    /// `[4092..4096]` checksum of all bytes before it.
    pub crc: u32,
}

/// What can be wrong with a page.
#[derive(Clone, Debug, PartialEq, Eq)]
#[allow(inconsistent_fields)]
pub enum TagBitmapPageError {
    CrcMismatch { expected: u32, actual: u32 },
    InvalidMagic { actual: [u8; 4] },
    InvalidBlockKind(u16),
    InvalidFormatVersion(u16),
    /// The bitmap does not fit into one page.
    Oversize { got: usize },
    /// The bytes are not those of a bitmap.
    Roaring(String),
    /// The device failed.
    Io,
}

/// The text of an error.
pub open spec fn page_error_text(e: TagBitmapPageError) -> Seq<char> {
    match e {
        TagBitmapPageError::CrcMismatch { expected, actual } =>
            "TagBitmapPage CRC mismatch: expected "@ + hex_word(expected) + ", got "@ + hex_word(
                actual,
            ),
        TagBitmapPageError::InvalidMagic { actual } => "invalid magic: expected MIMR, got "@
            + four_bytes(actual@),
        TagBitmapPageError::InvalidBlockKind(k) => "invalid block kind for TagBitmapPage: got "@
            + dec(k as nat),
        TagBitmapPageError::InvalidFormatVersion(v) =>
            "invalid format version for TagBitmapPage: got "@ + dec(v as nat),
        TagBitmapPageError::Oversize { got } => "bitmap byte image "@ + dec(got as nat)
            + " bytes exceeds single-page capacity 4036; chained pages not yet implemented (R1c-A1)"@,
        TagBitmapPageError::Roaring(m) => "roaring bitmap (de)serialisation failed: "@ + m@,
        TagBitmapPageError::Io => "device I/O failure"@,
    }
}

impl TagBitmapPageError {
    /// The text of the error.
    pub fn message(&self) -> (r: String)
        ensures
            r@ == page_error_text(*self),
    {
        let mut out = String::new();
        match self {
            TagBitmapPageError::CrcMismatch { expected, actual } => {
                out.push_str("TagBitmapPage CRC mismatch: expected ");
                push_hex_word(&mut out, *expected);
                out.push_str(", got ");
                push_hex_word(&mut out, *actual);
            },
            TagBitmapPageError::InvalidMagic { actual } => {
                out.push_str("invalid magic: expected MIMR, got ");
                push_four_bytes(&mut out, actual);
            },
            TagBitmapPageError::InvalidBlockKind(k) => {
                out.push_str("invalid block kind for TagBitmapPage: got ");
                push_dec(&mut out, *k as u64);
            },
            TagBitmapPageError::InvalidFormatVersion(v) => {
                out.push_str("invalid format version for TagBitmapPage: got ");
                push_dec(&mut out, *v as u64);
            },
            TagBitmapPageError::Oversize { got } => {
                out.push_str("bitmap byte image ");
                push_dec(&mut out, *got as u64);
                out.push_str(" bytes exceeds single-page capacity 4036; chained pages not yet implemented (R1c-A1)");
            },
            TagBitmapPageError::Roaring(m) => {
                out.push_str("roaring bitmap (de)serialisation failed: ");
                out.push_str(m.as_str());
            },
            TagBitmapPageError::Io => {
                out.push_str("device I/O failure");
            },
        }
        proof {
            assert(out@ =~= page_error_text(*self));
        }
        out
    }
}

/// `p` carries `bytes` and points to `next`; its checksum is not set.
pub open spec fn page_carries(p: TagBitmapPage, bytes: Seq<u8>, next: BlockRef) -> bool {
    &&& bytes.len() <= 4036
    &&& p.header.pre.magic@ == BLOCK_PREAMBLE_MAGIC_BLOCK@
    &&& p.header.pre.kind == BlockKind::TagBitmapPage.number()
    &&& p.header.pre.format_version == TAG_BITMAP_PAGE_FORMAT_VERSION
    &&& p.header.payload_len == 4060
    &&& p.header.reserved@ == zeros(20)
    &&& p.bitmap_len == bytes.len()
    &&& p.next_page == next
    &&& p.bitmap_bytes@ == bytes + zeros((4036 - bytes.len()) as nat)
    &&& p._pad@ == zeros(4)
    &&& p.crc == 0
}

/// Why a page is not accepted, if it is not.
pub open spec fn page_fault(p: TagBitmapPage) -> Option<TagBitmapPageError> {
    if p.header.pre.magic@ != BLOCK_PREAMBLE_MAGIC_BLOCK@ {
        Some(TagBitmapPageError::InvalidMagic { actual: p.header.pre.magic })
    } else if p.header.pre.kind != BlockKind::TagBitmapPage.number() {
        Some(TagBitmapPageError::InvalidBlockKind(p.header.pre.kind))
    } else if p.header.pre.format_version != TAG_BITMAP_PAGE_FORMAT_VERSION {
        Some(TagBitmapPageError::InvalidFormatVersion(p.header.pre.format_version))
    } else if p.crc != p.checksum() {
        Some(TagBitmapPageError::CrcMismatch { expected: p.crc, actual: p.checksum() })
    } else {
        None
    }
}

/// The page that `bytes` hold.
pub open spec fn page_of(bytes: Seq<u8>) -> TagBitmapPage {
    choose|p: TagBitmapPage| #[trigger] p.image() == bytes
}

/// What reading the page at `offset` gives.
pub open spec fn page_read(contents: Seq<u8>, offset: int) -> Result<
    TagBitmapPage,
    TagBitmapPageError,
> {
    if offset + 4096 > contents.len() {
        Err(TagBitmapPageError::Io)
    } else {
        let p = page_of(contents.subrange(offset, offset + 4096));
        match page_fault(p) {
            Some(e) => Err(e),
            None => Ok(p),
        }
    }
}

impl TagBitmapPage {
    /// The bytes on disk.
    pub open spec fn image(&self) -> Seq<u8> {
        self.header.image() + le(self.bitmap_len as nat, 4) + self.next_page.image()
            + self.bitmap_bytes@ + self._pad@ + le(self.crc as nat, 4)
    }

    /// Append the bytes on disk to `out`.
    pub fn put(&self, out: &mut Vec<u8>)
        ensures
            final(out)@ == old(out)@ + self.image(),
    {
        let ghost start = out@;
        self.header.put(out);
        put_le(out, self.bitmap_len as u64, 4);
        self.next_page.put(out);
        put_bytes(out, self.bitmap_bytes.as_slice());
        put_bytes(out, self._pad.as_slice());
        put_le(out, self.crc as u64, 4);
        proof {
            assert(out@ =~= start + self.image());
        }
    }

    /// The value whose bytes stand at `at`.
    pub fn get(s: &[u8], at: usize) -> (r: Self)
        requires
            at + 4096 <= s@.len(),
        ensures
            r.image() == s@.subrange(at as int, at + 4096),
    {
        let total = s.len();
        let r = TagBitmapPage {
            header: BlockHeader::get(s, at),
            bitmap_len: get_u32(s, at + 32),
            next_page: BlockRef::get(s, at + 36),
            bitmap_bytes: get_array::<4036>(s, at + 52),
            _pad: get_array::<4>(s, at + 4088),
            crc: get_u32(s, at + 4092),
        };
        proof {
            lemma_adjacent(s@, at as int, at + 32, at + 36);
            lemma_adjacent(s@, at as int, at + 36, at + 52);
            lemma_adjacent(s@, at as int, at + 52, at + 4088);
            lemma_adjacent(s@, at as int, at + 4088, at + 4092);
            lemma_adjacent(s@, at as int, at + 4092, at + 4096);
        }
        r
    }

    /// An image has 4096 bytes.
    pub proof fn image_len(&self)
        ensures
            self.image().len() == 4096,
    {
        broadcast use lemma_le_len;

        self.header.image_len();
        self.next_page.image_len();
    }

    /// The image determines the value.
    pub proof fn image_injective(x: TagBitmapPage, y: TagBitmapPage)
        requires
            x.image() == y.image(),
        ensures
            x == y,
    {
        broadcast use lemma_le_len;

        x.header.image_len();
        y.header.image_len();
        x.next_page.image_len();
        y.next_page.image_len();
        let x1 = x.header.image() + le(x.bitmap_len as nat, 4);
        let x2 = x1 + x.next_page.image();
        let x3 = x2 + x.bitmap_bytes@;
        let x4 = x3 + x._pad@;
        let y1 = y.header.image() + le(y.bitmap_len as nat, 4);
        let y2 = y1 + y.next_page.image();
        let y3 = y2 + y.bitmap_bytes@;
        let y4 = y3 + y._pad@;
        lemma_cat_eq(x4, le(x.crc as nat, 4), y4, le(y.crc as nat, 4));
        lemma_cat_eq(x3, x._pad@, y3, y._pad@);
        lemma_cat_eq(x2, x.bitmap_bytes@, y2, y.bitmap_bytes@);
        lemma_cat_eq(x1, x.next_page.image(), y1, y.next_page.image());
        lemma_cat_eq(
            x.header.image(),
            le(x.bitmap_len as nat, 4),
            y.header.image(),
            le(y.bitmap_len as nat, 4),
        );
        BlockHeader::image_injective(x.header, y.header);
        lemma_u32_image(x.bitmap_len, y.bitmap_len);
        BlockRef::image_injective(x.next_page, y.next_page);
        assert(x.bitmap_bytes =~= y.bitmap_bytes);
        assert(x._pad =~= y._pad);
        lemma_u32_image(x.crc, y.crc);
    }

    /// The checksum of the page.
    pub open spec fn checksum(&self) -> u32 {
        crc32c(self.image().subrange(0, 4092))
    }

    /// The bytes that the page carries.
    pub open spec fn carried(&self) -> Seq<u8> {
        if self.bitmap_len <= 4036 {
            self.bitmap_bytes@.take(self.bitmap_len as int)
        } else {
            self.bitmap_bytes@
        }
    }

    /// The page with its checksum set.
    pub open spec fn sealed(&self) -> TagBitmapPage {
        TagBitmapPage { crc: self.checksum(), ..*self }
    }

    /// The checksum does not depend on the field that holds it.
    pub proof fn checksum_ignores_crc(x: TagBitmapPage, y: TagBitmapPage)
        requires
            y == (TagBitmapPage { crc: y.crc, ..x }),
        ensures
            x.checksum() == y.checksum(),
    {
        broadcast use lemma_le_len;

        x.image_len();
        y.image_len();
        assert(x.image().subrange(0, 4092) =~= y.image().subrange(0, 4092));
    }

    /// A page with the whole bitmap.
    pub fn from_bitmap(bm: &roaring::RoaringBitmap) -> (r: Result<Self, TagBitmapPageError>)
        ensures
            bitmap_decoded(bitmap_bytes(*bm)) == Some(bitmap_set(*bm)),
            match r {
                Ok(p) => page_carries(
                    p,
                    bitmap_bytes(*bm),
                    BlockRef { disk_id: 0, _pad: 0, block_no: 0, generation: 0 },
                ),
                Err(e) => bitmap_bytes(*bm).len() > 4036 && e == (TagBitmapPageError::Oversize {
                    got: bitmap_bytes(*bm).len() as usize,
                }),
            },
    {
        let bytes = bitmap_to_bytes(bm);
        TagBitmapPage::from_image(bytes.as_slice())
    }

    /// A page with all the bytes of a serialised bitmap.
    pub fn from_image(bytes: &[u8]) -> (r: Result<Self, TagBitmapPageError>)
        ensures
            match r {
                Ok(p) => page_carries(
                    p,
                    bytes@,
                    BlockRef { disk_id: 0, _pad: 0, block_no: 0, generation: 0 },
                ),
                Err(e) => bytes@.len() > 4036 && e == (TagBitmapPageError::Oversize {
                    got: bytes@.len() as usize,
                }),
            },
    {
        if bytes.len() > 4036 {
            return Err(TagBitmapPageError::Oversize { got: bytes.len() });
        }
        Ok(
            TagBitmapPage::from_bytes_chunk(
                bytes,
                BlockRef { disk_id: 0, _pad: 0, block_no: 0, generation: 0 },
            ),
        )
    }

    /// A page with a slice of a serialised bitmap.
    pub fn from_bytes_chunk(chunk_bytes: &[u8], next_page: BlockRef) -> (r: Self)
        requires
            chunk_bytes@.len() <= 4036,
        ensures
            page_carries(r, chunk_bytes@, next_page),
    {
        let n = chunk_bytes.len();
        let mut bitmap_bytes: [u8; 4036] = [0u8; 4036];
        let mut i: usize = 0;
        while i < n
            invariant
                i <= n,
                n == chunk_bytes@.len(),
                n <= 4036,
                forall|j: int| 0 <= j < i ==> bitmap_bytes@[j] == chunk_bytes@[j],
                forall|j: int| i <= j < 4036 ==> bitmap_bytes@[j] == 0,
            decreases n - i,
        {
            bitmap_bytes[i] = chunk_bytes[i];
            i = i + 1;
        }
        let r = TagBitmapPage {
            header: BlockHeader::new(
                BlockKind::TagBitmapPage,
                TAG_BITMAP_PAGE_FORMAT_VERSION,
                4060,
            ),
            bitmap_len: n as u32,
            next_page,
            bitmap_bytes,
            _pad: [0u8; 4],
            crc: 0,
        };
        proof {
            assert(r.bitmap_bytes@ =~= chunk_bytes@ + zeros((4036 - n) as nat));
            assert(r._pad@ =~= zeros(4));
        }
        r
    }

    /// The bitmap, where the page carries the whole of it.
    pub fn to_bitmap(&self) -> (r: Result<roaring::RoaringBitmap, TagBitmapPageError>)
        ensures
            if self.bitmap_len > 4036 {
                r == Err::<roaring::RoaringBitmap, TagBitmapPageError>(
                    TagBitmapPageError::Oversize { got: self.bitmap_len as usize },
                )
            } else {
                match r {
                    Ok(b) => bitmap_decoded(self.carried()) == Some(bitmap_set(b)),
                    Err(e) => bitmap_decoded(self.carried()) is None && e is Roaring,
                }
            },
    {
        if self.bitmap_len > 4036 {
            return Err(TagBitmapPageError::Oversize { got: self.bitmap_len as usize });
        }
        let bytes = self.bitmap_slice();
        match bitmap_from_bytes(bytes.as_slice()) {
            Ok(b) => Ok(b),
            Err(m) => Err(TagBitmapPageError::Roaring(m)),
        }
    }

    /// The bytes that the page carries.
    pub fn bitmap_slice(&self) -> (r: Vec<u8>)
        ensures
            r@ == self.carried(),
    {
        let n: usize = if self.bitmap_len <= 4036 {
            self.bitmap_len as usize
        } else {
            4036
        };
        let r = copy_range(self.bitmap_bytes.as_slice(), 0, n);
        proof {
            assert(r@ =~= self.carried());
        }
        r
    }

    /// The next page.
    pub fn next_link(&self) -> (r: BlockRef)
        ensures
            r == self.next_page,
    {
        self.next_page
    }

    fn computed_crc(&self) -> (r: u32)
        ensures
            r == self.checksum(),
    {
        let bytes = self.to_bytes();
        block_crc(bytes.as_slice(), 0, 4092)
    }

    /// The bytes of the page.
    pub fn to_bytes(&self) -> (r: Vec<u8>)
        ensures
            r@ == self.image(),
            r@.len() == 4096,
    {
        let mut out: Vec<u8> = Vec::new();
        self.put(&mut out);
        proof {
            self.image_len();
            assert(out@ =~= self.image());
        }
        out
    }

    /// Set the checksum.
    pub fn recompute_crc(&mut self)
        ensures
            *final(self) == old(self).sealed(),
    {
        let crc = self.computed_crc();
        self.crc = crc;
    }

    /// Whether the checksum is that of the page.
    pub fn verify_crc(&self) -> (r: Result<(), TagBitmapPageError>)
        ensures
            r == if self.crc == self.checksum() {
                Ok::<(), TagBitmapPageError>(())
            } else {
                Err(
                    TagBitmapPageError::CrcMismatch {
                        expected: self.crc,
                        actual: self.checksum(),
                    },
                )
            },
    {
        let actual = self.computed_crc();
        if self.crc == actual {
            Ok(())
        } else {
            Err(TagBitmapPageError::CrcMismatch { expected: self.crc, actual })
        }
    }

    /// Whether the page can be accepted.
    fn validate(&self) -> (r: Result<(), TagBitmapPageError>)
        ensures
            r == match page_fault(*self) {
                Some(e) => Err::<(), TagBitmapPageError>(e),
                None => Ok(()),
            },
    {
        if !same_magic(&self.header.pre.magic, &BLOCK_PREAMBLE_MAGIC_BLOCK) {
            return Err(TagBitmapPageError::InvalidMagic { actual: self.header.pre.magic });
        }
        if self.header.pre.kind != BlockKind::TagBitmapPage.code() {
            return Err(TagBitmapPageError::InvalidBlockKind(self.header.pre.kind));
        }
        if self.header.pre.format_version != TAG_BITMAP_PAGE_FORMAT_VERSION {
            return Err(
                TagBitmapPageError::InvalidFormatVersion(self.header.pre.format_version),
            );
        }
        self.verify_crc()
    }

    /// Set the checksum and write the page.
    pub fn write<D: BlockDevice>(&mut self, device: &mut D, offset: u64) -> (r: Result<
        (),
        TagBitmapPageError,
    >)
        ensures
            *final(self) == old(self).sealed(),
            old(device).reliable() ==> final(device).reliable(),
            match r {
                Ok(_) => {
                    &&& offset + 4096 <= old(device).contents().len()
                    &&& final(device).contents() == overwritten(
                        old(device).contents(),
                        offset as int,
                        old(self).sealed().image(),
                    )
                },
                Err(e) => e == TagBitmapPageError::Io && (old(device).reliable() ==> offset + 4096
                    > old(device).contents().len() && final(device).contents() == old(
                    device,
                ).contents()),
            },
    {
        self.recompute_crc();
        let bytes = self.to_bytes();
        match device.write_at(offset, bytes.as_slice()) {
            Ok(_) => Ok(()),
            Err(_) => Err(TagBitmapPageError::Io),
        }
    }

    /// Read a page and check it.
    pub fn read<D: BlockDevice>(device: &D, offset: u64) -> (r: Result<Self, TagBitmapPageError>)
        ensures
            r == page_read(device.contents(), offset as int) || (!device.reliable() && r == Err::<
                Self,
                TagBitmapPageError,
            >(TagBitmapPageError::Io)),
    {
        match device.read_at(offset, 4096) {
            Ok(bytes) => {
                let p = TagBitmapPage::get(bytes.as_slice(), 0);
                proof {
                    assert(bytes@.subrange(0, 4096) =~= bytes@);
                    lemma_page_of(p);
                }
                match p.validate() {
                    Ok(_) => Ok(p),
                    Err(e) => Err(e),
                }
            },
            Err(_) => Err(TagBitmapPageError::Io),
        }
    }
}

/// The page that an image holds is the one with that image.
pub proof fn lemma_page_of(p: TagBitmapPage)
    ensures
        page_of(p.image()) == p,
{
    TagBitmapPage::image_injective(page_of(p.image()), p);
}

/// A page that was written is read back as it was, with its checksum set.
pub proof fn page_write_then_read(contents: Seq<u8>, offset: int, p: TagBitmapPage)
    requires
        0 <= offset,
        offset + 4096 <= contents.len(),
        p.header.pre.magic@ == BLOCK_PREAMBLE_MAGIC_BLOCK@,
        p.header.pre.kind == BlockKind::TagBitmapPage.number(),
        p.header.pre.format_version == TAG_BITMAP_PAGE_FORMAT_VERSION,
    ensures
        page_read(overwritten(contents, offset, p.sealed().image()), offset) == Ok::<
            TagBitmapPage,
            TagBitmapPageError,
        >(p.sealed()),
{
    p.sealed().image_len();
    crate::storage::device::read_after_write(contents, offset, p.sealed().image());
    lemma_page_of(p.sealed());
    TagBitmapPage::checksum_ignores_crc(p, p.sealed());
}

} // verus!
