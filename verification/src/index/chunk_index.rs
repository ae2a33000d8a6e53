//! The chunk index: where the chunk with a given hash is stored, and how many
//! objects refer to it.

use vstd::prelude::*;
use vstd::utf8::encode_utf8;
use crate::bytes::{be, bytes_before, copy_range, get_array, get_be, get_u32, le, lemma_adjacent,
    lemma_be_len, lemma_be_of_be_value, lemma_cat_eq, lemma_le_len, lemma_lex_total,
    lemma_lex_transitive, lemma_u32_image, lex_less, put_be, put_bytes, put_le, put_zeros, zeros};
use crate::index::error::IndexError;
use crate::ordmap::{lemma_items_map, Key, OrdMap};
use crate::storage::block::{BlobRef, BtreeKind};
use crate::storage::device::{BlockDevice, StorageError};
use crate::storage::node::{LoadedNode, SortedRun};
use crate::storage::region::{codec_fits, load_node, node_loaded, node_stored, store_node,
    stored_region_loads};
use crate::text::{dec, digit, digit_char, push_dec};

verus! {

/// Size of the region that holds the index.
pub const CHUNK_INDEX_REGION_SIZE: u64 = 262144;

/// Binary logarithm of [`CHUNK_INDEX_REGION_SIZE`].
pub const REGION_SIZE_LOG2: u8 = 18;

/// Size of a [`ChunkIndexLeafEntry`].
pub const CHUNK_INDEX_LEAF_ENTRY_SIZE: usize = 56;

/// Size of a [`ChunkIndexValue`].
pub const CHUNK_INDEX_VALUE_SIZE: usize = 24;

/// An entry with its hash.
#[derive(Clone, Copy, Debug)]
pub struct ChunkIndexLeafEntry {
    /// `[0..32]`
    pub chunk_hash: [u8; 32],
    /// `[32..36]`
    pub ref_count: u32,
    /// `[36..40]`
    pub length: u32,
    /// `[40..56]`
    pub blob: BlobRef,
}

impl ChunkIndexLeafEntry {
    /// The bytes on disk.
    pub open spec fn image(&self) -> Seq<u8> {
        self.chunk_hash@ + le(self.ref_count as nat, 4) + le(self.length as nat, 4)
            + self.blob.image()
    }

    /// Append the bytes on disk to `out`.
    pub fn put(&self, out: &mut Vec<u8>)
        ensures
            final(out)@ == old(out)@ + self.image(),
    {
        let ghost start = out@;
        put_bytes(out, self.chunk_hash.as_slice());
        put_le(out, self.ref_count as u64, 4);
        put_le(out, self.length as u64, 4);
        self.blob.put(out);
        proof {
            assert(out@ =~= start + self.image());
        }
    }

    /// The value whose bytes stand at `at`.
    pub fn get(s: &[u8], at: usize) -> (r: Self)
        requires
            at + 56 <= s@.len(),
        ensures
            r.image() == s@.subrange(at as int, at + 56),
    {
        let total = s.len();
        let r = ChunkIndexLeafEntry {
            chunk_hash: get_array::<32>(s, at),
            ref_count: get_u32(s, at + 32),
            length: get_u32(s, at + 36),
            blob: BlobRef::get(s, at + 40),
        };
        proof {
            lemma_adjacent(s@, at as int, at + 32, at + 36);
            lemma_adjacent(s@, at as int, at + 36, at + 40);
            lemma_adjacent(s@, at as int, at + 40, at + 56);
        }
        r
    }

    /// An image has 56 bytes.
    pub proof fn image_len(&self)
        ensures
            self.image().len() == 56,
    {
        broadcast use lemma_le_len;

        self.blob.image_len();
    }

    /// The image determines the value.
    pub proof fn image_injective(x: ChunkIndexLeafEntry, y: ChunkIndexLeafEntry)
        requires
            x.image() == y.image(),
        ensures
            x == y,
    {
        broadcast use lemma_le_len;

        x.blob.image_len();
        y.blob.image_len();
        let x1 = x.chunk_hash@ + le(x.ref_count as nat, 4);
        let x2 = x1 + le(x.length as nat, 4);
        let y1 = y.chunk_hash@ + le(y.ref_count as nat, 4);
        let y2 = y1 + le(y.length as nat, 4);
        lemma_cat_eq(x2, x.blob.image(), y2, y.blob.image());
        lemma_cat_eq(x1, le(x.length as nat, 4), y1, le(y.length as nat, 4));
        lemma_cat_eq(
            x.chunk_hash@,
            le(x.ref_count as nat, 4),
            y.chunk_hash@,
            le(y.ref_count as nat, 4),
        );
        assert(x.chunk_hash =~= y.chunk_hash);
        lemma_u32_image(x.ref_count, y.ref_count);
        lemma_u32_image(x.length, y.length);
        BlobRef::image_injective(x.blob, y.blob);
    }
}

/// The hash of a chunk.
#[derive(Clone, Copy, Debug, PartialEq, Eq, Hash, PartialOrd, Ord)]
pub struct ChunkHashKey(pub [u8; 32]);

/// What a hexadecimal digit stands for.
pub open spec fn nibble(c: u8) -> Option<u8> {
    if 48 <= c <= 57 {
        Some((c - 48) as u8)
    } else if 97 <= c <= 102 {
        Some((c - 97 + 10) as u8)
    } else if 65 <= c <= 70 {
        Some((c - 65 + 10) as u8)
    } else {
        None
    }
}

fn hex_nibble(c: u8) -> (r: Option<u8>)
    ensures
        r == nibble(c),
        r is Some ==> r->Some_0 < 16,
{
    if 48 <= c && c <= 57 {
        Some(c - 48)
    } else if 97 <= c && c <= 102 {
        Some(c - 97 + 10)
    } else if 65 <= c && c <= 70 {
        Some(c - 65 + 10)
    } else {
        None
    }
}

/// The first `k` bytes in lower-case hexadecimal, two digits each.
pub open spec fn hex_text(s: Seq<u8>, k: int) -> Seq<char>
    decreases k,
{
    if k <= 0 {
        Seq::empty()
    } else {
        hex_text(s, k - 1).push(digit((s[k - 1] / 16) as nat)).push(
            digit((s[k - 1] % 16) as nat),
        )
    }
}

/// The bytes that hexadecimal digits stand for; the message where they are
/// not 64 digits.
pub open spec fn unhexed(t: Seq<u8>) -> Result<Seq<u8>, Seq<char>> {
    if t.len() != 64 {
        Err("expected 64 hex chars, got "@ + dec(t.len()))
    } else if exists|i: int| 0 <= i < 64 && nibble(#[trigger] t[i]) is None {
        Err("non-hex character in ChunkHashKey"@)
    } else {
        Ok(
            Seq::new(
                32,
                |i: int| (nibble(t[2 * i])->Some_0 * 16 + nibble(t[2 * i + 1])->Some_0) as u8,
            ),
        )
    }
}

impl From<[u8; 32]> for ChunkHashKey {
    fn from(b: [u8; 32]) -> (r: Self) {
        ChunkHashKey(b)
    }
}

impl vstd::std_specs::convert::FromSpecImpl<[u8; 32]> for ChunkHashKey {
    open spec fn obeys_from_spec() -> bool {
        true
    }

    open spec fn from_spec(b: [u8; 32]) -> Self {
        ChunkHashKey(b)
    }
}

impl From<ChunkHashKey> for [u8; 32] {
    fn from(k: ChunkHashKey) -> (r: Self) {
        k.0
    }
}

impl vstd::std_specs::convert::FromSpecImpl<ChunkHashKey> for [u8; 32] {
    open spec fn obeys_from_spec() -> bool {
        true
    }

    open spec fn from_spec(k: ChunkHashKey) -> Self {
        k.0
    }
}

impl ChunkHashKey {
    /// The bytes.
    pub fn as_bytes(&self) -> (r: &[u8; 32])
        ensures
            r@ == self.0@,
    {
        &self.0
    }

    /// The hash in lower-case hexadecimal.
    pub fn to_hex(&self) -> (r: String)
        ensures
            r@ == hex_text(self.0@, 32),
    {
        let mut out = String::new();
        let mut i: usize = 0;
        proof {
            assert(out@ =~= hex_text(self.0@, 0));
        }
        while i < 32
            invariant
                i <= 32,
                out@ == hex_text(self.0@, i as int),
            decreases 32 - i,
        {
            let b = self.0[i];
            out.push(digit_char((b / 16) as u64));
            out.push(digit_char((b % 16) as u64));
            i = i + 1;
        }
        out
    }

    /// The hash with these hexadecimal digits, in either case.
    pub fn from_hex(text: &str) -> (r: Result<Self, IndexError>)
        ensures
            match unhexed(encode_utf8(text@)) {
                Ok(b) => r is Ok && r->Ok_0.0@ == b,
                Err(m) => r is Err && r->Err_0 is CborDecode && r->Err_0->CborDecode_0@ == m,
            },
    {
        let bytes = text.as_bytes();
        let ghost t = bytes@;
        if bytes.len() != 64 {
            let mut m = String::new();
            m.push_str("expected 64 hex chars, got ");
            push_dec(&mut m, bytes.len() as u64);
            proof {
                assert(m@ =~= "expected 64 hex chars, got "@ + dec(t.len()));
            }
            return Err(IndexError::CborDecode(m));
        }
        let mut out: [u8; 32] = [0u8; 32];
        let mut i: usize = 0;
        while i < 32
            invariant
                i <= 32,
                t == bytes@,
                t == encode_utf8(text@),
                t.len() == 64,
                forall|j: int| 0 <= j < 2 * i ==> nibble(#[trigger] t[j]) is Some,
                forall|j: int|
                    0 <= j < i ==> #[trigger] out@[j] == (nibble(t[2 * j])->Some_0 * 16 + nibble(
                        t[2 * j + 1],
                    )->Some_0) as u8,
            decreases 32 - i,
        {
            let hi = hex_nibble(bytes[2 * i]);
            let lo = hex_nibble(bytes[2 * i + 1]);
            match (hi, lo) {
                (Some(h), Some(l)) => {
                    out[i] = h * 16 + l;
                },
                _ => {
                    let mut m = String::new();
                    m.push_str("non-hex character in ChunkHashKey");
                    proof {
                        assert(m@ =~= "non-hex character in ChunkHashKey"@);
                        if hi is None {
                            assert(nibble(t[2 * i]) is None);
                        } else {
                            assert(nibble(t[2 * i + 1]) is None);
                        }
                    }
                    return Err(IndexError::CborDecode(m));
                },
            }
            i = i + 1;
        }
        proof {
            assert(out@ =~= Seq::new(
                32,
                |i: int| (nibble(t[2 * i])->Some_0 * 16 + nibble(t[2 * i + 1])->Some_0) as u8,
            ));
        }
        Ok(ChunkHashKey(out))
    }

    /// The key's components: four numbers, each eight bytes big-endian.
    pub fn field_values(&self) -> (r: Vec<u64>)
        ensures
            r@.len() == 4,
            forall|i: int|
                0 <= i < 4 ==> be(#[trigger] r@[i] as nat, 8) == self.0@.subrange(
                    8 * i,
                    8 * i + 8,
                ),
    {
        let mut out: Vec<u64> = Vec::new();
        let mut i: usize = 0;
        while i < 4
            invariant
                i <= 4,
                out@.len() == i,
                forall|j: int|
                    0 <= j < i ==> be(#[trigger] out@[j] as nat, 8) == self.0@.subrange(
                        8 * j,
                        8 * j + 8,
                    ),
            decreases 4 - i,
        {
            let x = get_be(self.0.as_slice(), 8 * i, 8);
            proof {
                let part = self.0@.subrange(8 * i as int, 8 * i + 8);
                lemma_be_of_be_value(part);
            }
            out.push(x);
            i = i + 1;
        }
        out
    }

    /// The key with these components.
    pub fn from_components(fields: &Vec<u64>) -> (r: Result<Self, IndexError>)
        ensures
            match r {
                Ok(k) => fields@.len() == 4 && forall|i: int|
                    0 <= i < 4 ==> be(#[trigger] fields@[i] as nat, 8) == k.0@.subrange(
                        8 * i,
                        8 * i + 8,
                    ),
                Err(e) => fields@.len() != 4 && e is MalformedKey && e->MalformedKey_0@
                    == "ChunkHashKey: wrong field count"@,
            },
    {
        if fields.len() != 4 {
            return Err(IndexError::MalformedKey("ChunkHashKey: wrong field count"));
        }
        let mut buf: Vec<u8> = Vec::new();
        put_be(&mut buf, fields[0], 8);
        put_be(&mut buf, fields[1], 8);
        put_be(&mut buf, fields[2], 8);
        put_be(&mut buf, fields[3], 8);
        proof {
            broadcast use lemma_be_len;

            assert(buf@.subrange(0, 8) =~= be(fields@[0] as nat, 8));
            assert(buf@.subrange(8, 16) =~= be(fields@[1] as nat, 8));
            assert(buf@.subrange(16, 24) =~= be(fields@[2] as nat, 8));
            assert(buf@.subrange(24, 32) =~= be(fields@[3] as nat, 8));
        }
        let k = ChunkHashKey(get_array::<32>(buf.as_slice(), 0));
        proof {
            assert(k.0@ =~= buf@);
        }
        Ok(k)
    }
}

/// The digits of a hash stand for the hash.
pub proof fn hex_round_trip(k: ChunkHashKey)
    ensures
        unhexed(encode_utf8(hex_text(k.0@, 32))) == Ok::<Seq<u8>, Seq<char>>(k.0@),
{
    let t = hex_text(k.0@, 32);
    lemma_hex_text(k.0@, 32);
    assert(vstd::utf8::is_ascii_chars(t)) by {
        assert forall|i: int| 0 <= i < t.len() implies '\0' <= #[trigger] t[i] <= '\u{7f}' by {
            lemma_hex_digit(k.0@, 32, i);
        }
    }
    vstd::utf8::is_ascii_chars_encode_utf8(t);
    let b = encode_utf8(t);
    assert forall|i: int| 0 <= i < 64 implies nibble(#[trigger] b[i]) is Some && nibble(b[i])->Some_0
        == (if i % 2 == 0 {
        k.0@[i / 2] / 16
    } else {
        k.0@[i / 2] % 16
    }) by {
        lemma_hex_digit(k.0@, 32, i);
        assert(b[i] == t[i] as u8);
    }
    let r = Seq::new(
        32,
        |i: int| (nibble(b[2 * i])->Some_0 * 16 + nibble(b[2 * i + 1])->Some_0) as u8,
    );
    assert forall|i: int| 0 <= i < 32 implies r[i] == k.0@[i] by {
        assert((2 * i) / 2 == i && (2 * i + 1) / 2 == i);
        assert(nibble(b[2 * i])->Some_0 == k.0@[i] / 16);
        assert(nibble(b[2 * i + 1])->Some_0 == k.0@[i] % 16);
    }
    assert(r =~= k.0@);
}

proof fn lemma_hex_text(s: Seq<u8>, k: int)
    requires
        0 <= k <= s.len(),
    ensures
        hex_text(s, k).len() == 2 * k,
    decreases k,
{
    if k > 0 {
        lemma_hex_text(s, k - 1);
    }
}

proof fn lemma_hex_digit(s: Seq<u8>, k: int, i: int)
    requires
        0 <= k <= s.len(),
        0 <= i < 2 * k,
    ensures
        hex_text(s, k).len() == 2 * k,
        hex_text(s, k)[i] == digit(
            if i % 2 == 0 {
                (s[i / 2] / 16) as nat
            } else {
                (s[i / 2] % 16) as nat
            },
        ),
        '\0' <= hex_text(s, k)[i] <= '\u{7f}',
        nibble(hex_text(s, k)[i] as u8) == Some(
            if i % 2 == 0 {
                (s[i / 2] / 16) as u8
            } else {
                (s[i / 2] % 16) as u8
            },
        ),
    decreases k,
{
    lemma_hex_text(s, k);
    lemma_hex_text(s, k - 1);
    if i < 2 * (k - 1) {
        lemma_hex_digit(s, k - 1, i);
    } else {
        assert(i / 2 == k - 1);
    }
}

impl Key for ChunkHashKey {
    type Model = Seq<u8>;

    open spec fn model(&self) -> Seq<u8> {
        self.0@
    }

    open spec fn precedes(a: Seq<u8>, b: Seq<u8>) -> bool {
        lex_less(a, b)
    }

    proof fn precedes_is_order(a: Seq<u8>, b: Seq<u8>, c: Seq<u8>) {
        lemma_lex_total(a, a);
        lemma_lex_total(a, b);
        if lex_less(a, b) && lex_less(b, c) {
            lemma_lex_transitive(a, b, c);
        }
    }

    fn is_before(&self, other: &ChunkHashKey) -> (r: bool) {
        bytes_before(self.0.as_slice(), other.0.as_slice())
    }

    fn copy_key(&self) -> (r: ChunkHashKey) {
        *self
    }
}

/// Where a chunk is stored, and how many objects refer to it.
#[derive(Clone, Copy, Debug, PartialEq, Eq, Structural)]
pub struct ChunkIndexValue {
    /// `[0..4]`
    pub ref_count: u32,
    /// `[4..8]` bytes of the chunk.
    pub length: u32,
    /// `[8..24]`
    pub blob_ref: BlobRef,
}

impl ChunkIndexValue {
    /// The bytes on disk.
    pub open spec fn image(&self) -> Seq<u8> {
        le(self.ref_count as nat, 4) + le(self.length as nat, 4) + self.blob_ref.image()
    }

    /// Append the bytes on disk to `out`.
    pub fn put(&self, out: &mut Vec<u8>)
        ensures
            final(out)@ == old(out)@ + self.image(),
    {
        let ghost start = out@;
        put_le(out, self.ref_count as u64, 4);
        put_le(out, self.length as u64, 4);
        self.blob_ref.put(out);
        proof {
            assert(out@ =~= start + self.image());
        }
    }

    /// The value whose bytes stand at `at`.
    pub fn get(s: &[u8], at: usize) -> (r: Self)
        requires
            at + 24 <= s@.len(),
        ensures
            r.image() == s@.subrange(at as int, at + 24),
    {
        let total = s.len();
        let r = ChunkIndexValue {
            ref_count: get_u32(s, at),
            length: get_u32(s, at + 4),
            blob_ref: BlobRef::get(s, at + 8),
        };
        proof {
            lemma_adjacent(s@, at as int, at + 4, at + 8);
            lemma_adjacent(s@, at as int, at + 8, at + 24);
        }
        r
    }

    /// An image has 24 bytes.
    pub proof fn image_len(&self)
        ensures
            self.image().len() == 24,
    {
        broadcast use lemma_le_len;

        self.blob_ref.image_len();
    }

    /// The image determines the value.
    pub proof fn image_injective(x: ChunkIndexValue, y: ChunkIndexValue)
        requires
            x.image() == y.image(),
        ensures
            x == y,
    {
        broadcast use lemma_le_len;

        x.blob_ref.image_len();
        y.blob_ref.image_len();
        let x1 = le(x.ref_count as nat, 4) + le(x.length as nat, 4);
        let y1 = le(y.ref_count as nat, 4) + le(y.length as nat, 4);
        lemma_cat_eq(x1, x.blob_ref.image(), y1, y.blob_ref.image());
        lemma_cat_eq(
            le(x.ref_count as nat, 4),
            le(x.length as nat, 4),
            le(y.ref_count as nat, 4),
            le(y.length as nat, 4),
        );
        lemma_u32_image(x.ref_count, y.ref_count);
        lemma_u32_image(x.length, y.length);
        BlobRef::image_injective(x.blob_ref, y.blob_ref);
    }

    /// A value with these fields.
    pub fn new(blob_ref: BlobRef, ref_count: u32, length: u32) -> (r: Self)
        ensures
            r == (ChunkIndexValue { ref_count, length, blob_ref }),
    {
        ChunkIndexValue { ref_count, length, blob_ref }
    }

    /// Where the chunk is stored.
    pub fn blob_ref(&self) -> (r: BlobRef)
        ensures
            r == self.blob_ref,
    {
        self.blob_ref
    }

    /// How many objects refer to the chunk.
    pub fn ref_count(&self) -> (r: u32)
        ensures
            r == self.ref_count,
    {
        self.ref_count
    }

    /// Bytes of the chunk.
    pub fn length(&self) -> (r: u32)
        ensures
            r == self.length,
    {
        self.length
    }

    /// The value's bytes.
    pub fn to_bytes(&self) -> (r: Vec<u8>)
        ensures
            r@ == self.image(),
            r@.len() == 24,
    {
        let mut out: Vec<u8> = Vec::new();
        self.put(&mut out);
        proof {
            self.image_len();
            assert(out@ =~= self.image());
        }
        out
    }

    /// The value with these bytes. Bytes that are missing are zero, bytes
    /// behind the twenty-fourth are not looked at.
    pub fn from_bytes(v: &[u8]) -> (r: Self)
        ensures
            r.image() == if v@.len() >= 24 {
                v@.take(24)
            } else {
                v@ + zeros((24 - v@.len()) as nat)
            },
    {
        let n: usize = if v.len() < 24 {
            v.len()
        } else {
            24
        };
        let mut buf = copy_range(v, 0, n);
        put_zeros(&mut buf, 24 - n);
        let r = ChunkIndexValue::get(buf.as_slice(), 0);
        proof {
            assert(buf@.subrange(0, 24) =~= if v@.len() >= 24 {
                v@.take(24)
            } else {
                v@ + zeros((24 - v@.len()) as nat)
            });
        }
        r
    }
}

/// The entry of a chunk after one more object refers to it.
pub open spec fn bumped(
    m: Map<Seq<u8>, ChunkIndexValue>,
    hash: Seq<u8>,
    blob: BlobRef,
    length: u32,
) -> ChunkIndexValue {
    if !m.contains_key(hash) {
        ChunkIndexValue { ref_count: 1, length, blob_ref: blob }
    } else if m[hash].ref_count == u32::MAX {
        m[hash]
    } else {
        ChunkIndexValue { ref_count: (m[hash].ref_count + 1) as u32, ..m[hash] }
    }
}

/// The index after one object less refers to a chunk.
pub open spec fn decremented(m: Map<Seq<u8>, ChunkIndexValue>, hash: Seq<u8>) -> Map<
    Seq<u8>,
    ChunkIndexValue,
> {
    if !m.contains_key(hash) {
        m
    } else if m[hash].ref_count <= 1 {
        m.remove(hash)
    } else {
        m.insert(hash, ChunkIndexValue { ref_count: (m[hash].ref_count - 1) as u32, ..m[hash] })
    }
}

/// What the first `k` entries make up. Of two entries for a hash the later counts.
pub open spec fn chunks_of(entries: Seq<(ChunkHashKey, ChunkIndexValue)>, k: int) -> Map<
    Seq<u8>,
    ChunkIndexValue,
>
    decreases k,
{
    if k <= 0 {
        Map::empty()
    } else {
        chunks_of(entries, k - 1).insert(entries[k - 1].0.0@, entries[k - 1].1)
    }
}

/// The chunks by hash.
#[derive(Clone, Debug)]
pub struct ChunkIndex {
    entries: OrdMap<ChunkHashKey, ChunkIndexValue>,
}

impl Default for ChunkIndex {
    fn default() -> (r: Self)
        ensures
            r.wf(),
            r@ == Map::<Seq<u8>, ChunkIndexValue>::empty(),
    {
        ChunkIndex::new()
    }
}

impl ChunkIndex {
    pub closed spec fn view(&self) -> Map<Seq<u8>, ChunkIndexValue> {
        self.entries@
    }

    pub closed spec fn wf(&self) -> bool {
        self.entries.wf()
    }

    /// An empty index.
    pub fn new() -> (r: Self)
        ensures
            r.wf(),
            r@ == Map::<Seq<u8>, ChunkIndexValue>::empty(),
    {
        ChunkIndex { entries: OrdMap::new() }
    }

    /// Where a chunk is stored.
    pub fn lookup(&self, hash: &[u8; 32]) -> (r: Option<BlobRef>)
        requires
            self.wf(),
        ensures
            r == if self@.contains_key(hash@) {
                Some(self@[hash@].blob_ref)
            } else {
                None
            },
    {
        match self.entries.get(&ChunkHashKey(*hash)) {
            Some(v) => Some(v.blob_ref),
            None => None,
        }
    }

    /// Where a chunk is stored, how many objects refer to it, and its length.
    pub fn entry(&self, hash: &[u8; 32]) -> (r: Option<(BlobRef, u32, u32)>)
        requires
            self.wf(),
        ensures
            r == if self@.contains_key(hash@) {
                Some((self@[hash@].blob_ref, self@[hash@].ref_count, self@[hash@].length))
            } else {
                None
            },
    {
        match self.entries.get(&ChunkHashKey(*hash)) {
            Some(v) => Some((v.blob_ref, v.ref_count, v.length)),
            None => None,
        }
    }

    /// Bytes of a chunk; zero where it is not known.
    pub fn length(&self, hash: &[u8; 32]) -> (r: u32)
        requires
            self.wf(),
        ensures
            r == if self@.contains_key(hash@) {
                self@[hash@].length
            } else {
                0
            },
    {
        match self.entries.get(&ChunkHashKey(*hash)) {
            Some(v) => v.length,
            None => 0,
        }
    }

    /// Note that one more object refers to a chunk. A chunk that is known
    /// keeps its place and length. Returns where the chunk is stored.
    pub fn insert_or_bump(&mut self, hash: [u8; 32], blob: BlobRef, length: u32) -> (r: BlobRef)
        requires
            old(self).wf(),
        ensures
            final(self).wf(),
            final(self)@ == old(self)@.insert(hash@, bumped(old(self)@, hash@, blob, length)),
            r == bumped(old(self)@, hash@, blob, length).blob_ref,
    {
        let key = ChunkHashKey(hash);
        let next = match self.entries.get(&key) {
            Some(v) => {
                let count: u32 = if v.ref_count == 0xFFFF_FFFF {
                    v.ref_count
                } else {
                    v.ref_count + 1
                };
                ChunkIndexValue { ref_count: count, length: v.length, blob_ref: v.blob_ref }
            },
            None => ChunkIndexValue { ref_count: 1, length, blob_ref: blob },
        };
        self.entries.insert(key, next);
        next.blob_ref
    }

    /// Note that one object less refers to a chunk. One that nothing refers
    /// to any more goes. Whether it went.
    pub fn decrement(&mut self, hash: &[u8; 32]) -> (r: bool)
        requires
            old(self).wf(),
        ensures
            final(self).wf(),
            r == (old(self)@.contains_key(hash@) && old(self)@[hash@].ref_count <= 1),
            final(self)@ == decremented(old(self)@, hash@),
    {
        let key = ChunkHashKey(*hash);
        let next: Option<ChunkIndexValue> = match self.entries.get(&key) {
            Some(v) => {
                if v.ref_count <= 1 {
                    None
                } else {
                    Some(
                        ChunkIndexValue {
                            ref_count: v.ref_count - 1,
                            length: v.length,
                            blob_ref: v.blob_ref,
                        },
                    )
                }
            },
            None => {
                return false;
            },
        };
        match next {
            Some(v) => {
                self.entries.insert(key, v);
                false
            },
            None => {
                self.entries.remove(&key);
                true
            },
        }
    }

    /// Number of chunks.
    pub fn chunk_count(&self) -> (r: usize)
        requires
            self.wf(),
        ensures
            r == self@.len(),
    {
        self.entries.len()
    }

    /// How many objects refer to a chunk; zero where it is not known.
    pub fn ref_count(&self, hash: &[u8; 32]) -> (r: u32)
        requires
            self.wf(),
        ensures
            r == if self@.contains_key(hash@) {
                self@[hash@].ref_count
            } else {
                0
            },
    {
        match self.entries.get(&ChunkHashKey(*hash)) {
            Some(v) => v.ref_count,
            None => 0,
        }
    }

    /// The index as the node that goes to disk.
    pub fn to_loaded_node(&self) -> (r: LoadedNode<ChunkHashKey, ChunkIndexValue>)
        requires
            self.wf(),
        ensures
            r.fresh(BtreeKind::ChunkIndex, REGION_SIZE_LOG2),
            forall|i: int, j: int|
                0 <= i < j < r.entries().len() ==> lex_less(
                    (#[trigger] r.entries()[i]).0.0@,
                    (#[trigger] r.entries()[j]).0.0@,
                ),
            chunks_of(r.entries(), r.entries().len() as int) == self@,
    {
        let total = self.entries.len();
        let ghost items = self.entries.items();
        let mut out: Vec<(ChunkHashKey, ChunkIndexValue)> = Vec::new();
        let mut i: usize = 0;
        while i < total
            invariant
                i <= total,
                items == self.entries.items(),
                total == items.len(),
                out@.len() == i,
                forall|j: int|
                    0 <= j < i ==> (#[trigger] out@[j]).0.0@ == items[j].0 && out@[j].1
                        == items[j].1,
            decreases total - i,
        {
            out.push((*self.entries.key_at(i), *self.entries.value_at(i)));
            i = i + 1;
        }
        proof {
            lemma_items_map::<ChunkHashKey, ChunkIndexValue>(items);
            assert forall|a: int, b: int| 0 <= a < b < out@.len() implies lex_less(
                (#[trigger] out@[a]).0.0@,
                (#[trigger] out@[b]).0.0@,
            ) by {
                assert(ChunkHashKey::precedes(items[a].0, items[b].0));
            }
            lemma_chunks_of(out@, total as int);
            let m = chunks_of(out@, total as int);
            assert forall|k: Seq<u8>| #[trigger] m.contains_key(k) == self@.contains_key(k) by {
                if self@.contains_key(k) {
                    let a = choose|a: int| 0 <= a < items.len() && #[trigger] items[a].0 == k;
                    assert(out@[a].0.0@ == k);
                }
                if m.contains_key(k) {
                    let a = choose|a: int| 0 <= a < total && (#[trigger] out@[a]).0.0@ == k;
                    assert(items[a].0 == k);
                }
            }
            assert forall|k: Seq<u8>| #[trigger] m.contains_key(k) implies m[k] == self@[k] by {
                let a = choose|a: int| 0 <= a < total && (#[trigger] out@[a]).0.0@ == k;
                assert(items[a].0 == k);
            }
            assert(m =~= self@);
        }
        if out.len() == 0 {
            LoadedNode::new(BtreeKind::ChunkIndex, 0, REGION_SIZE_LOG2)
        } else {
            LoadedNode::with_run(BtreeKind::ChunkIndex, 0, REGION_SIZE_LOG2, out)
        }
    }

    /// The index that a node from disk stands for.
    pub fn from_loaded_node(node: &LoadedNode<ChunkHashKey, ChunkIndexValue>) -> (r: Self)
        ensures
            r.wf(),
            r@ == chunks_of(node.entries(), node.entries().len() as int),
    {
        let all = node.merge_iter();
        let ghost es = node.entries();
        let mut entries: OrdMap<ChunkHashKey, ChunkIndexValue> = OrdMap::new();
        let mut i: usize = 0;
        while i < all.len()
            invariant
                i <= all@.len(),
                es == node.entries(),
                all@.len() == es.len(),
                forall|j: int| 0 <= j < all@.len() ==> *(#[trigger] all@[j]) == es[j],
                entries.wf(),
                entries@ == chunks_of(es, i as int),
            decreases all@.len() - i,
        {
            let e = all[i];
            proof {
                assert(*all@[i as int] == es[i as int]);
            }
            entries.insert(e.0, e.1);
            i = i + 1;
        }
        ChunkIndex { entries }
    }

    /// Write the index to the region at `offset` on `device`. `encode` turns the
    /// runs of the node into bytes.
    pub fn flush_to_region<
        D: BlockDevice,
        F: Fn(&Vec<SortedRun<ChunkHashKey, ChunkIndexValue>>) -> Result<Vec<u8>, StorageError>,
    >(&self, device: &mut D, offset: u64, encode: F) -> (r: Result<(), IndexError>)
        requires
            self.wf(),
            forall|runs: &Vec<SortedRun<ChunkHashKey, ChunkIndexValue>>| encode.requires((runs,)),
        ensures
            old(device).reliable() ==> final(device).reliable(),
            exists|
                node: LoadedNode<ChunkHashKey, ChunkIndexValue>,
                encoded: Result<Vec<u8>, StorageError>,
                stored: Result<(), StorageError>,
            |
                {
                    &&& #[trigger] is_chunk_node(node, self@)
                    &&& #[trigger] encode.ensures((&node.sorted_runs,), encoded)
                    &&& #[trigger] node_stored(
                        old(device).contents(),
                        final(device).contents(),
                        old(device).reliable(),
                        offset as int,
                        node.header,
                        encoded,
                        stored,
                    )
                    &&& r == match stored {
                        Ok(_) => Ok::<(), IndexError>(()),
                        Err(e) => Err(IndexError::Storage(e)),
                    }
                },
    {
        let node = self.to_loaded_node();
        proof {
            assert(is_chunk_node(node, self@));
        }
        match store_node(device, offset, &node, encode) {
            Ok(_) => Ok(()),
            Err(e) => Err(IndexError::Storage(e)),
        }
    }

    /// Read the index from the region at `offset` on `device`; a blank region
    /// is the empty index. `decode` turns the bytes of the runs into runs.
    pub fn load_from_region<
        D: BlockDevice,
        G: Fn(Vec<u8>) -> Result<Vec<SortedRun<ChunkHashKey, ChunkIndexValue>>, StorageError>,
    >(device: &D, offset: u64, decode: G) -> (r: Result<Self, IndexError>)
        requires
            forall|bytes: Vec<u8>| decode.requires((bytes,)),
        ensures
            r is Ok ==> r->Ok_0.wf(),
            exists|read: Result<Option<LoadedNode<ChunkHashKey, ChunkIndexValue>>, StorageError>|
                #[trigger] node_loaded(
                    device.contents(),
                    device.reliable(),
                    offset as int,
                    Some(BtreeKind::ChunkIndex),
                    decode,
                    read,
                ) && chunks_read(read, match r {
                    Ok(i) => Ok(i@),
                    Err(e) => Err(e),
                }),
    {
        match load_node(device, offset, Some(BtreeKind::ChunkIndex), decode) {
            Ok(Some(node)) => Ok(ChunkIndex::from_loaded_node(&node)),
            Ok(None) => Ok(ChunkIndex::new()),
            Err(e) => Err(IndexError::Storage(e)),
        }
    }
}

/// The node holds the chunks, in ascending order of their hashes.
pub open spec fn is_chunk_node(
    node: LoadedNode<ChunkHashKey, ChunkIndexValue>,
    m: Map<Seq<u8>, ChunkIndexValue>,
) -> bool {
    &&& node.fresh(BtreeKind::ChunkIndex, REGION_SIZE_LOG2)
    &&& forall|i: int, j: int|
        0 <= i < j < node.entries().len() ==> lex_less(
            (#[trigger] node.entries()[i]).0.0@,
            (#[trigger] node.entries()[j]).0.0@,
        )
    &&& chunks_of(node.entries(), node.entries().len() as int) == m
}

/// `r` is the index that was read.
pub open spec fn chunks_read(
    read: Result<Option<LoadedNode<ChunkHashKey, ChunkIndexValue>>, StorageError>,
    r: Result<Map<Seq<u8>, ChunkIndexValue>, IndexError>,
) -> bool {
    r == match read {
        Ok(None) => Ok::<Map<Seq<u8>, ChunkIndexValue>, IndexError>(Map::empty()),
        Ok(Some(node)) => Ok(chunks_of(node.entries(), node.entries().len() as int)),
        Err(e) => Err(IndexError::Storage(e)),
    }
}

/// Entries that hold the same chunks.
pub open spec fn same_chunks() -> spec_fn(
    Seq<(ChunkHashKey, ChunkIndexValue)>,
    Seq<(ChunkHashKey, ChunkIndexValue)>,
) -> bool {
    |
        a: Seq<(ChunkHashKey, ChunkIndexValue)>,
        b: Seq<(ChunkHashKey, ChunkIndexValue)>,
    | chunks_of(a, a.len() as int) == chunks_of(b, b.len() as int)
}

/// An index that was flushed is loaded again as it was, if the two functions
/// for its runs belong together.
pub proof fn chunk_flush_then_load<
    F: Fn(&Vec<SortedRun<ChunkHashKey, ChunkIndexValue>>) -> Result<Vec<u8>, StorageError>,
    G: Fn(Vec<u8>) -> Result<Vec<SortedRun<ChunkHashKey, ChunkIndexValue>>, StorageError>,
>(
    m: Map<Seq<u8>, ChunkIndexValue>,
    before: Seq<u8>,
    after: Seq<u8>,
    offset: int,
    node: LoadedNode<ChunkHashKey, ChunkIndexValue>,
    encode: F,
    encoded: Result<Vec<u8>, StorageError>,
    decode: G,
    read: Result<Option<LoadedNode<ChunkHashKey, ChunkIndexValue>>, StorageError>,
    r: Result<Map<Seq<u8>, ChunkIndexValue>, IndexError>,
)
    requires
        0 <= offset <= u64::MAX - 4096,
        codec_fits(encode, decode, same_chunks()),
        is_chunk_node(node, m),
        encode.ensures((&node.sorted_runs,), encoded),
        node_stored(before, after, true, offset, node.header, encoded, Ok(())),
        node_loaded(after, true, offset, Some(BtreeKind::ChunkIndex), decode, read),
        chunks_read(read, r),
    ensures
        r == Ok::<Map<Seq<u8>, ChunkIndexValue>, IndexError>(m),
{
    stored_region_loads(
        before,
        after,
        offset,
        node,
        BtreeKind::ChunkIndex,
        Some(BtreeKind::ChunkIndex),
        encode,
        encoded,
        decode,
        same_chunks(),
        read,
    );
}

proof fn lemma_chunks_of(es: Seq<(ChunkHashKey, ChunkIndexValue)>, k: int)
    requires
        0 <= k <= es.len(),
        forall|i: int, j: int|
            0 <= i < j < es.len() ==> lex_less(
                (#[trigger] es[i]).0.0@,
                (#[trigger] es[j]).0.0@,
            ),
    ensures
        forall|i: int|
            0 <= i < k ==> chunks_of(es, k).contains_key((#[trigger] es[i]).0.0@) && chunks_of(
                es,
                k,
            )[es[i].0.0@] == es[i].1,
        forall|h: Seq<u8>| #[trigger]
            chunks_of(es, k).contains_key(h) ==> exists|i: int|
                0 <= i < k && (#[trigger] es[i]).0.0@ == h,
    decreases k,
{
    if k > 0 {
        lemma_chunks_of(es, k - 1);
        let m = chunks_of(es, k - 1);
        let n = chunks_of(es, k);
        assert forall|i: int| 0 <= i < k implies n.contains_key((#[trigger] es[i]).0.0@)
            && n[es[i].0.0@] == es[i].1 by {
            if i < k - 1 {
                assert(lex_less(es[i].0.0@, es[k - 1].0.0@));
                lemma_lex_total(es[i].0.0@, es[i].0.0@);
                assert(es[i].0.0@ != es[k - 1].0.0@);
            }
        }
        assert forall|h: Seq<u8>| #[trigger] n.contains_key(h) implies exists|i: int|
            0 <= i < k && (#[trigger] es[i]).0.0@ == h by {
            if h == es[k - 1].0.0@ {
                assert(es[k - 1].0.0@ == h);
            } else {
                assert(m.contains_key(h));
                let i = choose|i: int| 0 <= i < k - 1 && (#[trigger] es[i]).0.0@ == h;
                assert(es[i].0.0@ == h);
            }
        }
    }
}

/// Referring to a chunk once more and once less leaves the index as it was,
/// except where the count could not grow.
pub proof fn bump_then_decrement(
    m: Map<Seq<u8>, ChunkIndexValue>,
    hash: Seq<u8>,
    blob: BlobRef,
    length: u32,
)
    requires
        m.contains_key(hash) ==> 0 < m[hash].ref_count < u32::MAX,
    ensures
        decremented(m.insert(hash, bumped(m, hash, blob, length)), hash) == m,
{
    assert(decremented(m.insert(hash, bumped(m, hash, blob, length)), hash) =~= m);
}

} // verus!
