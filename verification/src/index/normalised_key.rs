//! Sixteen-byte keys that sort as attribute values do.
//!
//! The first byte is the value's type, the others its content in a form that
//! compares byte by byte: numbers big-endian with the sign bit turned, text
//! and blobs by their first thirteen bytes, a flag for more, and the length.

use vstd::prelude::*;
use vstd::utf8::encode_utf8;
use crate::bytes::{be, bytes_before, get_array, lemma_be_len, lemma_be_order, lemma_be_value_of_be,
    lemma_lex_blocks, lemma_lex_prefix, lemma_lex_total, lemma_pow256_values, lex_less, put_be,
    put_zeros, zeros};
use crate::types::id::TagId;
use crate::types::value::{Value, ValueModel};

verus! {

/// Length of a key.
pub const NORMALISED_KEY_LEN: usize = 16;

pub const TYPE_TAG_TEXT: u8 = 0;

pub const TYPE_TAG_INT: u8 = 1;

pub const TYPE_TAG_FLOAT: u8 = 2;

pub const TYPE_TAG_TIMESTAMP: u8 = 3;

pub const TYPE_TAG_BLOB: u8 = 4;

pub const TYPE_TAG_SCOPED: u8 = 5;

/// A key that sorts as its value does.
#[derive(Clone, Copy, Debug, PartialEq, Eq, PartialOrd, Ord, Hash)]
pub struct NormalisedKey(pub [u8; 16]);

/// A signed number moved up so that the smallest is zero.
pub open spec fn lifted(i: int) -> nat {
    (i + 0x8000_0000_0000_0000) as nat
}

/// The bits of a floating-point number, turned so that they sort as the
/// numbers do: all bits of a negative one, the sign bit of any other.
pub open spec fn turned(bits: u64) -> nat {
    if bits >= 0x8000_0000_0000_0000 {
        (0xFFFF_FFFF_FFFF_FFFF - bits) as nat
    } else {
        (bits + 0x8000_0000_0000_0000) as nat
    }
}

/// The first thirteen bytes, zeros where there are fewer.
pub open spec fn head13(s: Seq<u8>) -> Seq<u8> {
    if s.len() >= 13 {
        s.take(13)
    } else {
        s + zeros((13 - s.len()) as nat)
    }
}

/// Text or blob: the first thirteen bytes, a flag for more, the length up to 255.
pub open spec fn bytes_payload(s: Seq<u8>) -> Seq<u8> {
    head13(s) + seq![
        if s.len() > 13 {
            1u8
        } else {
            0u8
        },
        if s.len() > 255 {
            255u8
        } else {
            s.len() as u8
        },
    ]
}

/// The fifteen bytes after the type.
pub open spec fn payload(v: ValueModel) -> Seq<u8>
    decreases v,
{
    match v {
        ValueModel::Text(s) => bytes_payload(encode_utf8(s)),
        ValueModel::Int(i) => be(lifted(i), 8) + zeros(7),
        ValueModel::Float(f) => be(turned(f), 8) + zeros(7),
        ValueModel::Timestamp(t) => be(lifted(t), 8) + zeros(7),
        ValueModel::Blob(b) => bytes_payload(b),
        ValueModel::Scoped(c, inner) => be(c.id as nat, 4) + payload(*inner).take(11),
    }
}

/// The byte for the value's type.
pub open spec fn type_byte(v: ValueModel) -> u8 {
    match v {
        ValueModel::Text(_) => TYPE_TAG_TEXT,
        ValueModel::Int(_) => TYPE_TAG_INT,
        ValueModel::Float(_) => TYPE_TAG_FLOAT,
        ValueModel::Timestamp(_) => TYPE_TAG_TIMESTAMP,
        ValueModel::Blob(_) => TYPE_TAG_BLOB,
        ValueModel::Scoped(_, _) => TYPE_TAG_SCOPED,
    }
}

/// The bytes of the value's key.
pub open spec fn key_of(v: ValueModel) -> Seq<u8> {
    seq![type_byte(v)] + payload(v)
}

pub proof fn lemma_payload_len(v: ValueModel)
    ensures
        payload(v).len() == 15,
    decreases v,
{
    broadcast use lemma_be_len;

    match v {
        ValueModel::Scoped(c, inner) => {
            lemma_payload_len(*inner);
        },
        _ => {},
    }
}

/// The first `n` bytes, zeros where there are fewer.
spec fn padded(s: Seq<u8>, n: nat) -> Seq<u8> {
    Seq::new(
        n,
        |j: int|
            if j < s.len() {
                s[j]
            } else {
                0u8
            },
    )
}

fn put_bytes_payload(out: &mut Vec<u8>, s: &[u8])
    ensures
        final(out)@ == old(out)@ + bytes_payload(s@),
{
    let ghost start = out@;
    let n = s.len();
    let mut i: usize = 0;
    proof {
        assert(out@ =~= start + padded(s@, 0));
    }
    while i < 13
        invariant
            i <= 13,
            n == s@.len(),
            out@ == start + padded(s@, i as nat),
        decreases 13 - i,
    {
        if i < n {
            out.push(s[i]);
        } else {
            out.push(0);
        }
        i = i + 1;
        proof {
            assert(out@ =~= start + padded(s@, i as nat));
        }
    }
    proof {
        assert(padded(s@, 13) =~= head13(s@));
    }
    out.push(
        if n > 13 {
            1
        } else {
            0
        },
    );
    out.push(
        if n > 255 {
            255
        } else {
            n as u8
        },
    );
    proof {
        assert(out@ =~= start + bytes_payload(s@));
    }
}

fn put_payload(out: &mut Vec<u8>, v: &Value)
    ensures
        final(out)@ == old(out)@ + payload(v@),
    decreases v,
{
    let ghost start = out@;
    match v {
        Value::Text(s) => {
            put_bytes_payload(out, s.as_str().as_bytes());
        },
        Value::Int(i) => {
            let n: u64 = (*i as i128 + 0x8000_0000_0000_0000i128) as u64;
            put_be(out, n, 8);
            put_zeros(out, 7);
            proof {
                assert(out@ =~= start + payload(v@));
            }
        },
        Value::Float(f) => {
            let n: u64 = if *f >= 0x8000_0000_0000_0000 {
                0xFFFF_FFFF_FFFF_FFFF - *f
            } else {
                *f + 0x8000_0000_0000_0000
            };
            put_be(out, n, 8);
            put_zeros(out, 7);
            proof {
                assert(out@ =~= start + payload(v@));
            }
        },
        Value::Timestamp(t) => {
            let n: u64 = (*t as i128 + 0x8000_0000_0000_0000i128) as u64;
            put_be(out, n, 8);
            put_zeros(out, 7);
            proof {
                assert(out@ =~= start + payload(v@));
            }
        },
        Value::Blob(b) => {
            put_bytes_payload(out, b.as_slice());
        },
        Value::Scoped { context, inner } => {
            put_be(out, context.id as u64, 4);
            let ghost mid = out@;
            put_payload(out, inner);
            proof {
                lemma_payload_len(inner@);
                assert(out@.len() == mid.len() + 15);
            }
            out.pop();
            out.pop();
            out.pop();
            out.pop();
            proof {
                assert(out@ =~= mid + payload(inner@).take(11));
                assert(out@ =~= start + payload(v@));
            }
        },
    }
}

impl NormalisedKey {
    /// The key of a value.
    pub fn from_value(value: &Value) -> (r: Self)
        ensures
            r.0@ == key_of(value@),
    {
        let tag: u8 = match value {
            Value::Text(_) => TYPE_TAG_TEXT,
            Value::Int(_) => TYPE_TAG_INT,
            Value::Float(_) => TYPE_TAG_FLOAT,
            Value::Timestamp(_) => TYPE_TAG_TIMESTAMP,
            Value::Blob(_) => TYPE_TAG_BLOB,
            Value::Scoped { context: _, inner: _ } => TYPE_TAG_SCOPED,
        };
        let mut out: Vec<u8> = Vec::new();
        out.push(tag);
        put_payload(&mut out, value);
        proof {
            lemma_payload_len(value@);
            assert(out@ =~= key_of(value@));
            assert(out@.subrange(0, 16) =~= out@);
        }
        NormalisedKey(get_array::<16>(out.as_slice(), 0))
    }

    /// The bytes of the key.
    pub fn as_bytes(&self) -> (r: &[u8])
        ensures
            r@ == self.0@,
    {
        self.0.as_slice()
    }

    /// Whether the key comes before another.
    pub fn before(&self, other: &NormalisedKey) -> (r: bool)
        ensures
            r == lex_less(self.0@, other.0@),
    {
        bytes_before(self.0.as_slice(), other.0.as_slice())
    }
}

/// Keys of different types sort by type.
pub proof fn keys_sort_by_type(a: ValueModel, b: ValueModel)
    requires
        type_byte(a) != type_byte(b),
    ensures
        lex_less(key_of(a), key_of(b)) == (type_byte(a) < type_byte(b)),
{
    let (p, q) = (seq![type_byte(a)], seq![type_byte(b)]);
    assert(p[0] != q[0]);
    lemma_lex_blocks(p, q, payload(a), payload(b));
    assert(p.skip(1) =~= Seq::<u8>::empty());
}

proof fn lemma_number_keys(t: u8, x: nat, y: nat)
    requires
        x <= u64::MAX,
        y <= u64::MAX,
    ensures
        lex_less(seq![t] + (be(x, 8) + zeros(7)), seq![t] + (be(y, 8) + zeros(7))) == (x < y),
{
    broadcast use lemma_be_len;

    lemma_pow256_values();
    lemma_lex_prefix(seq![t], be(x, 8) + zeros(7), be(y, 8) + zeros(7));
    lemma_be_order(x, y, 8);
    if x == y {
        lemma_lex_total(be(x, 8) + zeros(7), be(x, 8) + zeros(7));
    } else {
        lemma_be_value_of_be(x, 8);
        lemma_be_value_of_be(y, 8);
        lemma_lex_blocks(be(x, 8), be(y, 8), zeros(7), zeros(7));
    }
}

/// Keys of integers sort as the integers do.
pub proof fn int_keys_sort(a: i64, b: i64)
    ensures
        lex_less(key_of(ValueModel::Int(a as int)), key_of(ValueModel::Int(b as int))) == (a < b),
{
    lemma_number_keys(TYPE_TAG_INT, lifted(a as int), lifted(b as int));
}

/// Keys of timestamps sort as the timestamps do.
pub proof fn timestamp_keys_sort(a: i64, b: i64)
    ensures
        lex_less(
            key_of(ValueModel::Timestamp(a as int)),
            key_of(ValueModel::Timestamp(b as int)),
        ) == (a < b),
{
    lemma_number_keys(TYPE_TAG_TIMESTAMP, lifted(a as int), lifted(b as int));
}

/// Keys of floating-point numbers sort as sign and magnitude do: the negative
/// ones first, from the largest magnitude down, then the others from the
/// smallest magnitude up.
pub proof fn float_keys_sort(a: u64, b: u64)
    ensures
        lex_less(key_of(ValueModel::Float(a)), key_of(ValueModel::Float(b))) == (if a
            >= 0x8000_0000_0000_0000 && b >= 0x8000_0000_0000_0000 {
            a > b
        } else if a >= 0x8000_0000_0000_0000 {
            true
        } else if b >= 0x8000_0000_0000_0000 {
            false
        } else {
            a < b
        }),
{
    lemma_number_keys(TYPE_TAG_FLOAT, turned(a), turned(b));
}

/// Byte strings that differ in their first thirteen bytes compare as these do.
proof fn lemma_head13_decides(a: Seq<u8>, b: Seq<u8>)
    requires
        head13(a) != head13(b),
    ensures
        lex_less(head13(a), head13(b)) == lex_less(a, b),
{
    lemma_head_decides(a, b, 13);
}

/// The first `n` bytes, zeros where there are fewer.
spec fn head_n(s: Seq<u8>, n: nat) -> Seq<u8> {
    if s.len() >= n {
        s.take(n as int)
    } else {
        s + zeros((n - s.len()) as nat)
    }
}

proof fn lemma_head_decides(a: Seq<u8>, b: Seq<u8>, n: nat)
    requires
        head_n(a, n) != head_n(b, n),
    ensures
        lex_less(head_n(a, n), head_n(b, n)) == lex_less(a, b),
    decreases n,
{
    let (x, y) = (head_n(a, n), head_n(b, n));
    if n == 0 {
        assert(x =~= y);
    } else if a.len() == 0 && b.len() == 0 {
        assert(a =~= b);
    } else {
        let m = (n - 1) as nat;
        let a1 = if a.len() > 0 { a.skip(1) } else { a };
        let b1 = if b.len() > 0 { b.skip(1) } else { b };
        assert(x.skip(1) =~= head_n(a1, m));
        assert(y.skip(1) =~= head_n(b1, m));
        assert(x[0] == if a.len() > 0 { a[0] } else { 0u8 });
        assert(y[0] == if b.len() > 0 { b[0] } else { 0u8 });
        if x[0] == y[0] {
            if x.skip(1) == y.skip(1) {
                assert(x =~= seq![x[0]] + x.skip(1));
                assert(y =~= seq![y[0]] + y.skip(1));
            }
            lemma_head_decides(a1, b1, m);
            if a.len() == 0 {
                lemma_zero_head(b, n);
            } else if b.len() == 0 {
                lemma_zero_head(a, n);
            }
        } else if a.len() == 0 {
            assert(lex_less(a, b));
        } else if b.len() == 0 {
            assert(!lex_less(a, b));
        }
    }
}

proof fn lemma_zero_head(b: Seq<u8>, n: nat)
    requires
        b.len() > 0,
    ensures
        !lex_less(head_n(b, n), head_n(Seq::<u8>::empty(), n)),
        head_n(b, n) != head_n(Seq::<u8>::empty(), n) ==> lex_less(
            head_n(Seq::<u8>::empty(), n),
            head_n(b, n),
        ),
    decreases n,
{
    let e = Seq::<u8>::empty();
    let x = head_n(b, n);
    let z = head_n(e, n);
    if n > 0 {
        let m = (n - 1) as nat;
        assert(z.skip(1) =~= head_n(e, m));
        assert(x.skip(1) =~= head_n(b.skip(1), m));
        assert(z[0] == 0);
        if b.len() > 1 {
            lemma_zero_head(b.skip(1), m);
        } else {
            assert(b.skip(1) =~= e);
            lemma_lex_total(head_n(e, m), head_n(e, m));
        }
        if x[0] == 0 && x.skip(1) == z.skip(1) {
            assert(x =~= seq![x[0]] + x.skip(1));
            assert(z =~= seq![z[0]] + z.skip(1));
        }
    } else {
        assert(x =~= z);
        lemma_lex_total(x, x);
    }
}

/// Where one of two byte strings has at most thirteen bytes and both have the
/// same head, they compare as their lengths do.
proof fn lemma_same_head(a: Seq<u8>, b: Seq<u8>, n: nat)
    requires
        head_n(a, n) == head_n(b, n),
        a.len() <= n || b.len() <= n,
    ensures
        lex_less(a, b) == (a.len() < b.len()),
    decreases n,
{
    if a.len() == 0 || b.len() == 0 {
    } else {
        let m = (n - 1) as nat;
        let (x, y) = (head_n(a, n), head_n(b, n));
        assert(x[0] == a[0] && y[0] == b[0]);
        assert(x.skip(1) =~= head_n(a.skip(1), m));
        assert(y.skip(1) =~= head_n(b.skip(1), m));
        lemma_same_head(a.skip(1), b.skip(1), m);
    }
}

proof fn lemma_bytes_keys(t: u8, a: Seq<u8>, b: Seq<u8>)
    requires
        a.len() <= 13 || b.len() <= 13 || head13(a) != head13(b),
    ensures
        lex_less(seq![t] + bytes_payload(a), seq![t] + bytes_payload(b)) == lex_less(a, b),
{
    lemma_lex_prefix(seq![t], bytes_payload(a), bytes_payload(b));
    let (p, q) = (head13(a), head13(b));
    let fa = if a.len() > 13 { 1u8 } else { 0u8 };
    let fb = if b.len() > 13 { 1u8 } else { 0u8 };
    let la = if a.len() > 255 { 255u8 } else { a.len() as u8 };
    let lb = if b.len() > 255 { 255u8 } else { b.len() as u8 };
    let (x, y) = (seq![fa, la], seq![fb, lb]);
    if p != q {
        lemma_lex_blocks(p, q, x, y);
        lemma_head13_decides(a, b);
    } else {
        lemma_lex_prefix(p, x, y);
        lemma_same_head(a, b, 13);
        assert(x.skip(1) =~= seq![la]);
        assert(y.skip(1) =~= seq![lb]);
        assert(seq![la].skip(1) =~= Seq::<u8>::empty());
        assert(seq![lb].skip(1) =~= Seq::<u8>::empty());
        assert(!lex_less(Seq::<u8>::empty(), Seq::<u8>::empty()));
        assert(lex_less(seq![la], seq![lb]) == (la < lb));
        assert(lex_less(x, y) == (fa < fb || (fa == fb && la < lb)));
    }
}

/// Keys of texts sort as the texts' bytes do, as long as one of them has at
/// most thirteen bytes or they differ within the first thirteen.
pub proof fn text_keys_sort(a: Seq<char>, b: Seq<char>)
    requires
        encode_utf8(a).len() <= 13 || encode_utf8(b).len() <= 13 || head13(encode_utf8(a)) != head13(
            encode_utf8(b),
        ),
    ensures
        lex_less(key_of(ValueModel::Text(a)), key_of(ValueModel::Text(b))) == lex_less(
            encode_utf8(a),
            encode_utf8(b),
        ),
{
    lemma_bytes_keys(TYPE_TAG_TEXT, encode_utf8(a), encode_utf8(b));
}

/// Keys of blobs sort as the blobs do, as long as one of them has at most
/// thirteen bytes or they differ within the first thirteen.
pub proof fn blob_keys_sort(a: Seq<u8>, b: Seq<u8>)
    requires
        a.len() <= 13 || b.len() <= 13 || head13(a) != head13(b),
    ensures
        lex_less(key_of(ValueModel::Blob(a)), key_of(ValueModel::Blob(b))) == lex_less(a, b),
{
    lemma_bytes_keys(TYPE_TAG_BLOB, a, b);
}

/// Scoped values with different contexts sort by context.
pub proof fn scoped_keys_sort_by_context(c: TagId, d: TagId, a: ValueModel, b: ValueModel)
    requires
        c != d,
    ensures
        lex_less(
            key_of(ValueModel::Scoped(c, Box::new(a))),
            key_of(ValueModel::Scoped(d, Box::new(b))),
        ) == (c.id < d.id),
{
    broadcast use lemma_be_len;

    lemma_pow256_values();
    let x = payload(a).take(11);
    let y = payload(b).take(11);
    lemma_lex_prefix(seq![TYPE_TAG_SCOPED], be(c.id as nat, 4) + x, be(d.id as nat, 4) + y);
    lemma_be_order(c.id as nat, d.id as nat, 4);
    lemma_be_value_of_be(c.id as nat, 4);
    lemma_be_value_of_be(d.id as nat, 4);
    lemma_lex_blocks(be(c.id as nat, 4), be(d.id as nat, 4), x, y);
}

} // verus!
