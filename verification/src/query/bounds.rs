//! The ends of the key ranges that comparisons look at.

use vstd::prelude::*;
use vstd::utf8::encode_utf8;
use crate::bytes::{be, copy_range, get_array, lemma_be_len, lemma_lex_prefix, lex_less, put_be,
    put_bytes, zeros};
use crate::index::normalised_key::{key_of, lemma_payload_len, payload, type_byte, NormalisedKey};
use crate::types::value::{Value, ValueModel};

verus! {

/// Fifteen bytes of ones.
pub open spec fn ones() -> Seq<u8> {
    Seq::new(15, |i: int| 255u8)
}

/// The smallest value of the same type; for a scoped value, in the same
/// context.
pub open spec fn smallest(v: ValueModel) -> ValueModel
    decreases v,
{
    match v {
        ValueModel::Int(_) => ValueModel::Int(i64::MIN as int),
        ValueModel::Float(_) => ValueModel::Float(0xFFF0_0000_0000_0000),
        ValueModel::Timestamp(_) => ValueModel::Timestamp(i64::MIN as int),
        ValueModel::Text(_) => ValueModel::Text(Seq::empty()),
        ValueModel::Blob(_) => ValueModel::Blob(Seq::empty()),
        ValueModel::Scoped(c, inner) => ValueModel::Scoped(c, Box::new(smallest(*inner))),
    }
}

/// The payload of the greatest key of the same type: that of the greatest
/// number, or beyond all texts.
pub open spec fn top_payload(v: ValueModel) -> Seq<u8>
    decreases v,
{
    match v {
        ValueModel::Int(_) => payload(ValueModel::Int(i64::MAX as int)),
        ValueModel::Float(_) => payload(ValueModel::Float(0x7FF0_0000_0000_0000)),
        ValueModel::Timestamp(_) => payload(ValueModel::Timestamp(i64::MAX as int)),
        ValueModel::Text(_) => ones(),
        ValueModel::Blob(_) => ones(),
        ValueModel::Scoped(c, inner) => be(c.id as nat, 4) + top_payload(*inner).take(11),
    }
}

/// The greatest key of the same type.
pub open spec fn top_key(v: ValueModel) -> Seq<u8> {
    seq![type_byte(v)] + top_payload(v)
}

/// The key `k` is less than that of `v`, among those of its type.
pub open spec fn key_below(k: Seq<u8>, v: ValueModel) -> bool {
    !lex_less(k, key_of(smallest(v))) && lex_less(k, key_of(v))
}

/// The key `k` is no less than that of `v`, among those of its type.
pub open spec fn key_from(k: Seq<u8>, v: ValueModel) -> bool {
    !lex_less(k, key_of(v)) && !lex_less(top_key(v), k)
}

/// The smallest value of the same type.
pub fn type_min(value: &Value) -> (r: Value)
    ensures
        r@ == smallest(value@),
    decreases value,
{
    match value {
        Value::Int(_) => Value::Int(i64::MIN),
        Value::Float(_) => Value::Float(0xFFF0_0000_0000_0000),
        Value::Timestamp(_) => Value::Timestamp(i64::MIN),
        Value::Text(_) => {
            let empty = String::new();
            proof {
                assert(empty@ =~= Seq::empty());
            }
            Value::Text(empty)
        },
        Value::Blob(_) => {
            let empty: Vec<u8> = Vec::new();
            proof {
                assert(empty@ =~= Seq::empty());
            }
            Value::Blob(empty)
        },
        Value::Scoped { context, inner } => Value::Scoped {
            context: *context,
            inner: Box::new(type_min(inner)),
        },
    }
}

proof fn lemma_top_len(v: ValueModel)
    ensures
        top_payload(v).len() == 15,
    decreases v,
{
    broadcast use lemma_be_len;

    match v {
        ValueModel::Scoped(c, inner) => {
            lemma_top_len(*inner);
        },
        ValueModel::Int(_) => {
            lemma_payload_len(ValueModel::Int(i64::MAX as int));
        },
        ValueModel::Float(_) => {
            lemma_payload_len(ValueModel::Float(0x7FF0_0000_0000_0000));
        },
        ValueModel::Timestamp(_) => {
            lemma_payload_len(ValueModel::Timestamp(i64::MAX as int));
        },
        _ => {},
    }
}

fn payload_of(value: &Value) -> (r: Vec<u8>)
    ensures
        r@ == payload(value@),
{
    let key = NormalisedKey::from_value(value);
    let r = copy_range(key.0.as_slice(), 1, 16);
    proof {
        lemma_payload_len(value@);
        assert(r@ =~= payload(value@));
    }
    r
}

fn push_top_payload(value: &Value) -> (r: Vec<u8>)
    ensures
        r@ == top_payload(value@),
    decreases value,
{
    match value {
        Value::Int(_) => payload_of(&Value::Int(i64::MAX)),
        Value::Float(_) => payload_of(&Value::Float(0x7FF0_0000_0000_0000)),
        Value::Timestamp(_) => payload_of(&Value::Timestamp(i64::MAX)),
        Value::Text(_) => all_ones(),
        Value::Blob(_) => all_ones(),
        Value::Scoped { context, inner } => {
            let rest = push_top_payload(inner);
            proof {
                lemma_top_len(inner@);
            }
            let mut out: Vec<u8> = Vec::new();
            put_be(&mut out, context.raw() as u64, 4);
            let part = copy_range(rest.as_slice(), 0, 11);
            put_bytes(&mut out, part.as_slice());
            proof {
                assert(part@ =~= top_payload(inner@).take(11));
                assert(out@ =~= top_payload(value@));
            }
            out
        },
    }
}

fn all_ones() -> (r: Vec<u8>)
    ensures
        r@ == ones(),
{
    let mut out: Vec<u8> = Vec::new();
    let mut i: usize = 0;
    while i < 15
        invariant
            i <= 15,
            out@ =~= ones().take(i as int),
        decreases 15 - i,
    {
        out.push(255u8);
        i = i + 1;
    }
    out
}

/// The greatest key of the same type.
pub fn type_max_key(value: &Value) -> (r: NormalisedKey)
    ensures
        r.0@ == top_key(value@),
{
    let own = NormalisedKey::from_value(value);
    let rest = push_top_payload(value);
    let mut out: Vec<u8> = Vec::new();
    out.push(own.0[0]);
    put_bytes(&mut out, rest.as_slice());
    proof {
        lemma_top_len(value@);
        assert(own.0@[0] == type_byte(value@));
        assert(out@ =~= top_key(value@));
    }
    let r = NormalisedKey(get_array::<16>(out.as_slice(), 0));
    proof {
        assert(r.0@ =~= out@);
    }
    r
}

/// Among integers, a key counts as below or from a value on exactly as the
/// integers compare; the greatest integer counts, too.
pub proof fn int_keys_compare(w: i64, v: i64)
    ensures
        key_below(key_of(ValueModel::Int(w as int)), ValueModel::Int(v as int)) == (w < v),
        key_from(key_of(ValueModel::Int(w as int)), ValueModel::Int(v as int)) == (w >= v),
{
    crate::index::normalised_key::int_keys_sort(w, v);
    crate::index::normalised_key::int_keys_sort(w, i64::MIN);
    crate::index::normalised_key::int_keys_sort(i64::MAX, w);
    assert(top_key(ValueModel::Int(v as int)) == key_of(ValueModel::Int(i64::MAX as int)));
}

/// Among timestamps, a key counts as below or from a value on exactly as the
/// timestamps compare; the greatest timestamp counts, too.
pub proof fn timestamp_keys_compare(w: i64, v: i64)
    ensures
        key_below(
            key_of(ValueModel::Timestamp(w as int)),
            ValueModel::Timestamp(v as int),
        ) == (w < v),
        key_from(
            key_of(ValueModel::Timestamp(w as int)),
            ValueModel::Timestamp(v as int),
        ) == (w >= v),
{
    crate::index::normalised_key::timestamp_keys_sort(w, v);
    crate::index::normalised_key::timestamp_keys_sort(w, i64::MIN);
    crate::index::normalised_key::timestamp_keys_sort(i64::MAX, w);
    assert(top_key(ValueModel::Timestamp(v as int)) == key_of(
        ValueModel::Timestamp(i64::MAX as int),
    ));
}

/// Among floating-point numbers that are not NaN, a key counts as below or
/// from a value on exactly as the keys compare; the infinities count, too.
pub proof fn float_keys_compare(w: u64, v: u64)
    requires
        w <= 0x7FF0_0000_0000_0000 || 0x8000_0000_0000_0000 <= w <= 0xFFF0_0000_0000_0000,
    ensures
        key_below(key_of(ValueModel::Float(w)), ValueModel::Float(v)) == lex_less(
            key_of(ValueModel::Float(w)),
            key_of(ValueModel::Float(v)),
        ),
        key_from(key_of(ValueModel::Float(w)), ValueModel::Float(v)) == !lex_less(
            key_of(ValueModel::Float(w)),
            key_of(ValueModel::Float(v)),
        ),
{
    crate::index::normalised_key::float_keys_sort(w, 0xFFF0_0000_0000_0000);
    crate::index::normalised_key::float_keys_sort(0x7FF0_0000_0000_0000, w);
    assert(top_key(ValueModel::Float(v)) == key_of(ValueModel::Float(0x7FF0_0000_0000_0000)));
}

/// A text's key is no less than that of the empty text, and no greater than
/// the greatest key: a comparison looks at all texts on its side.
pub proof fn text_keys_compare(w: Seq<char>, v: Seq<char>)
    ensures
        key_below(key_of(ValueModel::Text(w)), ValueModel::Text(v)) == lex_less(
            key_of(ValueModel::Text(w)),
            key_of(ValueModel::Text(v)),
        ),
        key_from(key_of(ValueModel::Text(w)), ValueModel::Text(v)) == !lex_less(
            key_of(ValueModel::Text(w)),
            key_of(ValueModel::Text(v)),
        ),
{
    let p = payload(ValueModel::Text(w));
    let tag = seq![type_byte(ValueModel::Text(w))];
    lemma_payload_len(ValueModel::Text(w));
    lemma_empty_text();
    lemma_zeros_least(p, 15);
    lemma_lex_prefix(tag, p, zeros(15));
    lemma_ones_greatest(ones(), p);
    lemma_lex_prefix(tag, ones(), p);
}

/// The key of the empty text.
proof fn lemma_empty_text()
    ensures
        payload(ValueModel::Text(Seq::empty())) == zeros(15),
{
    let e = Seq::<char>::empty();
    assert(encode_utf8(e) =~= Seq::<u8>::empty());
    assert(payload(ValueModel::Text(e)) =~= zeros(15));
}

/// Nothing is below zeros.
proof fn lemma_zeros_least(p: Seq<u8>, n: nat)
    requires
        p.len() == n,
    ensures
        !lex_less(p, zeros(n)),
    decreases n,
{
    if n > 0 {
        assert(zeros(n).skip(1) =~= zeros((n - 1) as nat));
        lemma_zeros_least(p.skip(1), (n - 1) as nat);
    }
}

/// Nothing is above ones.
proof fn lemma_ones_greatest(top: Seq<u8>, p: Seq<u8>)
    requires
        p.len() == top.len(),
        forall|i: int| 0 <= i < top.len() ==> #[trigger] top[i] == 255,
    ensures
        !lex_less(top, p),
    decreases p.len(),
{
    if p.len() > 0 {
        lemma_ones_greatest(top.skip(1), p.skip(1));
    }
}

} // verus!
