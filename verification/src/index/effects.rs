//! What the operations on the indexes bring about, in terms of what the
//! indexes answer before and after.

use vstd::prelude::*;
use vstd::utf8::encode_utf8;
use crate::bytes::{bits_of, le, le_value, lemma_le_value_of_le, lemma_pow256_values};
use crate::index::bitmap::bitmap_set;
use crate::index::chunk_index::ChunkIndex;
use crate::index::faceted::{FacetCount, FacetedExplorer};
use crate::index::forward_index::{first_match, list_model, ForwardIndex};
use crate::index::kv_index::KvIndex;
use crate::index::normalised_key::{int_keys_sort, text_keys_sort, timestamp_keys_sort,
    NormalisedKey};
use crate::index::range_index::{in_interval, in_range_of, KeyBound, RangeIndex};
use crate::index::tag_index::TagIndex;
use crate::index::tag_store::{entry_of, entry_other_than, lists_members, other_than, ranked_ids,
    TagStore};
use crate::index::value_hash::{siphash, value_encoding, value_hash};
use crate::storage::block::BlobRef;
use crate::types::assertion::{Assertion, TagOrigin};
use crate::types::id::{ObjectId, TagId};
use crate::types::value::Value;

verus! {

// ---------------------------------------------------------------------
// Values by equality
// ---------------------------------------------------------------------

/// Different values have different encodings.
pub proof fn encodings_differ(a: Value, b: Value)
    requires
        value_encoding(a@) == value_encoding(b@),
    ensures
        a@ == b@,
    decreases a,
{
    broadcast use crate::bytes::lemma_le_len, vstd::utf8::encode_utf8_decode_utf8;

    let x = value_encoding(a@);
    let y = value_encoding(b@);
    lemma_pow256_values();
    reveal_with_fuel(crate::bytes::pow256, 9);
    assert(x[0] == y[0]);
    match (a, b) {
        (Value::Text(s), Value::Text(t)) => {
            assert(x.skip(1) =~= encode_utf8(s@));
            assert(y.skip(1) =~= encode_utf8(t@));
            assert(vstd::utf8::decode_utf8(encode_utf8(s@)) == s@);
            assert(vstd::utf8::decode_utf8(encode_utf8(t@)) == t@);
        },
        (Value::Int(i), Value::Int(j)) => {
            assert(x.skip(1) =~= le(bits_of(i) as nat, 8));
            assert(y.skip(1) =~= le(bits_of(j) as nat, 8));
            lemma_le_value_of_le(bits_of(i) as nat, 8);
            lemma_le_value_of_le(bits_of(j) as nat, 8);
        },
        (Value::Float(i), Value::Float(j)) => {
            assert(x.skip(1) =~= le(i as nat, 8));
            assert(y.skip(1) =~= le(j as nat, 8));
            lemma_le_value_of_le(i as nat, 8);
            lemma_le_value_of_le(j as nat, 8);
        },
        (Value::Timestamp(i), Value::Timestamp(j)) => {
            assert(x.skip(1) =~= le(bits_of(i) as nat, 8));
            assert(y.skip(1) =~= le(bits_of(j) as nat, 8));
            lemma_le_value_of_le(bits_of(i) as nat, 8);
            lemma_le_value_of_le(bits_of(j) as nat, 8);
        },
        (Value::Blob(s), Value::Blob(t)) => {
            assert(x.skip(1) =~= s@);
            assert(y.skip(1) =~= t@);
        },
        (
            Value::Scoped { context: c, inner: s },
            Value::Scoped { context: d, inner: t },
        ) => {
            assert(x.subrange(1, 5) =~= le(c.id as nat, 4));
            assert(y.subrange(1, 5) =~= le(d.id as nat, 4));
            lemma_le_value_of_le(c.id as nat, 4);
            lemma_le_value_of_le(d.id as nat, 4);
            assert(c == d);
            assert(x.skip(5) =~= value_encoding(s@));
            assert(y.skip(5) =~= value_encoding(t@));
            encodings_differ(*s, *t);
        },
        _ => {},
    }
}

/// The hash of a value is that of its whole encoding, under both halves of
/// the secret. So two values are taken for one another only where the keyed
/// hash of two different byte strings is the same.
pub proof fn hash_is_that_of_the_encoding(value: Value, secret: [u8; 16], h: u64)
    requires
        call_ensures(value_hash, (&value, &secret), h),
    ensures
        h == siphash(
            le_value(secret@.subrange(0, 8)) as u64,
            le_value(secret@.subrange(8, 16)) as u64,
            value_encoding(value@),
        ),
{
}

/// An object that is entered under a value is found under it from then on; what
/// is found under another tag, or under a value with another hash, stays.
pub proof fn entered_value_is_found(
    kv: &mut KvIndex,
    tag: TagId,
    value: Value,
    x: u32,
    other_tag: TagId,
    other: Value,
    secret: [u8; 16],
    h: u64,
    k: u64,
    before: roaring::RoaringBitmap,
    after: roaring::RoaringBitmap,
)
    requires
        old(kv).wf(),
        secret@ == old(kv).secret_bytes(),
        call_ensures(value_hash, (&value, &secret), h),
        call_ensures(value_hash, (&other, &secret), k),
        call_ensures(KvIndex::insert, (kv, tag, &value, x), ()),
        call_ensures(KvIndex::lookup, (&*old(kv), other_tag, &other), before),
        call_ensures(KvIndex::lookup, (&*final(kv), other_tag, &other), after),
    ensures
        final(kv).wf(),
        final(kv).secret_bytes() == old(kv).secret_bytes(),
        other@ == value@ ==> h == k,
        other_tag == tag && h == k ==> bitmap_set(after) == bitmap_set(before).insert(x),
        other_tag != tag || h != k ==> bitmap_set(after) == bitmap_set(before),
{
}

/// An object that is taken out under a value is no longer found under it; what
/// is found under another tag, or under a value with another hash, stays. The
/// answer says whether the object was found before.
pub proof fn taken_out_value_is_not_found(
    kv: &mut KvIndex,
    tag: TagId,
    value: Value,
    x: u32,
    r: bool,
    other_tag: TagId,
    other: Value,
    secret: [u8; 16],
    h: u64,
    k: u64,
    before: roaring::RoaringBitmap,
    after: roaring::RoaringBitmap,
)
    requires
        old(kv).wf(),
        secret@ == old(kv).secret_bytes(),
        call_ensures(value_hash, (&value, &secret), h),
        call_ensures(value_hash, (&other, &secret), k),
        call_ensures(KvIndex::remove, (kv, tag, &value, x), r),
        call_ensures(KvIndex::lookup, (&*old(kv), other_tag, &other), before),
        call_ensures(KvIndex::lookup, (&*final(kv), other_tag, &other), after),
    ensures
        final(kv).wf(),
        other_tag == tag && h == k ==> bitmap_set(after) == bitmap_set(before).remove(x) && r
            == bitmap_set(before).contains(x),
        other_tag != tag || h != k ==> bitmap_set(after) == bitmap_set(before),
{
    let key = old(kv).key(tag, value);
    if other_tag == tag && h == k && old(kv)@.contains_key(key) && old(kv)@[key].remove(x)
        == Set::<u32>::empty() {
        assert(bitmap_set(after) =~= bitmap_set(before).remove(x));
    }
    if other_tag == tag && h == k && !old(kv)@.contains_key(key) {
        assert(bitmap_set(after) =~= bitmap_set(before).remove(x));
    }
}

/// A new index has the secret that it was given, and finds nothing.
pub proof fn new_index_finds_nothing(
    secret: [u8; 16],
    kv: KvIndex,
    tag: TagId,
    value: Value,
    r: roaring::RoaringBitmap,
)
    requires
        call_ensures(KvIndex::with_secret, (secret,), kv),
        call_ensures(KvIndex::lookup, (&kv, tag, &value), r),
    ensures
        kv.wf(),
        kv.secret_bytes() == secret@,
        bitmap_set(r) == Set::<u32>::empty(),
{
}

/// The hash of a value that was entered is listed for its tag.
pub proof fn entered_hash_is_listed(
    kv: &mut KvIndex,
    tag: TagId,
    value: Value,
    x: u32,
    secret: [u8; 16],
    h: u64,
    listed: Vec<u64>,
)
    requires
        old(kv).wf(),
        secret@ == old(kv).secret_bytes(),
        call_ensures(value_hash, (&value, &secret), h),
        call_ensures(KvIndex::insert, (kv, tag, &value, x), ()),
        call_ensures(KvIndex::value_hashes_for, (&*final(kv), tag), listed),
    ensures
        listed@.contains(h),
{
}

// ---------------------------------------------------------------------
// Values by order
// ---------------------------------------------------------------------

/// Keys of integers compare as the integers do, keys of timestamps as the
/// timestamps; and only equal numbers have equal keys.
pub proof fn number_keys_compare_as_numbers(
    a: i64,
    b: i64,
    times: bool,
    x: NormalisedKey,
    y: NormalisedKey,
    less: bool,
)
    requires
        call_ensures(
            NormalisedKey::from_value,
            (&if times {
                Value::Timestamp(a)
            } else {
                Value::Int(a)
            },),
            x,
        ),
        call_ensures(
            NormalisedKey::from_value,
            (&if times {
                Value::Timestamp(b)
            } else {
                Value::Int(b)
            },),
            y,
        ),
        call_ensures(NormalisedKey::before, (&x, &y), less),
    ensures
        less == (a < b),
        x.0@ == y.0@ <==> a == b,
{
    if times {
        timestamp_keys_sort(a, b);
        timestamp_keys_sort(b, a);
    } else {
        int_keys_sort(a, b);
        int_keys_sort(b, a);
    }
    crate::bytes::lemma_lex_total(x.0@, y.0@);
    crate::bytes::lemma_lex_total(x.0@, x.0@);
}

/// Keys of texts, one of which has at most thirteen bytes, compare as the
/// texts do byte by byte; and only equal texts have equal keys then.
pub proof fn text_keys_compare_as_texts(
    a: String,
    b: String,
    x: NormalisedKey,
    y: NormalisedKey,
    less: bool,
)
    requires
        encode_utf8(a@).len() <= 13 || encode_utf8(b@).len() <= 13,
        call_ensures(NormalisedKey::from_value, (&Value::Text(a),), x),
        call_ensures(NormalisedKey::from_value, (&Value::Text(b),), y),
        call_ensures(NormalisedKey::before, (&x, &y), less),
    ensures
        less == crate::bytes::lex_less(encode_utf8(a@), encode_utf8(b@)),
        x.0@ == y.0@ <==> a@ == b@,
{
    broadcast use vstd::utf8::encode_utf8_decode_utf8;

    text_keys_sort(a@, b@);
    text_keys_sort(b@, a@);
    crate::bytes::lemma_lex_total(x.0@, y.0@);
    crate::bytes::lemma_lex_total(x.0@, x.0@);
    crate::bytes::lemma_lex_total(encode_utf8(a@), encode_utf8(b@));
    assert(vstd::utf8::decode_utf8(encode_utf8(a@)) == a@);
    assert(vstd::utf8::decode_utf8(encode_utf8(b@)) == b@);
}

/// An object that is entered under a value is found under its key from then
/// on, and by every scan that reaches from a key no greater up to a greater
/// key; all else that is found stays.
pub proof fn entered_key_is_found_and_scanned(
    index: &mut RangeIndex,
    tag: TagId,
    value: Value,
    x: u32,
    other_tag: TagId,
    low: Value,
    high: Value,
    k: NormalisedKey,
    a: NormalisedKey,
    b: NormalisedKey,
    under: bool,
    below: bool,
    before: roaring::RoaringBitmap,
    after: roaring::RoaringBitmap,
    scan_before: roaring::RoaringBitmap,
    scan_after: roaring::RoaringBitmap,
)
    requires
        old(index).wf(),
        call_ensures(RangeIndex::insert, (index, tag, &value, x), ()),
        call_ensures(NormalisedKey::from_value, (&value,), k),
        call_ensures(NormalisedKey::from_value, (&low,), a),
        call_ensures(NormalisedKey::from_value, (&high,), b),
        call_ensures(NormalisedKey::before, (&k, &a), under),
        call_ensures(NormalisedKey::before, (&k, &b), below),
        call_ensures(NormalisedKey::before, (&b, &a), false),
        call_ensures(RangeIndex::lookup, (&*old(index), other_tag, &low), before),
        call_ensures(RangeIndex::lookup, (&*final(index), other_tag, &low), after),
        call_ensures(RangeIndex::range_scan, (&*old(index), other_tag, &low, &high), scan_before),
        call_ensures(RangeIndex::range_scan, (&*final(index), other_tag, &low, &high), scan_after),
    ensures
        final(index).wf(),
        other_tag == tag && a.0@ == k.0@ ==> bitmap_set(after) == bitmap_set(before).insert(x),
        other_tag != tag || a.0@ != k.0@ ==> bitmap_set(after) == bitmap_set(before),
        forall|y: u32| #[trigger]
            bitmap_set(scan_after).contains(y) <==> bitmap_set(scan_before).contains(y) || (y == x
                && other_tag == tag && !under && below),
{
    let m = old(index)@;
    let n = final(index)@;
    assert forall|y: u32| #[trigger] bitmap_set(scan_after).contains(y) <==> bitmap_set(
        scan_before,
    ).contains(y) || (y == x && other_tag == tag && !under && below) by {
        let lo = a.0@;
        let hi = b.0@;
        if in_range_of(m, other_tag, lo, hi, y) {
            let j = choose|j: Seq<u8>| #[trigger]
                crate::index::postings::posting(m, (other_tag, j)).contains(y)
                    && !crate::bytes::lex_less(j, lo) && crate::bytes::lex_less(j, hi);
            assert(crate::index::postings::posting(n, (other_tag, j)).contains(y));
        }
        if y == x && other_tag == tag && !under && below {
            assert(crate::index::postings::posting(n, (other_tag, k.0@)).contains(y));
        }
        if in_range_of(n, other_tag, lo, hi, y) {
            let j = choose|j: Seq<u8>| #[trigger]
                crate::index::postings::posting(n, (other_tag, j)).contains(y)
                    && !crate::bytes::lex_less(j, lo) && crate::bytes::lex_less(j, hi);
            if !(other_tag == tag && j == k.0@ && y == x) {
                assert(crate::index::postings::posting(m, (other_tag, j)).contains(y));
            }
        }
    }
}

/// The key that is entered is in an interval if it is past the lower end and
/// before the upper end; an end itself belongs to the interval where it says so.
pub proof fn ends_of_intervals_belong_where_they_say_so(
    index: &mut RangeIndex,
    tag: TagId,
    value: Value,
    x: u32,
    other_tag: TagId,
    low: KeyBound,
    high: KeyBound,
    k: NormalisedKey,
    above: bool,
    below: bool,
    before: roaring::RoaringBitmap,
    after: roaring::RoaringBitmap,
)
    requires
        old(index).wf(),
        call_ensures(RangeIndex::insert, (index, tag, &value, x), ()),
        call_ensures(NormalisedKey::from_value, (&value,), k),
        call_ensures(NormalisedKey::before, (&low.key, &k), above),
        call_ensures(NormalisedKey::before, (&k, &high.key), below),
        call_ensures(RangeIndex::scan_keys, (&*old(index), other_tag, &low, &high), before),
        call_ensures(RangeIndex::scan_keys, (&*final(index), other_tag, &low, &high), after),
    ensures
        forall|y: u32| #[trigger]
            bitmap_set(after).contains(y) <==> bitmap_set(before).contains(y) || (y == x
                && other_tag == tag && (above || (low.inclusive && low.key.0@ == k.0@)) && (below
                || (high.inclusive && high.key.0@ == k.0@))),
{
    let m = old(index)@;
    let n = final(index)@;
    let inside = other_tag == tag && (above || (low.inclusive && low.key.0@ == k.0@)) && (below || (
    high.inclusive && high.key.0@ == k.0@));
    assert forall|y: u32| #[trigger] bitmap_set(after).contains(y) <==> bitmap_set(before).contains(
        y,
    ) || (y == x && inside) by {
        if in_interval(m, other_tag, low, high, y) {
            let j = choose|j: Seq<u8>| #[trigger]
                crate::index::postings::posting(m, (other_tag, j)).contains(y) && low.admits_above(
                    j,
                ) && high.admits_below(j);
            assert(crate::index::postings::posting(n, (other_tag, j)).contains(y));
        }
        if y == x && inside {
            assert(crate::index::postings::posting(n, (other_tag, k.0@)).contains(y));
        }
        if in_interval(n, other_tag, low, high, y) {
            let j = choose|j: Seq<u8>| #[trigger]
                crate::index::postings::posting(n, (other_tag, j)).contains(y) && low.admits_above(
                    j,
                ) && high.admits_below(j);
            if !crate::index::postings::posting(m, (other_tag, j)).contains(y) {
                assert(j == k.0@);
            }
        }
    }
}

/// An object that is taken out under a value is no longer found under its key;
/// what is found under another tag or another key stays.
pub proof fn taken_out_key_is_not_found(
    index: &mut RangeIndex,
    tag: TagId,
    value: Value,
    x: u32,
    r: bool,
    other_tag: TagId,
    other: Value,
    k: NormalisedKey,
    a: NormalisedKey,
    before: roaring::RoaringBitmap,
    after: roaring::RoaringBitmap,
)
    requires
        old(index).wf(),
        call_ensures(RangeIndex::remove, (index, tag, &value, x), r),
        call_ensures(NormalisedKey::from_value, (&value,), k),
        call_ensures(NormalisedKey::from_value, (&other,), a),
        call_ensures(RangeIndex::lookup, (&*old(index), other_tag, &other), before),
        call_ensures(RangeIndex::lookup, (&*final(index), other_tag, &other), after),
    ensures
        final(index).wf(),
        other_tag == tag && a.0@ == k.0@ ==> bitmap_set(after) == bitmap_set(before).remove(x) && r
            == bitmap_set(before).contains(x),
        other_tag != tag || a.0@ != k.0@ ==> bitmap_set(after) == bitmap_set(before),
{
    let key = (tag, k.0@);
    let m = old(index)@;
    if other_tag == tag && a.0@ == k.0@ {
        if m.contains_key(key) && m[key].remove(x) == Set::<u32>::empty() {
            assert(bitmap_set(after) =~= bitmap_set(before).remove(x));
        }
        if !m.contains_key(key) {
            assert(bitmap_set(after) =~= bitmap_set(before).remove(x));
        }
    }
}

// ---------------------------------------------------------------------
// What is asserted of objects
// ---------------------------------------------------------------------

/// What is asserted of an object is added behind what was asserted of it
/// before; nothing else changes. A tag that is put on it is one of its direct
/// tags, one that follows is one of its materialised tags.
pub proof fn added_assertion_is_listed_last(
    index: &mut ForwardIndex,
    oid: ObjectId,
    assertion: Assertion,
    origin: TagOrigin,
    other: ObjectId,
    before: Vec<(Assertion, TagOrigin)>,
    after: Vec<(Assertion, TagOrigin)>,
    direct_before: Vec<TagId>,
    direct_after: Vec<TagId>,
    implied_before: Vec<TagId>,
    implied_after: Vec<TagId>,
)
    requires
        old(index).wf(),
        call_ensures(ForwardIndex::add_assertion, (index, oid, assertion, origin), ()),
        call_ensures(ForwardIndex::assertions_of, (&*old(index), other), before),
        call_ensures(ForwardIndex::assertions_of, (&*final(index), other), after),
        call_ensures(ForwardIndex::direct_tags, (&*old(index), other), direct_before),
        call_ensures(ForwardIndex::direct_tags, (&*final(index), other), direct_after),
        call_ensures(ForwardIndex::materialized_tags, (&*old(index), other), implied_before),
        call_ensures(ForwardIndex::materialized_tags, (&*final(index), other), implied_after),
    ensures
        final(index).wf(),
        other.raw == oid.raw ==> {
            &&& after@.len() == before@.len() + 1
            &&& forall|i: int|
                0 <= i < before@.len() ==> (#[trigger] after@[i]).0@ == before@[i].0@ && after@[i].1
                    == before@[i].1
            &&& after@[before@.len() as int].0@ == assertion@
            &&& after@[before@.len() as int].1 == origin
        },
        other.raw != oid.raw ==> {
            &&& after@.len() == before@.len()
            &&& forall|i: int|
                0 <= i < before@.len() ==> (#[trigger] after@[i]).0@ == before@[i].0@ && after@[i].1
                    == before@[i].1
        },
        direct_after@ == if other.raw == oid.raw && assertion is Tag && origin
            == TagOrigin::Direct {
            direct_before@.push(assertion->Tag_0)
        } else {
            direct_before@
        },
        implied_after@ == if other.raw == oid.raw && assertion is Tag && origin
            == TagOrigin::Materialized {
            implied_before@.push(assertion->Tag_0)
        } else {
            implied_before@
        },
{
    let l = old(index).of(other.raw);
    let n = final(index).of(other.raw);
    assert(list_model(before@) == l);
    assert(list_model(after@) == n);
    assert(before@.len() == l.len() && after@.len() == n.len());
    assert forall|i: int| 0 <= i < before@.len() implies (#[trigger] after@[i]).0@ == before@[i].0@
        && after@[i].1 == before@[i].1 by {
        assert(list_model(after@)[i] == n[i]);
        assert(list_model(before@)[i] == l[i]);
        assert(n[i] == l[i]);
    }
    if other.raw == oid.raw {
        assert(list_model(after@)[l.len() as int] == (assertion@, origin));
        assert(n.drop_last() =~= l);
        assert(n.last() == (assertion@, origin));
    }
}

/// An object of which nothing was asserted has no assertions and no tags.
pub proof fn nothing_is_asserted_at_first(
    index: ForwardIndex,
    oid: ObjectId,
    list: Vec<(Assertion, TagOrigin)>,
    direct: Vec<TagId>,
    implied: Vec<TagId>,
    spills: bool,
)
    requires
        call_ensures(ForwardIndex::new, (), index),
        call_ensures(ForwardIndex::assertions_of, (&index, oid), list),
        call_ensures(ForwardIndex::direct_tags, (&index, oid), direct),
        call_ensures(ForwardIndex::materialized_tags, (&index, oid), implied),
        call_ensures(ForwardIndex::would_spill, (&index, oid), spills),
    ensures
        index.wf(),
        list@.len() == 0,
        direct@.len() == 0,
        implied@.len() == 0,
        !spills,
{
    assert(list_model(list@).len() == 0);
}

/// An object spills exactly where more than eight assertions are made of it.
pub proof fn more_than_eight_spill(
    index: ForwardIndex,
    oid: ObjectId,
    list: Vec<(Assertion, TagOrigin)>,
    spills: bool,
)
    requires
        index.wf(),
        call_ensures(ForwardIndex::assertions_of, (&index, oid), list),
        call_ensures(ForwardIndex::would_spill, (&index, oid), spills),
    ensures
        spills == (list@.len() > 8),
{
    assert(list_model(list@).len() == list@.len());
}

/// Taking an assertion back takes out the first that is the same, and puts the
/// last in its place; where none is the same, nothing changes. What is asserted
/// of other objects stays.
pub proof fn taken_back_assertion_is_gone(
    index: &mut ForwardIndex,
    oid: ObjectId,
    assertion: &Assertion,
    r: bool,
    other: ObjectId,
    before: Vec<(Assertion, TagOrigin)>,
    after: Vec<(Assertion, TagOrigin)>,
    same: Seq<bool>,
    i: int,
)
    requires
        old(index).wf(),
        call_ensures(ForwardIndex::remove_assertion, (index, oid, assertion), r),
        call_ensures(ForwardIndex::assertions_of, (&*old(index), other), before),
        call_ensures(ForwardIndex::assertions_of, (&*final(index), other), after),
        same.len() == before@.len(),
        forall|j: int|
            0 <= j < before@.len() ==> call_ensures(
                Assertion::same_assertion,
                (&(#[trigger] before@[j]).0, assertion),
                same[j],
            ),
        0 <= i < same.len() ==> same[i] && forall|j: int| 0 <= j < i ==> !#[trigger] same[j],
        !(0 <= i < same.len()) ==> forall|j: int| 0 <= j < same.len() ==> !#[trigger] same[j],
    ensures
        final(index).wf(),
        other.raw == oid.raw ==> r == (0 <= i < same.len()),
        other.raw != oid.raw || !(0 <= i < same.len()) ==> {
            &&& after@.len() == before@.len()
            &&& forall|j: int|
                0 <= j < before@.len() ==> (#[trigger] after@[j]).0@ == before@[j].0@ && after@[j].1
                    == before@[j].1
        },
        other.raw == oid.raw && 0 <= i < same.len() ==> {
            let last = before@.len() - 1;
            &&& after@.len() == last
            &&& forall|j: int|
                0 <= j < last && j != i ==> (#[trigger] after@[j]).0@ == before@[j].0@
                    && after@[j].1 == before@[j].1
            &&& i < last ==> after@[i].0@ == before@[last].0@ && after@[i].1 == before@[last].1
        },
{
    let l = old(index).of(other.raw);
    let n = final(index).of(other.raw);
    assert(list_model(before@) == l);
    assert(list_model(after@) == n);
    assert(before@.len() == l.len() && after@.len() == n.len());
    assert forall|j: int| 0 <= j < l.len() implies (#[trigger] l[j]) == (
        before@[j].0@,
        before@[j].1,
    ) && same[j] == crate::types::assertion::assertion_eq(l[j].0, assertion@) by {
        assert(list_model(before@)[j] == l[j]);
        assert(call_ensures(
            Assertion::same_assertion,
            (&before@[j].0, assertion),
            same[j],
        ));
    }
    assert forall|j: int| 0 <= j < n.len() implies (#[trigger] n[j]) == (
        after@[j].0@,
        after@[j].1,
    ) by {
        assert(list_model(after@)[j] == n[j]);
    }
    if other.raw == oid.raw {
        if 0 <= i < same.len() {
            assert(l[i].0 == before@[i].0@);
            assert forall|j: int| 0 <= j < i implies !crate::types::assertion::assertion_eq(
                (#[trigger] l[j]).0,
                assertion@,
            ) by {
                assert(!same[j]);
            }
            assert(first_match(l, assertion@, i));
            if l.len() > 1 {
                assert(n == crate::index::forward_index::swap_removed(l, i));
            } else {
                assert(n =~= Seq::empty());
            }
            let last = l.len() - 1;
            assert forall|j: int| 0 <= j < last && j != i implies (#[trigger] after@[j]).0@
                == before@[j].0@ && after@[j].1 == before@[j].1 by {
                assert(n[j] == l[j]);
            }
            if i < last {
                assert(n[i] == l[last]);
            }
        } else {
            assert forall|j: int| !first_match(l, assertion@, j) by {
                if first_match(l, assertion@, j) {
                    assert(!same[j]);
                    assert(l[j] == l[j]);
                }
            }
        }
    } else if r {
        let k = choose|k: int| first_match(old(index).of(oid.raw), assertion@, k);
        assert(first_match(old(index).of(oid.raw), assertion@, k));
        assert(n == l);
    }
    if n == l {
        assert forall|j: int| 0 <= j < before@.len() implies (#[trigger] after@[j]).0@
            == before@[j].0@ && after@[j].1 == before@[j].1 by {
            assert(n[j] == l[j]);
        }
    }
}

/// An object that is taken out has no assertions any more, and what was
/// asserted of it is given back; the others keep theirs.
pub proof fn removed_object_has_no_assertions(
    index: &mut ForwardIndex,
    oid: ObjectId,
    given: Vec<(Assertion, TagOrigin)>,
    other: ObjectId,
    before: Vec<(Assertion, TagOrigin)>,
    after: Vec<(Assertion, TagOrigin)>,
)
    requires
        old(index).wf(),
        call_ensures(ForwardIndex::remove_object, (index, oid), given),
        call_ensures(ForwardIndex::assertions_of, (&*old(index), other), before),
        call_ensures(ForwardIndex::assertions_of, (&*final(index), other), after),
    ensures
        final(index).wf(),
        other.raw == oid.raw ==> after@.len() == 0 && given@.len() == before@.len() && forall|
            i: int,
        |
            0 <= i < given@.len() ==> (#[trigger] given@[i]).0@ == before@[i].0@ && given@[i].1
                == before@[i].1,
        other.raw != oid.raw ==> after@.len() == before@.len() && forall|i: int|
            0 <= i < after@.len() ==> (#[trigger] after@[i]).0@ == before@[i].0@ && after@[i].1
                == before@[i].1,
{
    assert(list_model(before@).len() == before@.len());
    assert(list_model(after@).len() == after@.len());
    assert(list_model(given@).len() == given@.len());
    if other.raw == oid.raw {
        assert forall|i: int| 0 <= i < given@.len() implies (#[trigger] given@[i]).0@
            == before@[i].0@ && given@[i].1 == before@[i].1 by {
            assert(list_model(given@)[i] == list_model(before@)[i]);
        }
    } else {
        assert forall|i: int| 0 <= i < after@.len() implies (#[trigger] after@[i]).0@
            == before@[i].0@ && after@[i].1 == before@[i].1 by {
            assert(list_model(after@)[i] == list_model(before@)[i]);
        }
    }
}

// ---------------------------------------------------------------------
// Members of tags
// ---------------------------------------------------------------------

/// The two have the same entry in a bitmap: the low 32 bits of their numbers.
pub open spec fn same_member(a: ObjectId, b: ObjectId) -> bool {
    a.raw as int % 0x1_0000_0000 == b.raw as int % 0x1_0000_0000
}

/// An object that is added to a tag has it from then on; no other object and
/// no other tag is touched.
pub proof fn added_member_is_there(
    index: &mut TagIndex,
    tag: TagId,
    oid: ObjectId,
    other_tag: TagId,
    other: ObjectId,
    before: bool,
    after: bool,
)
    requires
        old(index).wf(),
        call_ensures(TagIndex::add_member, (index, tag, oid), ()),
        call_ensures(TagIndex::contains, (&*old(index), other_tag, other), before),
        call_ensures(TagIndex::contains, (&*final(index), other_tag, other), after),
    ensures
        final(index).wf(),
        after == (before || (other_tag == tag && same_member(other, oid))),
{
}

/// An object that is removed from a tag does not have it any more; no other
/// object and no other tag is touched. The answer says whether it had the tag.
pub proof fn removed_member_is_gone(
    index: &mut TagIndex,
    tag: TagId,
    oid: ObjectId,
    r: bool,
    other_tag: TagId,
    other: ObjectId,
    before: bool,
    after: bool,
)
    requires
        old(index).wf(),
        call_ensures(TagIndex::remove_member, (index, tag, oid), r),
        call_ensures(TagIndex::contains, (&*old(index), other_tag, other), before),
        call_ensures(TagIndex::contains, (&*final(index), other_tag, other), after),
    ensures
        final(index).wf(),
        after == (before && !(other_tag == tag && same_member(other, oid))),
        other_tag == tag && same_member(other, oid) ==> r == before,
{
}

/// An object that is removed everywhere has no tag any more; no other object is
/// touched. The tags that it had are listed.
pub proof fn object_is_removed_everywhere(
    index: &mut TagIndex,
    oid: ObjectId,
    listed: Vec<TagId>,
    tag: TagId,
    other: ObjectId,
    before: bool,
    after: bool,
)
    requires
        old(index).wf(),
        call_ensures(TagIndex::remove_object_from_all, (index, oid), listed),
        call_ensures(TagIndex::contains, (&*old(index), tag, other), before),
        call_ensures(TagIndex::contains, (&*final(index), tag, other), after),
    ensures
        final(index).wf(),
        after == (before && !same_member(other, oid)),
        same_member(other, oid) ==> listed@.contains(tag) == before,
{
}

/// An intersection holds the objects that have all the tags, and none if there
/// are no tags; a union those that have some of them.
pub proof fn joins_of_tags(
    index: TagIndex,
    tags: &[TagId],
    x: u32,
    has: Seq<bool>,
    all: roaring::RoaringBitmap,
    some: roaring::RoaringBitmap,
)
    requires
        index.wf(),
        call_ensures(TagIndex::intersect, (&index, tags), all),
        call_ensures(TagIndex::union, (&index, tags), some),
        has.len() == tags@.len(),
        forall|i: int|
            0 <= i < tags@.len() ==> call_ensures(
                TagIndex::contains,
                (&index, #[trigger] tags@[i], ObjectId { raw: x as u64 }),
                has[i],
            ),
    ensures
        bitmap_set(all).contains(x) <==> has.len() > 0 && forall|i: int|
            0 <= i < has.len() ==> #[trigger] has[i],
        bitmap_set(some).contains(x) <==> exists|i: int| 0 <= i < has.len() && #[trigger] has[i],
{
    let m = index@;
    assert forall|i: int| 0 <= i < has.len() implies #[trigger] has[i]
        == crate::index::tag_index::tag_members(m, tags@[i]).contains(x) by {
        assert(call_ensures(
            TagIndex::contains,
            (&index, tags@[i], ObjectId { raw: x as u64 }),
            has[i],
        ));
    }
    if forall|i: int| 0 <= i < has.len() ==> #[trigger] has[i] {
        assert forall|i: int| 0 <= i < tags@.len() implies crate::index::tag_index::tag_members(
            m,
            #[trigger] tags@[i],
        ).contains(x) by {
            assert(has[i]);
        }
    }
    if bitmap_set(all).contains(x) {
        assert forall|i: int| 0 <= i < has.len() implies #[trigger] has[i] by {
            assert(crate::index::tag_index::tag_members(m, tags@[i]).contains(x));
        }
    }
    if exists|i: int| 0 <= i < has.len() && #[trigger] has[i] {
        let i = choose|i: int| 0 <= i < has.len() && #[trigger] has[i];
        assert(crate::index::tag_index::tag_members(m, tags@[i]).contains(x));
    }
    if bitmap_set(some).contains(x) {
        let i = choose|i: int|
            0 <= i < tags@.len() && crate::index::tag_index::tag_members(
                m,
                #[trigger] tags@[i],
            ).contains(x);
        assert(has[i]);
    }
}

/// The bitmap of a tag holds the objects that have it; without a bitmap no
/// object has it.
pub proof fn bitmap_of_a_tag(
    index: TagIndex,
    tag: TagId,
    x: u32,
    r: Option<&roaring::RoaringBitmap>,
    has: bool,
)
    requires
        index.wf(),
        call_ensures(TagIndex::query_simple, (&index, tag), r),
        call_ensures(TagIndex::contains, (&index, tag, ObjectId { raw: x as u64 }), has),
    ensures
        has == (r is Some && bitmap_set(*r->0).contains(x)),
{
}

/// An object that is appended to an ordered tag stands last in its sequence,
/// and has the tag.
pub proof fn appended_object_stands_last(
    store: &mut TagStore,
    oid: ObjectId,
    other: ObjectId,
    before: Option<&Vec<ObjectId>>,
    after: Option<&Vec<ObjectId>>,
    had: bool,
    has: bool,
)
    requires
        call_ensures(TagStore::push_ordered, (store, oid), ()),
        call_ensures(TagStore::sequence, (&*old(store),), before),
        call_ensures(TagStore::sequence, (&*final(store),), after),
        call_ensures(TagStore::contains, (&*old(store), other), had),
        call_ensures(TagStore::contains, (&*final(store), other), has),
    ensures
        before is Some <==> after is Some,
        before is Some ==> after->0@ == before->0@.push(oid),
        has == (had || (before is Some && same_member(other, oid))),
{
}

/// An object that is removed leaves the order and the ranking, and all others
/// stand there as before: what stood in front of it and what stood behind it
/// move together.
pub proof fn removed_object_leaves_its_place(
    store: &mut TagStore,
    oid: ObjectId,
    r: bool,
    before: Option<&Vec<ObjectId>>,
    after: Option<&Vec<ObjectId>>,
    ranked_before: Option<&Vec<(ObjectId, i64)>>,
    ranked_after: Option<&Vec<(ObjectId, i64)>>,
    front: Seq<ObjectId>,
    rest: Seq<ObjectId>,
    ranked_front: Seq<(ObjectId, i64)>,
    score: i64,
    ranked_rest: Seq<(ObjectId, i64)>,
)
    requires
        call_ensures(TagStore::remove_member, (store, oid), r),
        call_ensures(TagStore::sequence, (&*old(store),), before),
        call_ensures(TagStore::sequence, (&*final(store),), after),
        call_ensures(TagStore::ranked, (&*old(store),), ranked_before),
        call_ensures(TagStore::ranked, (&*final(store),), ranked_after),
        before is Some ==> before->0@ == front.push(oid) + rest || before->0@ == front + rest,
        forall|i: int| 0 <= i < front.len() ==> #[trigger] front[i] != oid,
        forall|i: int| 0 <= i < rest.len() ==> #[trigger] rest[i] != oid,
        ranked_before is Some ==> ranked_before->0@ == ranked_front.push((oid, score)) + ranked_rest
            || ranked_before->0@ == ranked_front + ranked_rest,
        forall|i: int| 0 <= i < ranked_front.len() ==> (#[trigger] ranked_front[i]).0 != oid,
        forall|i: int| 0 <= i < ranked_rest.len() ==> (#[trigger] ranked_rest[i]).0 != oid,
    ensures
        after is Some <==> before is Some,
        before is Some ==> after->0@ == front + rest,
        ranked_after is Some <==> ranked_before is Some,
        ranked_before is Some ==> ranked_after->0@ == ranked_front + ranked_rest,
{
    let keep = other_than(oid);
    if before is Some {
        lemma_all_kept(front, keep);
        lemma_all_kept(rest, keep);
        lemma_filter_join(front, rest, keep);
        lemma_filter_join(front.push(oid), rest, keep);
        lemma_filter_last(front, oid, keep);
    }
    let kept = entry_other_than(oid);
    if ranked_before is Some {
        lemma_all_kept(ranked_front, kept);
        lemma_all_kept(ranked_rest, kept);
        lemma_filter_join(ranked_front, ranked_rest, kept);
        lemma_filter_join(ranked_front.push((oid, score)), ranked_rest, kept);
        lemma_filter_last(ranked_front, (oid, score), kept);
    }
}

proof fn lemma_filter_last<A>(s: Seq<A>, x: A, keep: spec_fn(A) -> bool)
    ensures
        s.push(x).filter(keep) == if keep(x) {
            s.filter(keep).push(x)
        } else {
            s.filter(keep)
        },
{
    reveal(Seq::filter);
    assert(s.push(x).drop_last() =~= s);
}

proof fn lemma_all_kept<A>(s: Seq<A>, keep: spec_fn(A) -> bool)
    requires
        forall|i: int| 0 <= i < s.len() ==> keep(#[trigger] s[i]),
    ensures
        s.filter(keep) == s,
    decreases s.len(),
{
    reveal(Seq::filter);
    if s.len() > 0 {
        assert forall|i: int| 0 <= i < s.drop_last().len() implies keep(
            #[trigger] s.drop_last()[i],
        ) by {
            assert(keep(s[i]));
        }
        lemma_all_kept(s.drop_last(), keep);
        assert(keep(s[s.len() - 1]));
        assert(s.drop_last().push(s.last()) =~= s);
    } else {
        assert(s.filter(keep) =~= s);
    }
}

proof fn lemma_filter_join<A>(a: Seq<A>, b: Seq<A>, keep: spec_fn(A) -> bool)
    ensures
        (a + b).filter(keep) == a.filter(keep) + b.filter(keep),
    decreases b.len(),
{
    reveal(Seq::filter);
    if b.len() == 0 {
        assert(a + b =~= a);
        assert(a.filter(keep) + b.filter(keep) =~= a.filter(keep));
    } else {
        lemma_filter_join(a, b.drop_last(), keep);
        assert((a + b).drop_last() =~= a + b.drop_last());
        assert((a + b).last() == b.last());
        assert((a + b).filter(keep) =~= a.filter(keep) + b.filter(keep));
    }
}

/// A store that is given an order, or a ranking, has its members in it: all of
/// them and no others, by their numbers, and in a ranking with the score zero.
pub proof fn members_get_their_places(
    store: &mut TagStore,
    other: &mut TagStore,
    x: u32,
    had: bool,
    had_other: bool,
    sequence: Option<&Vec<ObjectId>>,
    none: Option<&Vec<ObjectId>>,
    none_ranked: Option<&Vec<(ObjectId, i64)>>,
    ranked: Option<&Vec<(ObjectId, i64)>>,
    i: int,
    j: int,
)
    requires
        call_ensures(TagStore::upgrade_to_ordered, (store,), ()),
        call_ensures(TagStore::contains, (&*old(store), ObjectId { raw: x as u64 }), had),
        call_ensures(TagStore::sequence, (&*old(store),), none),
        call_ensures(TagStore::ranked, (&*old(store),), none_ranked),
        call_ensures(TagStore::sequence, (&*final(store),), sequence),
        call_ensures(TagStore::upgrade_to_ranked, (other,), ()),
        call_ensures(TagStore::contains, (&*old(other), ObjectId { raw: x as u64 }), had_other),
        call_ensures(TagStore::ranked, (&*final(other),), ranked),
    ensures
        none is None && none_ranked is None ==> {
            &&& sequence is Some
            &&& sequence->0@.contains(ObjectId { raw: x as u64 }) == had
            &&& 0 <= i < j < sequence->0@.len() ==> sequence->0@[i].raw < sequence->0@[j].raw
        },
        none is Some ==> sequence is Some && sequence->0@ == none->0@,
        ranked is Some,
        (exists|k: int| 0 <= k < ranked->0@.len() && (#[trigger] ranked->0@[k]).0.raw == x)
            == had_other,
        0 <= i < j < ranked->0@.len() ==> ranked->0@[i].0.raw < ranked->0@[j].0.raw,
        0 <= i < ranked->0@.len() ==> ranked->0@[i].1 == 0,
{
    let own = ObjectId { raw: x as u64 };
    assert(entry_of(own) == x);
    if none is None && none_ranked is None {
        let s = sequence->0@;
        let m = old(store)@.members();
        if m.contains(x) {
            let k = choose|k: int| 0 <= k < s.len() && (#[trigger] s[k]).raw == x;
            assert(s[k] == own);
        }
        if s.contains(own) {
            let k = choose|k: int| 0 <= k < s.len() && s[k] == own;
            assert(s[k].raw <= u32::MAX && m.contains(s[k].raw as u32));
        }
    }
    let s = ranked->0@;
    let ids = ranked_ids(s);
    let m = old(other)@.members();
    assert(lists_members(ids, m));
    if m.contains(x) {
        let k = choose|k: int| 0 <= k < ids.len() && (#[trigger] ids[k]).raw == x;
        assert(s[k].0 == ids[k]);
    }
    if exists|k: int| 0 <= k < s.len() && (#[trigger] s[k]).0.raw == x {
        let k = choose|k: int| 0 <= k < s.len() && (#[trigger] s[k]).0.raw == x;
        assert(ids[k] == s[k].0);
        assert(m.contains(ids[k].raw as u32));
    }
    if 0 <= i < j < s.len() {
        assert(ids[i].raw < ids[j].raw);
    }
}

/// An object with a score is put into a ranking in which scores fall: behind
/// all that score no less, before all that score less.
pub proof fn ranked_object_stands_by_its_score(
    store: &mut TagStore,
    oid: ObjectId,
    score: i64,
    other: ObjectId,
    before: Option<&Vec<(ObjectId, i64)>>,
    after: Option<&Vec<(ObjectId, i64)>>,
    had: bool,
    has: bool,
    p: int,
)
    requires
        call_ensures(TagStore::insert_ranked, (store, oid, score), ()),
        call_ensures(TagStore::ranked, (&*old(store),), before),
        call_ensures(TagStore::ranked, (&*final(store),), after),
        call_ensures(TagStore::contains, (&*old(store), other), had),
        call_ensures(TagStore::contains, (&*final(store), other), has),
        before is Some ==> {
            &&& 0 <= p <= before->0@.len()
            &&& forall|i: int, j: int|
                0 <= i < j < before->0@.len() ==> (#[trigger] before->0@[i]).1 >= (
                #[trigger] before->0@[j]).1
            &&& forall|i: int| 0 <= i < p ==> (#[trigger] before->0@[i]).1 >= score
            &&& forall|i: int| p <= i < before->0@.len() ==> (#[trigger] before->0@[i]).1 < score
        },
    ensures
        before is Some <==> after is Some,
        before is Some ==> after->0@ == before->0@.insert(p, (oid, score)),
        has == (had || (before is Some && same_member(other, oid))),
{
    if before is Some {
        let s = before->0@;
        let e = (oid, score);
        let want = s.insert(p, e);
        let got = after->0@;
        assert(crate::sorting::by_rank(want)) by {
            assert forall|i: int, j: int| 0 <= i < j < want.len() implies crate::sorting::Ranked::rank(
                &#[trigger] want[i],
            ) <= crate::sorting::Ranked::rank(&#[trigger] want[j]) by {
                if i < p {
                    assert(want[i] == s[i]);
                } else if i > p {
                    assert(want[i] == s[i - 1]);
                }
                if j < p {
                    assert(want[j] == s[j]);
                } else if j > p {
                    assert(want[j] == s[j - 1]);
                }
            }
        }
        assert forall|k: int| #[trigger] crate::sorting::of_rank(got, k)
            == crate::sorting::of_rank(want, k) by {
            let head = s.take(p);
            let tail = s.skip(p);
            assert(want =~= head.push(e) + tail);
            assert(s.push(e) =~= head + tail.push(e));
            crate::sorting::lemma_of_rank_join(head.push(e), tail, k);
            crate::sorting::lemma_of_rank_join(head, tail.push(e), k);
            crate::sorting::lemma_rank_push(head.push(e), k);
            crate::sorting::lemma_rank_push(tail.push(e), k);
            assert(head.push(e).drop_last() =~= head);
            assert(tail.push(e).drop_last() =~= tail);
            if k == -(score as int) {
                crate::sorting::lemma_none(tail, k);
                assert(crate::sorting::of_rank(tail, k) =~= Seq::empty());
                assert(crate::sorting::of_rank(want, k) =~= crate::sorting::of_rank(s.push(e), k));
            }
            assert(crate::sorting::of_rank(want, k) =~= crate::sorting::of_rank(s.push(e), k));
        }
        crate::sorting::sorted_order_is_unique(got, want);
    }
}

/// Each tag of a selection is counted once with the number of its members in
/// the selection; tags without any are left out, and the highest counts come
/// first, of equal counts the lowest tag.
pub proof fn facets_count_members(
    index: TagIndex,
    selection: roaring::RoaringBitmap,
    r: Vec<FacetCount>,
    tag: TagId,
    own: Option<&roaring::RoaringBitmap>,
    i: int,
    j: int,
)
    requires
        index.wf(),
        call_ensures(FacetedExplorer::facets_for, (&index, &selection), r),
        call_ensures(TagIndex::query_simple, (&index, tag), own),
    ensures
        0 <= i < r@.len() && r@[i].tag == tag ==> own is Some && r@[i].count > 0 && r@[i].count
            == bitmap_set(selection).intersect(bitmap_set(*own->0)).len(),
        own is Some && 0 < bitmap_set(selection).intersect(bitmap_set(*own->0)).len() <= u64::MAX
            ==> exists|k: int| 0 <= k < r@.len() && (#[trigger] r@[k]).tag == tag,
        0 <= i < j < r@.len() ==> r@[i].count > r@[j].count || r@[i].count == r@[j].count
            && r@[i].tag.id < r@[j].tag.id,
{
    if 0 <= i < r@.len() && r@[i].tag == tag {
        assert(r@.contains(r@[i]));
    }
    if own is Some && 0 < bitmap_set(selection).intersect(bitmap_set(*own->0)).len() <= u64::MAX {
        let n = bitmap_set(selection).intersect(bitmap_set(*own->0)).len();
        let f = FacetCount { tag, count: n as u64 };
        assert(r@.contains(f));
        let k = r@.index_of(f);
        assert(r@[k].tag == tag);
    }
    if 0 <= i < j < r@.len() {
        assert(crate::index::faceted::listed_before(r@[i], r@[j]));
    }
}

// ---------------------------------------------------------------------
// Chunks
// ---------------------------------------------------------------------

/// A chunk that is entered counts one reference more, as far as it can be
/// counted, and stays where it was first entered; the other chunks stay.
pub proof fn entered_chunk_counts_once_more(
    index: &mut ChunkIndex,
    hash: [u8; 32],
    blob: BlobRef,
    length: u32,
    r: BlobRef,
    other: [u8; 32],
    before: Option<(BlobRef, u32, u32)>,
    after: Option<(BlobRef, u32, u32)>,
    count_before: u32,
    count_after: u32,
)
    requires
        old(index).wf(),
        call_ensures(ChunkIndex::insert_or_bump, (index, hash, blob, length), r),
        call_ensures(ChunkIndex::entry, (&*old(index), &other), before),
        call_ensures(ChunkIndex::entry, (&*final(index), &other), after),
        call_ensures(ChunkIndex::ref_count, (&*old(index), &other), count_before),
        call_ensures(ChunkIndex::ref_count, (&*final(index), &other), count_after),
    ensures
        final(index).wf(),
        other@ != hash@ ==> after == before && count_after == count_before,
        other@ == hash@ ==> after is Some && after->Some_0.0 == r,
        after is Some ==> after->Some_0.1 == count_after,
        other@ == hash@ && before is None ==> r == blob && count_after == 1 && count_before == 0
            && after->Some_0.2 == length,
        other@ == hash@ && before is Some ==> r == before->Some_0.0 && after->Some_0.2
            == before->Some_0.2,
        other@ == hash@ && before is Some && count_before < u32::MAX ==> count_after == count_before
            + 1,
        other@ == hash@ && before is Some && count_before == u32::MAX ==> count_after == u32::MAX,
{
}

/// A chunk that loses a reference counts one less; with its last reference it
/// goes, and only then the answer is true. The other chunks stay.
pub proof fn released_chunk_counts_once_less(
    index: &mut ChunkIndex,
    hash: [u8; 32],
    r: bool,
    other: [u8; 32],
    before: Option<(BlobRef, u32, u32)>,
    after: Option<(BlobRef, u32, u32)>,
    count_before: u32,
    count_after: u32,
)
    requires
        old(index).wf(),
        call_ensures(ChunkIndex::decrement, (index, &hash), r),
        call_ensures(ChunkIndex::entry, (&*old(index), &other), before),
        call_ensures(ChunkIndex::entry, (&*final(index), &other), after),
        call_ensures(ChunkIndex::ref_count, (&*old(index), &other), count_before),
        call_ensures(ChunkIndex::ref_count, (&*final(index), &other), count_after),
    ensures
        final(index).wf(),
        other@ != hash@ ==> after == before && count_after == count_before,
        other@ == hash@ && before is None ==> !r && after is None,
        other@ == hash@ && before is Some && count_before > 1 ==> !r && after is Some
            && after->Some_0.0 == before->Some_0.0 && count_after == count_before - 1,
        other@ == hash@ && before is Some && count_before <= 1 ==> r && after is None
            && count_after == 0,
{
}

} // verus!
