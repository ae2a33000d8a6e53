//! What queries mean, in terms of what the indexes answer.

use vstd::prelude::*;
use vstd::utf8::encode_utf8;
use crate::bytes::lex_less;
use crate::index::bitmap::bitmap_set;
use crate::index::kv_index::KvIndex;
use crate::index::normalised_key::{key_of, keys_sort_by_type, type_byte, NormalisedKey};
use crate::index::postings::posting;
use crate::index::tag_index::TagIndex;
use crate::ontology::implication_dag::{closure_set, implied, ImplicationDag};
use crate::query::bounds::{float_keys_compare, int_keys_compare, key_below, key_from, smallest,
    text_keys_compare, timestamp_keys_compare, top_key};
use crate::query::error::{QueryError, QueryFault};
use crate::query::executor::{attr_members, evaluated, evaluated_list, finds, in_all, in_any,
    Indexes, QueryExecutor, Sought};
use crate::query::facets::{FacetGroup, FacetedExplorer};
use crate::types::assertion::AssertionModel;
use crate::types::id::{ObjectId, TagId};
use crate::types::query::{lemma_query_models, query_models, CmpOp, Query};
use crate::types::value::{Value, ValueModel};

verus! {

/// The bitmap number of the object is `x`: its number within its node.
pub open spec fn numbered(oid: u64, x: u32) -> bool {
    oid as int % 0x1_0000_0000_0000 == x
}

/// A tag query means the objects of which the tag index says that they have
/// the tag.
pub proof fn tag_query_means_members(
    ex: QueryExecutor,
    tag: TagId,
    x: u32,
    r: Result<roaring::RoaringBitmap, QueryError>,
    member: bool,
)
    requires
        ex.wf(),
        call_ensures(QueryExecutor::evaluate, (&ex, &Query::HasTag(tag)), r),
        call_ensures(
            TagIndex::contains,
            (ex.tag_index, tag, ObjectId { raw: x as u64 }),
            member,
        ),
    ensures
        r is Ok,
        bitmap_set(r->Ok_0).contains(x) == member,
{
}

/// A relation query means the objects of which a relation with this predicate
/// and this target is asserted, and no others.
pub proof fn relation_query_means_the_related(
    ex: QueryExecutor,
    predicate: TagId,
    target: ObjectId,
    r: Result<roaring::RoaringBitmap, QueryError>,
)
    requires
        ex.wf(),
        call_ensures(
            QueryExecutor::evaluate,
            (&ex, &Query::Related { predicate, target }),
            r,
        ),
    ensures
        r is Ok,
        forall|oid: u64, i: int, x: u32|
            ex.forward_index@.contains_key(oid) && 0 <= i < ex.forward_index@[oid].len()
                && #[trigger] ex.forward_index@[oid][i].0 == AssertionModel::Relation(
                predicate,
                target,
            ) && #[trigger] numbered(oid, x) ==> bitmap_set(r->Ok_0).contains(x),
        forall|x: u32| #[trigger]
            bitmap_set(r->Ok_0).contains(x) ==> exists|oid: u64, i: int|
                {
                    &&& ex.forward_index@.contains_key(oid)
                    &&& 0 <= i < ex.forward_index@[oid].len()
                    &&& #[trigger] ex.forward_index@[oid][i].0 == AssertionModel::Relation(
                        predicate,
                        target,
                    )
                    &&& numbered(oid, x)
                },
{
    let f = ex.forward_index@;
    let s = Sought::Relation(predicate, target);
    assert forall|oid: u64, i: int, x: u32|
        f.contains_key(oid) && 0 <= i < f[oid].len() && #[trigger] f[oid][i].0
            == AssertionModel::Relation(predicate, target) && #[trigger] numbered(
            oid,
            x,
        ) implies bitmap_set(r->Ok_0).contains(x) by {
        assert(finds(f, s, oid, i, x));
    }
    assert forall|x: u32| #[trigger] bitmap_set(r->Ok_0).contains(x) implies exists|
        oid: u64,
        i: int,
    |
        {
            &&& f.contains_key(oid)
            &&& 0 <= i < f[oid].len()
            &&& #[trigger] f[oid][i].0 == AssertionModel::Relation(predicate, target)
            &&& numbered(oid, x)
        } by {
        let (oid, i) = choose|oid: u64, i: int| #[trigger] finds(f, s, oid, i, x);
        assert(f[oid][i].0 == AssertionModel::Relation(predicate, target));
    }
}

/// A comparison for equality means what the equality index finds for the value.
pub proof fn equality_query_means_the_lookup(
    ex: QueryExecutor,
    key: TagId,
    value: Value,
    r: Result<roaring::RoaringBitmap, QueryError>,
    found: roaring::RoaringBitmap,
)
    requires
        ex.wf(),
        call_ensures(
            QueryExecutor::evaluate,
            (&ex, &Query::HasAttr { key, op: CmpOp::Eq, value }),
            r,
        ),
        call_ensures(KvIndex::lookup, (ex.kv_index, key, &value), found),
    ensures
        r is Ok,
        bitmap_set(r->Ok_0) == bitmap_set(found),
{
}

/// A comparison for inequality means the objects of which the attribute is
/// asserted, whatever its value, but for those with an equal value.
pub proof fn inequality_query_means_the_others(
    ex: QueryExecutor,
    key: TagId,
    value: Value,
    r: Result<roaring::RoaringBitmap, QueryError>,
    equal: Result<roaring::RoaringBitmap, QueryError>,
)
    requires
        ex.wf(),
        call_ensures(
            QueryExecutor::evaluate,
            (&ex, &Query::HasAttr { key, op: CmpOp::Ne, value }),
            r,
        ),
        call_ensures(
            QueryExecutor::evaluate,
            (&ex, &Query::HasAttr { key, op: CmpOp::Eq, value }),
            equal,
        ),
    ensures
        r is Ok,
        equal is Ok,
        forall|oid: u64, i: int, x: u32|
            ex.forward_index@.contains_key(oid) && 0 <= i < ex.forward_index@[oid].len()
                && #[trigger] ex.forward_index@[oid][i].0 is Attr
                && ex.forward_index@[oid][i].0->Attr_0 == key && #[trigger] numbered(oid, x)
                && !bitmap_set(equal->Ok_0).contains(x) ==> bitmap_set(r->Ok_0).contains(x),
        forall|x: u32| #[trigger]
            bitmap_set(r->Ok_0).contains(x) ==> !bitmap_set(equal->Ok_0).contains(x) && exists|
                oid: u64,
                i: int,
            |
                {
                    &&& ex.forward_index@.contains_key(oid)
                    &&& 0 <= i < ex.forward_index@[oid].len()
                    &&& #[trigger] ex.forward_index@[oid][i].0 is Attr
                    &&& ex.forward_index@[oid][i].0->Attr_0 == key
                    &&& numbered(oid, x)
                },
{
    let f = ex.forward_index@;
    let s = Sought::Key(key);
    assert forall|oid: u64, i: int, x: u32|
        f.contains_key(oid) && 0 <= i < f[oid].len() && #[trigger] f[oid][i].0 is Attr
            && f[oid][i].0->Attr_0 == key && #[trigger] numbered(oid, x) && !bitmap_set(
            equal->Ok_0,
        ).contains(x) implies bitmap_set(r->Ok_0).contains(x) by {
        assert(finds(f, s, oid, i, x));
    }
    assert forall|x: u32| #[trigger] bitmap_set(r->Ok_0).contains(x) implies exists|
        oid: u64,
        i: int,
    |
        {
            &&& f.contains_key(oid)
            &&& 0 <= i < f[oid].len()
            &&& #[trigger] f[oid][i].0 is Attr
            &&& f[oid][i].0->Attr_0 == key
            &&& numbered(oid, x)
        } by {
        let (oid, i) = choose|oid: u64, i: int| #[trigger] finds(f, s, oid, i, x);
        assert(f[oid][i].0 is Attr);
    }
}

/// A prefix query means the objects of which the attribute is asserted with a
/// text that begins with the given one, character by character.
pub proof fn prefix_query_means_the_texts_that_begin_so(
    ex: QueryExecutor,
    key: TagId,
    value: Value,
    r: Result<roaring::RoaringBitmap, QueryError>,
)
    requires
        ex.wf(),
        call_ensures(
            QueryExecutor::evaluate,
            (&ex, &Query::HasAttr { key, op: CmpOp::Prefix, value }),
            r,
        ),
    ensures
        r is Ok,
        !(value is Text) ==> forall|x: u32| !#[trigger] bitmap_set(r->Ok_0).contains(x),
        value is Text ==> forall|oid: u64, i: int, x: u32|
            ex.forward_index@.contains_key(oid) && 0 <= i < ex.forward_index@[oid].len() && (
            match #[trigger] ex.forward_index@[oid][i].0 {
                AssertionModel::Attr(k, ValueModel::Text(t)) => k == key
                    && value->Text_0@.is_prefix_of(t),
                _ => false,
            }) && #[trigger] numbered(oid, x) ==> bitmap_set(r->Ok_0).contains(x),
        value is Text ==> forall|x: u32| #[trigger]
            bitmap_set(r->Ok_0).contains(x) ==> exists|oid: u64, i: int|
                {
                    &&& ex.forward_index@.contains_key(oid)
                    &&& 0 <= i < ex.forward_index@[oid].len()
                    &&& numbered(oid, x)
                    &&& match #[trigger] ex.forward_index@[oid][i].0 {
                        AssertionModel::Attr(k, ValueModel::Text(t)) => k == key
                            && value->Text_0@.is_prefix_of(t),
                        _ => false,
                    }
                },
{
    let f = ex.forward_index@;
    if value is Text {
        let p = value->Text_0@;
        let s = Sought::Prefix(key, p);
        assert forall|oid: u64, i: int, x: u32|
            f.contains_key(oid) && 0 <= i < f[oid].len() && (match #[trigger] f[oid][i].0 {
                AssertionModel::Attr(k, ValueModel::Text(t)) => k == key && p.is_prefix_of(t),
                _ => false,
            }) && #[trigger] numbered(oid, x) implies bitmap_set(r->Ok_0).contains(x) by {
            let t = f[oid][i].0->Attr_1->Text_0;
            assert(t.take(p.len() as int) =~= p);
            assert(finds(f, s, oid, i, x));
        }
        assert forall|x: u32| #[trigger] bitmap_set(r->Ok_0).contains(x) implies exists|
            oid: u64,
            i: int,
        |
            {
                &&& f.contains_key(oid)
                &&& 0 <= i < f[oid].len()
                &&& numbered(oid, x)
                &&& match #[trigger] f[oid][i].0 {
                    AssertionModel::Attr(k, ValueModel::Text(t)) => k == key && p.is_prefix_of(t),
                    _ => false,
                }
            } by {
            let (oid, i) = choose|oid: u64, i: int| #[trigger] finds(f, s, oid, i, x);
            let t = f[oid][i].0->Attr_1->Text_0;
            assert(p =~= t.subrange(0, p.len() as int)) by {
                assert(t.take(p.len() as int) =~= t.subrange(0, p.len() as int));
            }
            assert(f[oid][i].0 == AssertionModel::Attr(key, ValueModel::Text(t)));
        }
    }
}

/// Whether any text contains another is not answered.
pub proof fn containment_is_not_answered(
    ex: QueryExecutor,
    key: TagId,
    value: Value,
    r: Result<roaring::RoaringBitmap, QueryError>,
)
    requires
        ex.wf(),
        call_ensures(
            QueryExecutor::evaluate,
            (&ex, &Query::HasAttr { key, op: CmpOp::Contains, value }),
            r,
        ),
    ensures
        r is Err,
        r->Err_0 is UnsupportedCmpOp,
{
}

/// Under the attribute, the range index has the object `x` under the key of
/// `w` alone.
pub open spec fn only_value(ex: QueryExecutor, key: TagId, x: u32, own: NormalisedKey) -> bool {
    &&& ex.range_index@.contains_key((key, own.0@))
    &&& ex.range_index@[(key, own.0@)].contains(x)
    &&& forall|k: Seq<u8>|
        ex.range_index@.contains_key((key, k)) && #[trigger] ex.range_index@[(key, k)].contains(x)
            ==> k == own.0@
}

/// What the four comparisons with `v` find of an object with the one value `w`.
proof fn lemma_compared(ex: QueryExecutor, key: TagId, x: u32, own: NormalisedKey, v: ValueModel)
    requires
        only_value(ex, key, x, own),
    ensures
        ({
            let ix = ex.indexes();
            let k = own.0@;
            &&& attr_members(ix, key, CmpOp::Lt, v)->Ok_0.contains(x) == key_below(k, v)
            &&& attr_members(ix, key, CmpOp::Le, v)->Ok_0.contains(x) == (key_below(k, v) || k
                == key_of(v))
            &&& attr_members(ix, key, CmpOp::Gt, v)->Ok_0.contains(x) == (key_from(k, v) && k
                != key_of(v))
            &&& attr_members(ix, key, CmpOp::Ge, v)->Ok_0.contains(x) == (key_from(k, v) || k
                == key_of(v))
        }),
{
    let k = own.0@;
    let range = ex.range_index@;
    assert(posting(range, (key, k)).contains(x));
    assert forall|j: Seq<u8>| #[trigger] posting(range, (key, j)).contains(x) implies j == k by {
        assert(range[(key, j)].contains(x));
    }
}

/// The kinds of the two values are the same.
pub open spec fn same_kind(a: Value, b: Value) -> bool {
    match (a, b) {
        (Value::Text(_), Value::Text(_)) => true,
        (Value::Int(_), Value::Int(_)) => true,
        (Value::Float(_), Value::Float(_)) => true,
        (Value::Timestamp(_), Value::Timestamp(_)) => true,
        (Value::Blob(_), Value::Blob(_)) => true,
        (Value::Scoped { .. }, Value::Scoped { .. }) => true,
        _ => false,
    }
}

/// The four comparisons of an attribute with a value.
pub open spec fn compared(
    ex: QueryExecutor,
    key: TagId,
    value: Value,
    less: Result<roaring::RoaringBitmap, QueryError>,
    at_most: Result<roaring::RoaringBitmap, QueryError>,
    greater: Result<roaring::RoaringBitmap, QueryError>,
    at_least: Result<roaring::RoaringBitmap, QueryError>,
) -> bool {
    &&& call_ensures(
        QueryExecutor::evaluate,
        (&ex, &Query::HasAttr { key, op: CmpOp::Lt, value }),
        less,
    )
    &&& call_ensures(
        QueryExecutor::evaluate,
        (&ex, &Query::HasAttr { key, op: CmpOp::Le, value }),
        at_most,
    )
    &&& call_ensures(
        QueryExecutor::evaluate,
        (&ex, &Query::HasAttr { key, op: CmpOp::Gt, value }),
        greater,
    )
    &&& call_ensures(
        QueryExecutor::evaluate,
        (&ex, &Query::HasAttr { key, op: CmpOp::Ge, value }),
        at_least,
    )
}

/// An object with one integer is found by a comparison with an integer exactly
/// where the two numbers compare so; the same holds of timestamps.
pub proof fn number_queries_compare_numbers(
    ex: QueryExecutor,
    key: TagId,
    w: i64,
    v: i64,
    times: bool,
    own: NormalisedKey,
    x: u32,
    less: Result<roaring::RoaringBitmap, QueryError>,
    at_most: Result<roaring::RoaringBitmap, QueryError>,
    greater: Result<roaring::RoaringBitmap, QueryError>,
    at_least: Result<roaring::RoaringBitmap, QueryError>,
)
    requires
        ex.wf(),
        call_ensures(
            NormalisedKey::from_value,
            (&if times {
                Value::Timestamp(w)
            } else {
                Value::Int(w)
            },),
            own,
        ),
        only_value(ex, key, x, own),
        compared(
            ex,
            key,
            if times {
                Value::Timestamp(v)
            } else {
                Value::Int(v)
            },
            less,
            at_most,
            greater,
            at_least,
        ),
    ensures
        less is Ok && at_most is Ok && greater is Ok && at_least is Ok,
        bitmap_set(less->Ok_0).contains(x) == (w < v),
        bitmap_set(at_most->Ok_0).contains(x) == (w <= v),
        bitmap_set(greater->Ok_0).contains(x) == (w > v),
        bitmap_set(at_least->Ok_0).contains(x) == (w >= v),
{
    let value = if times {
        Value::Timestamp(v)
    } else {
        Value::Int(v)
    };
    lemma_compared(ex, key, x, own, value@);
    if times {
        timestamp_keys_compare(w, v);
        timestamp_keys_compare(v, w);
        timestamp_keys_compare(w, w);
    } else {
        int_keys_compare(w, v);
        int_keys_compare(v, w);
        int_keys_compare(w, w);
    }
}

/// The order of floating-point numbers by their bits, the negative zero before
/// the positive: a number with the sign bit is less than one without; of two
/// without it the smaller pattern is less, of two with it the greater.
pub open spec fn float_before(a: u64, b: u64) -> bool {
    let half = 0x8000_0000_0000_0000u64;
    if a >= half {
        b < half || a > b
    } else {
        b < half && a < b
    }
}

/// An object with one floating-point number, not a NaN, is found by a
/// comparison with such a number exactly where the two numbers compare so.
pub proof fn float_queries_compare_numbers(
    ex: QueryExecutor,
    key: TagId,
    w: u64,
    v: u64,
    own: NormalisedKey,
    x: u32,
    less: Result<roaring::RoaringBitmap, QueryError>,
    at_most: Result<roaring::RoaringBitmap, QueryError>,
    greater: Result<roaring::RoaringBitmap, QueryError>,
    at_least: Result<roaring::RoaringBitmap, QueryError>,
)
    requires
        ex.wf(),
        w <= 0x7FF0_0000_0000_0000 || 0x8000_0000_0000_0000 <= w <= 0xFFF0_0000_0000_0000,
        call_ensures(NormalisedKey::from_value, (&Value::Float(w),), own),
        only_value(ex, key, x, own),
        compared(ex, key, Value::Float(v), less, at_most, greater, at_least),
    ensures
        less is Ok && at_most is Ok && greater is Ok && at_least is Ok,
        bitmap_set(less->Ok_0).contains(x) == float_before(w, v),
        bitmap_set(at_most->Ok_0).contains(x) == (float_before(w, v) || w == v),
        bitmap_set(greater->Ok_0).contains(x) == float_before(v, w),
        bitmap_set(at_least->Ok_0).contains(x) == (float_before(v, w) || w == v),
{
    lemma_compared(ex, key, x, own, ValueModel::Float(v));
    float_keys_compare(w, v);
    crate::index::normalised_key::float_keys_sort(w, v);
    crate::index::normalised_key::float_keys_sort(v, w);
    crate::bytes::lemma_lex_total(key_of(ValueModel::Float(w)), key_of(ValueModel::Float(v)));
    crate::bytes::lemma_lex_total(key_of(ValueModel::Float(w)), key_of(ValueModel::Float(w)));
}

/// The bytes of `a` and `b` before `n` are the same, and at `n` that of `a` is
/// the smaller, or `a` has ended there and `b` has not.
pub open spec fn smaller_at(a: Seq<u8>, b: Seq<u8>, n: int) -> bool {
    &&& 0 <= n <= a.len()
    &&& n < b.len()
    &&& a.take(n) == b.take(n)
    &&& n < a.len() ==> a[n] < b[n]
}

/// In the order of texts, `a` comes before `b`: at the first byte in which
/// they differ it has the smaller, or it is a proper beginning of `b`.
pub open spec fn text_before(a: Seq<u8>, b: Seq<u8>) -> bool {
    exists|n: int| #[trigger] smaller_at(a, b, n)
}

proof fn lemma_text_before(a: Seq<u8>, b: Seq<u8>)
    ensures
        lex_less(a, b) == text_before(a, b),
    decreases b.len(),
{
    if b.len() == 0 {
    } else if a.len() == 0 {
        assert(a.take(0) =~= b.take(0));
        assert(smaller_at(a, b, 0));
    } else if a[0] != b[0] {
        assert(a.take(0) =~= b.take(0));
        if a[0] < b[0] {
            assert(smaller_at(a, b, 0));
        }
        if text_before(a, b) {
            let n = choose|n: int| #[trigger] smaller_at(a, b, n);
            if n > 0 {
                assert(a.take(n)[0] == b.take(n)[0]);
            }
        }
    } else {
        let c = a.skip(1);
        let d = b.skip(1);
        lemma_text_before(c, d);
        if text_before(c, d) {
            let n = choose|n: int| #[trigger] smaller_at(c, d, n);
            assert(a.take(n + 1) =~= seq![a[0]] + c.take(n));
            assert(b.take(n + 1) =~= seq![b[0]] + d.take(n));
            assert(smaller_at(a, b, n + 1));
        }
        if text_before(a, b) {
            let n = choose|n: int| #[trigger] smaller_at(a, b, n);
            assert(n > 0);
            assert(c.take(n - 1) =~= a.take(n).skip(1));
            assert(d.take(n - 1) =~= b.take(n).skip(1));
            assert(smaller_at(c, d, n - 1));
        }
    }
}

/// An object with one text is found by a comparison with a text exactly where
/// the two compare so, byte by byte, if one of them has at most thirteen bytes.
pub proof fn text_queries_compare_texts(
    ex: QueryExecutor,
    key: TagId,
    w: String,
    v: String,
    own: NormalisedKey,
    x: u32,
    less: Result<roaring::RoaringBitmap, QueryError>,
    at_most: Result<roaring::RoaringBitmap, QueryError>,
    greater: Result<roaring::RoaringBitmap, QueryError>,
    at_least: Result<roaring::RoaringBitmap, QueryError>,
)
    requires
        ex.wf(),
        encode_utf8(w@).len() <= 13 || encode_utf8(v@).len() <= 13,
        call_ensures(NormalisedKey::from_value, (&Value::Text(w),), own),
        only_value(ex, key, x, own),
        compared(ex, key, Value::Text(v), less, at_most, greater, at_least),
    ensures
        less is Ok && at_most is Ok && greater is Ok && at_least is Ok,
        bitmap_set(less->Ok_0).contains(x) == text_before(encode_utf8(w@), encode_utf8(v@)),
        bitmap_set(at_least->Ok_0).contains(x) == !text_before(encode_utf8(w@), encode_utf8(v@)),
        bitmap_set(greater->Ok_0).contains(x) == text_before(encode_utf8(v@), encode_utf8(w@)),
        bitmap_set(at_most->Ok_0).contains(x) == !text_before(encode_utf8(v@), encode_utf8(w@)),
{
    let a = ValueModel::Text(w@);
    let b = ValueModel::Text(v@);
    lemma_compared(ex, key, x, own, b);
    text_keys_compare(w@, v@);
    crate::index::normalised_key::text_keys_sort(w@, v@);
    crate::index::normalised_key::text_keys_sort(v@, w@);
    crate::bytes::lemma_lex_total(key_of(a), key_of(b));
    crate::bytes::lemma_lex_total(key_of(a), key_of(a));
    lemma_text_before(encode_utf8(w@), encode_utf8(v@));
    lemma_text_before(encode_utf8(v@), encode_utf8(w@));
}

/// An object with one value is found by no comparison with a value of another
/// kind.
pub proof fn other_kinds_do_not_compare(
    ex: QueryExecutor,
    key: TagId,
    w: Value,
    v: Value,
    own: NormalisedKey,
    x: u32,
    less: Result<roaring::RoaringBitmap, QueryError>,
    at_most: Result<roaring::RoaringBitmap, QueryError>,
    greater: Result<roaring::RoaringBitmap, QueryError>,
    at_least: Result<roaring::RoaringBitmap, QueryError>,
)
    requires
        ex.wf(),
        !same_kind(w, v),
        call_ensures(NormalisedKey::from_value, (&w,), own),
        only_value(ex, key, x, own),
        compared(ex, key, v, less, at_most, greater, at_least),
    ensures
        less is Ok && at_most is Ok && greater is Ok && at_least is Ok,
        !bitmap_set(less->Ok_0).contains(x),
        !bitmap_set(at_most->Ok_0).contains(x),
        !bitmap_set(greater->Ok_0).contains(x),
        !bitmap_set(at_least->Ok_0).contains(x),
{
    let a = w@;
    let b = v@;
    lemma_compared(ex, key, x, own, b);
    assert(type_byte(a) != type_byte(b));
    keys_sort_by_type(a, b);
    lemma_smallest_kind(b);
    keys_sort_by_type(a, smallest(b));
    let k = key_of(a);
    let t = top_key(b);
    assert(k[0] == type_byte(a));
    assert(t[0] == type_byte(b));
    assert(key_of(b)[0] == type_byte(b));
    assert(t.len() > 0 && k.len() > 0);
}

proof fn lemma_smallest_kind(v: ValueModel)
    ensures
        type_byte(smallest(v)) == type_byte(v),
{
}

/// Any value on its side brings an object in: an integer less than `v` brings
/// it among those less and at most, one no less among those at least. The same
/// holds of timestamps. Only having the very number `v` too keeps an object
/// from those greater.
pub proof fn any_number_brings_an_object_in(
    ex: QueryExecutor,
    key: TagId,
    w: i64,
    v: i64,
    times: bool,
    own: NormalisedKey,
    same: NormalisedKey,
    x: u32,
    less: Result<roaring::RoaringBitmap, QueryError>,
    at_most: Result<roaring::RoaringBitmap, QueryError>,
    greater: Result<roaring::RoaringBitmap, QueryError>,
    at_least: Result<roaring::RoaringBitmap, QueryError>,
)
    requires
        ex.wf(),
        call_ensures(
            NormalisedKey::from_value,
            (&if times {
                Value::Timestamp(w)
            } else {
                Value::Int(w)
            },),
            own,
        ),
        call_ensures(
            NormalisedKey::from_value,
            (&if times {
                Value::Timestamp(v)
            } else {
                Value::Int(v)
            },),
            same,
        ),
        ex.range_index@.contains_key((key, own.0@)),
        ex.range_index@[(key, own.0@)].contains(x),
        compared(
            ex,
            key,
            if times {
                Value::Timestamp(v)
            } else {
                Value::Int(v)
            },
            less,
            at_most,
            greater,
            at_least,
        ),
    ensures
        less is Ok && at_most is Ok && greater is Ok && at_least is Ok,
        w < v ==> bitmap_set(less->Ok_0).contains(x),
        w <= v ==> bitmap_set(at_most->Ok_0).contains(x),
        w >= v ==> bitmap_set(at_least->Ok_0).contains(x),
        w > v && !(ex.range_index@.contains_key((key, same.0@)) && ex.range_index@[(
            key,
            same.0@,
        )].contains(x)) ==> bitmap_set(greater->Ok_0).contains(x),
{
    let k = own.0@;
    assert(posting(ex.range_index@, (key, k)).contains(x));
    if times {
        timestamp_keys_compare(w, v);
    } else {
        int_keys_compare(w, v);
    }
}

proof fn lemma_list_parts(ix: Indexes, v: Seq<crate::types::query::QueryModel>, k: int, i: int)
    requires
        0 <= i < k <= v.len(),
    ensures
        evaluated_list(ix, v, k) is Ok ==> evaluated(ix, v[i]) is Ok && evaluated_list(
            ix,
            v,
            k,
        )->Ok_0.len() == k && evaluated_list(ix, v, k)->Ok_0[i] == evaluated(ix, v[i])->Ok_0,
    decreases k,
{
    lemma_list_length(ix, v, k - 1);
    if i < k - 1 {
        lemma_list_parts(ix, v, k - 1, i);
    }
}

proof fn lemma_list_length(ix: Indexes, v: Seq<crate::types::query::QueryModel>, k: int)
    requires
        0 <= k <= v.len(),
    ensures
        evaluated_list(ix, v, k) is Ok ==> evaluated_list(ix, v, k)->Ok_0.len() == k,
    decreases k,
{
    if k > 0 {
        lemma_list_length(ix, v, k - 1);
    }
}

proof fn lemma_list_ok(ix: Indexes, v: Seq<crate::types::query::QueryModel>, k: int)
    requires
        0 <= k <= v.len(),
        forall|i: int| 0 <= i < k ==> evaluated(ix, #[trigger] v[i]) is Ok,
    ensures
        evaluated_list(ix, v, k) is Ok,
    decreases k,
{
    if k > 0 {
        lemma_list_ok(ix, v, k - 1);
    }
}

proof fn lemma_list_first_fault(
    ix: Indexes,
    v: Seq<crate::types::query::QueryModel>,
    k: int,
    j: int,
)
    requires
        0 <= j < k <= v.len(),
        forall|i: int| 0 <= i < j ==> evaluated(ix, #[trigger] v[i]) is Ok,
        evaluated(ix, v[j]) is Err,
    ensures
        evaluated_list(ix, v, k) == Err::<Seq<Set<u32>>, QueryFault>(evaluated(ix, v[j])->Err_0),
    decreases k,
{
    if j < k - 1 {
        lemma_list_first_fault(ix, v, k - 1, j);
    } else {
        lemma_list_ok(ix, v, j);
    }
}

/// Each of the queries evaluates to the result in its place.
pub open spec fn each_gives(
    ex: QueryExecutor,
    qs: Seq<Query>,
    rs: Seq<Result<roaring::RoaringBitmap, QueryError>>,
) -> bool {
    &&& rs.len() == qs.len()
    &&& forall|i: int|
        0 <= i < qs.len() ==> call_ensures(
            QueryExecutor::evaluate,
            (&ex, &#[trigger] qs[i]),
            rs[i],
        )
}

proof fn lemma_each(
    ex: QueryExecutor,
    qs: Vec<Query>,
    rs: Seq<Result<roaring::RoaringBitmap, QueryError>>,
)
    requires
        ex.wf(),
        each_gives(ex, qs@, rs),
    ensures
        query_models(qs, qs@.len() as int).len() == qs@.len(),
        forall|i: int|
            0 <= i < qs@.len() ==> match evaluated(
                ex.indexes(),
                #[trigger] query_models(qs, qs@.len() as int)[i],
            ) {
                Ok(set) => rs[i] is Ok && bitmap_set(rs[i]->Ok_0) == set,
                Err(f) => rs[i] is Err && rs[i]->Err_0@ == f,
            },
{
    let n = qs@.len() as int;
    lemma_query_models(qs, n);
    assert forall|i: int| 0 <= i < n implies match evaluated(
        ex.indexes(),
        #[trigger] query_models(qs, n)[i],
    ) {
        Ok(set) => rs[i] is Ok && bitmap_set(rs[i]->Ok_0) == set,
        Err(f) => rs[i] is Err && rs[i]->Err_0@ == f,
    } by {
        assert(call_ensures(QueryExecutor::evaluate, (&ex, &qs@[i]), rs[i]));
    }
}

/// Queries joined by "and" mean what all of them mean, and nothing if there
/// are none; joined by "or" they mean what some of them means.
pub proof fn junctions_mean_all_or_some(
    ex: QueryExecutor,
    qs: Vec<Query>,
    rs: Seq<Result<roaring::RoaringBitmap, QueryError>>,
    all: Result<roaring::RoaringBitmap, QueryError>,
    some: Result<roaring::RoaringBitmap, QueryError>,
)
    requires
        ex.wf(),
        each_gives(ex, qs@, rs),
        forall|i: int| 0 <= i < rs.len() ==> (#[trigger] rs[i]) is Ok,
        call_ensures(QueryExecutor::evaluate, (&ex, &Query::And(qs)), all),
        call_ensures(QueryExecutor::evaluate, (&ex, &Query::Or(qs)), some),
    ensures
        all is Ok,
        some is Ok,
        forall|x: u32| #[trigger]
            bitmap_set(all->Ok_0).contains(x) <==> rs.len() > 0 && forall|i: int|
                0 <= i < rs.len() ==> bitmap_set((#[trigger] rs[i])->Ok_0).contains(x),
        forall|x: u32| #[trigger]
            bitmap_set(some->Ok_0).contains(x) <==> exists|i: int|
                0 <= i < rs.len() && bitmap_set((#[trigger] rs[i])->Ok_0).contains(x),
{
    let ix = ex.indexes();
    let n = qs@.len() as int;
    let v = query_models(qs, n);
    lemma_each(ex, qs, rs);
    assert forall|i: int| 0 <= i < n implies evaluated(ix, #[trigger] v[i]) is Ok by {
        assert(rs[i] is Ok);
    }
    lemma_list_ok(ix, v, n);
    lemma_list_length(ix, v, n);
    let sets = evaluated_list(ix, v, n)->Ok_0;
    assert forall|i: int| 0 <= i < n implies #[trigger] sets[i] == bitmap_set(rs[i]->Ok_0) by {
        lemma_list_parts(ix, v, n, i);
        assert(evaluated(ix, v[i]) is Ok);
    }
    assert forall|x: u32| #[trigger] bitmap_set(all->Ok_0).contains(x) <==> rs.len() > 0 && forall|
        i: int,
    |
        0 <= i < rs.len() ==> bitmap_set((#[trigger] rs[i])->Ok_0).contains(x) by {
        if n > 0 {
            assert(bitmap_set(all->Ok_0) == in_all(sets));
            if forall|i: int|
                0 <= i < rs.len() ==> bitmap_set((#[trigger] rs[i])->Ok_0).contains(x) {
                assert forall|i: int| 0 <= i < sets.len() implies (#[trigger] sets[i]).contains(
                    x,
                ) by {
                    assert(bitmap_set(rs[i]->Ok_0).contains(x));
                }
            }
            if in_all(sets).contains(x) {
                assert forall|i: int| 0 <= i < rs.len() implies bitmap_set(
                    (#[trigger] rs[i])->Ok_0,
                ).contains(x) by {
                    assert(sets[i].contains(x));
                }
            }
        }
    }
    assert forall|x: u32| #[trigger] bitmap_set(some->Ok_0).contains(x) <==> exists|i: int|
        0 <= i < rs.len() && bitmap_set((#[trigger] rs[i])->Ok_0).contains(x) by {
        assert(bitmap_set(some->Ok_0) == in_any(sets));
        if in_any(sets).contains(x) {
            let i = choose|i: int| 0 <= i < sets.len() && (#[trigger] sets[i]).contains(x);
            assert(bitmap_set(rs[i]->Ok_0).contains(x));
        }
        if exists|i: int| 0 <= i < rs.len() && bitmap_set((#[trigger] rs[i])->Ok_0).contains(x) {
            let i = choose|i: int|
                0 <= i < rs.len() && bitmap_set((#[trigger] rs[i])->Ok_0).contains(x);
            assert(sets[i].contains(x));
        }
    }
}

/// The fault of the first query that has one is that of the whole.
pub proof fn first_fault_is_that_of_the_junction(
    ex: QueryExecutor,
    qs: Vec<Query>,
    rs: Seq<Result<roaring::RoaringBitmap, QueryError>>,
    j: int,
    all: Result<roaring::RoaringBitmap, QueryError>,
    some: Result<roaring::RoaringBitmap, QueryError>,
)
    requires
        ex.wf(),
        each_gives(ex, qs@, rs),
        0 <= j < rs.len(),
        rs[j] is Err,
        forall|i: int| 0 <= i < j ==> (#[trigger] rs[i]) is Ok,
        call_ensures(QueryExecutor::evaluate, (&ex, &Query::And(qs)), all),
        call_ensures(QueryExecutor::evaluate, (&ex, &Query::Or(qs)), some),
    ensures
        all is Err,
        all->Err_0@ == rs[j]->Err_0@,
        some is Err,
        some->Err_0@ == rs[j]->Err_0@,
{
    let ix = ex.indexes();
    let n = qs@.len() as int;
    let v = query_models(qs, n);
    lemma_each(ex, qs, rs);
    assert forall|i: int| 0 <= i < j implies evaluated(ix, #[trigger] v[i]) is Ok by {
        assert(rs[i] is Ok);
    }
    assert(evaluated(ix, v[j]) is Err);
    lemma_list_first_fault(ix, v, n, j);
}

/// A negation means the objects that have some tag and that the query does not
/// mean.
pub proof fn negation_means_the_rest(
    ex: QueryExecutor,
    q: Query,
    tag: TagId,
    x: u32,
    inner: Result<roaring::RoaringBitmap, QueryError>,
    r: Result<roaring::RoaringBitmap, QueryError>,
    member: bool,
)
    requires
        ex.wf(),
        call_ensures(QueryExecutor::evaluate, (&ex, &q), inner),
        call_ensures(QueryExecutor::evaluate, (&ex, &Query::Not(Box::new(q))), r),
        call_ensures(
            TagIndex::contains,
            (ex.tag_index, tag, ObjectId { raw: x as u64 }),
            member,
        ),
    ensures
        inner is Ok <==> r is Ok,
        inner is Err ==> r->Err_0@ == inner->Err_0@,
        inner is Ok && bitmap_set(inner->Ok_0).contains(x) ==> !bitmap_set(r->Ok_0).contains(x),
        inner is Ok && member && !bitmap_set(inner->Ok_0).contains(x) ==> bitmap_set(
            r->Ok_0,
        ).contains(x),
        inner is Ok && bitmap_set(r->Ok_0).contains(x) ==> exists|t: TagId| #[trigger]
            ex.tag_index@.contains_key(t) && ex.tag_index@[t].members().contains(x),
{
}

/// An is-a query means the objects that have the tag itself, or a tag that
/// implies it, and no others.
pub proof fn is_a_query_means_the_instances(
    ex: QueryExecutor,
    tag: TagId,
    own: TagId,
    x: u32,
    r: Result<roaring::RoaringBitmap, QueryError>,
    member: bool,
    implies: bool,
)
    requires
        ex.wf(),
        call_ensures(QueryExecutor::evaluate, (&ex, &Query::IsA(tag)), r),
        call_ensures(
            TagIndex::contains,
            (ex.tag_index, own, ObjectId { raw: x as u64 }),
            member,
        ),
        call_ensures(ImplicationDag::is_a, (&ex.ontology.dag, own, tag), implies),
    ensures
        r is Ok,
        member && (own == tag || implies) ==> bitmap_set(r->Ok_0).contains(x),
        bitmap_set(r->Ok_0).contains(x) ==> exists|t: TagId| #[trigger]
            ex.tag_index@.contains_key(t) && ex.tag_index@[t].members().contains(x) && (t == tag
                || implied(ex.ontology.dag@, t, tag)),
{
    let d = ex.ontology.dag@;
    if member && (own == tag || implies) {
        crate::query::laws::is_a_includes(ex.indexes(), tag, own);
        assert(evaluated(ex.indexes(), crate::types::query::QueryModel::HasTag(own))->Ok_0.contains(
            x,
        ));
    }
    if bitmap_set(r->Ok_0).contains(x) {
        let t = choose|t: TagId| #[trigger]
            ex.tag_index@.contains_key(t) && closure_set(d, seq![t]).contains(tag)
                && ex.tag_index@[t].members().contains(x);
        let s = seq![t];
        if !s.contains(tag) {
            let u = choose|u: TagId| #[trigger] s.contains(u) && implied(d, u, tag);
            let i = choose|i: int| 0 <= i < s.len() && s[i] == u;
            assert(u == t);
        } else {
            let i = choose|i: int| 0 <= i < s.len() && s[i] == tag;
            assert(tag == t);
        }
        assert(ex.tag_index@.contains_key(t));
    }
}

/// The full evaluation lists the objects that the evaluation finds, each once,
/// in ascending order.
pub proof fn full_evaluation_lists_what_is_found(
    ex: QueryExecutor,
    q: Query,
    r: Result<roaring::RoaringBitmap, QueryError>,
    full: Result<Vec<ObjectId>, QueryError>,
)
    requires
        ex.wf(),
        call_ensures(QueryExecutor::evaluate, (&ex, &q), r),
        call_ensures(QueryExecutor::evaluate_full, (&ex, &q), full),
    ensures
        r is Ok <==> full is Ok,
        r is Err ==> full->Err_0@ == r->Err_0@,
        r is Ok ==> forall|i: int|
            0 <= i < full->Ok_0@.len() ==> (#[trigger] full->Ok_0@[i]).raw <= u32::MAX
                && bitmap_set(r->Ok_0).contains(full->Ok_0@[i].raw as u32),
        r is Ok ==> forall|x: u32| #[trigger]
            bitmap_set(r->Ok_0).contains(x) ==> full->Ok_0@.contains(ObjectId { raw: x as u64 }),
        r is Ok ==> forall|i: int, j: int|
            0 <= i < j < full->Ok_0@.len() ==> (#[trigger] full->Ok_0@[i]).raw < (
            #[trigger] full->Ok_0@[j]).raw,
{
    if r is Ok {
        let s = full->Ok_0@;
        assert forall|x: u32| #[trigger] bitmap_set(r->Ok_0).contains(x) implies s.contains(
            ObjectId { raw: x as u64 },
        ) by {
            let i = choose|i: int| 0 <= i < s.len() && (#[trigger] s[i]).raw == x;
            assert(s[i] == ObjectId { raw: x as u64 });
        }
    }
}

/// The facets of a query count, for a tag, the objects that both the query and
/// the tag query mean. Tags without such objects are not listed; the highest
/// counts come first, and what is left out counts no more than what is listed.
pub proof fn facets_count_common_objects(
    ex: &QueryExecutor,
    f: FacetedExplorer,
    q: Query,
    max: usize,
    tag: TagId,
    found: Result<roaring::RoaringBitmap, QueryError>,
    own: Result<roaring::RoaringBitmap, QueryError>,
    r: Result<Vec<FacetGroup>, QueryError>,
)
    requires
        ex.wf(),
        call_ensures(FacetedExplorer::new, (ex,), f),
        call_ensures(FacetedExplorer::explore, (&f, &q, max), r),
        call_ensures(QueryExecutor::evaluate, (ex, &q), found),
        call_ensures(QueryExecutor::evaluate, (ex, &Query::HasTag(tag)), own),
    ensures
        found is Ok <==> r is Ok,
        found is Err ==> r->Err_0@ == found->Err_0@,
        r is Ok ==> r->Ok_0@.len() <= max,
        r is Ok ==> forall|i: int|
            0 <= i < r->Ok_0@.len() && (#[trigger] r->Ok_0@[i]).tag == tag ==> r->Ok_0@[i].count
                > 0 && r->Ok_0@[i].count == bitmap_set(found->Ok_0).intersect(
                bitmap_set(own->Ok_0),
            ).len(),
        r is Ok ==> forall|i: int, j: int|
            0 <= i < j < r->Ok_0@.len() ==> (#[trigger] r->Ok_0@[i]).count > (
            #[trigger] r->Ok_0@[j]).count || r->Ok_0@[i].count == r->Ok_0@[j].count
                && r->Ok_0@[i].tag.id < r->Ok_0@[j].tag.id,
        r is Ok && 0 < bitmap_set(found->Ok_0).intersect(bitmap_set(own->Ok_0)).len()
            <= u64::MAX && (forall|i: int|
            0 <= i < r->Ok_0@.len() ==> (#[trigger] r->Ok_0@[i]).tag != tag) ==> {
            &&& r->Ok_0@.len() == max
            &&& forall|i: int|
                0 <= i < r->Ok_0@.len() ==> (#[trigger] r->Ok_0@[i]).count >= bitmap_set(
                    found->Ok_0,
                ).intersect(bitmap_set(own->Ok_0)).len()
        },
{
    if r is Ok {
        let m = ex.tag_index@;
        let sel = bitmap_set(found->Ok_0);
        let common = sel.intersect(bitmap_set(own->Ok_0));
        assert forall|i: int|
            0 <= i < r->Ok_0@.len() && (#[trigger] r->Ok_0@[i]).tag == tag implies r->Ok_0@[i].count
            > 0 && r->Ok_0@[i].count == common.len() by {
            assert(crate::query::facets::is_facet(m, sel, r->Ok_0@[i]));
        }
        assert forall|i: int, j: int| 0 <= i < j < r->Ok_0@.len() implies (
        #[trigger] r->Ok_0@[i]).count > (#[trigger] r->Ok_0@[j]).count || r->Ok_0@[i].count
            == r->Ok_0@[j].count && r->Ok_0@[i].tag.id < r->Ok_0@[j].tag.id by {
            assert(crate::index::faceted::listed_before(
                crate::query::facets::as_count(r->Ok_0@[i]),
                crate::query::facets::as_count(r->Ok_0@[j]),
            ));
        }
        if 0 < common.len() <= u64::MAX && (forall|i: int|
            0 <= i < r->Ok_0@.len() ==> (#[trigger] r->Ok_0@[i]).tag != tag) {
            let g = FacetGroup { tag, count: common.len() as u64 };
            assert(m.contains_key(tag)) by {
                if !m.contains_key(tag) {
                    assert(common =~= Set::<u32>::empty());
                }
            }
            assert(crate::query::facets::is_facet(m, sel, g));
            assert(!r->Ok_0@.contains(g)) by {
                if r->Ok_0@.contains(g) {
                    let i = r->Ok_0@.index_of(g);
                    assert(r->Ok_0@[i].tag != tag);
                }
            }
            assert forall|i: int| 0 <= i < r->Ok_0@.len() implies (#[trigger] r->Ok_0@[i]).count
                >= common.len() by {
                assert(crate::index::faceted::listed_before(
                    crate::query::facets::as_count(r->Ok_0@[i]),
                    crate::query::facets::as_count(g),
                ));
            }
        }
    }
}

} // verus!
