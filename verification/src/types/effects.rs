//! What the operations on ids, values and assertions give, in terms of their
//! arguments.

use vstd::prelude::*;
use crate::types::assertion::Assertion;
use crate::types::id::{NodeId, ObjectId, TagId};
use crate::types::query::Query;
use crate::types::tag::TagDefinition;
use crate::types::value::Value;

verus! {

/// An object id gives back the node that it was made from, and the number as
/// far as 48 bits hold it.
pub proof fn object_id_keeps_its_parts(
    node: NodeId,
    local: u64,
    id: ObjectId,
    n: NodeId,
    l: u64,
)
    requires
        call_ensures(ObjectId::from_parts, (node, local), id),
        call_ensures(ObjectId::node_id, (&id,), n),
        call_ensures(ObjectId::local_seq, (&id,), l),
    ensures
        n == node,
        l == local as int % 0x1_0000_0000_0000,
        id.raw as int == node * 0x1_0000_0000_0000 + l,
{
}

/// Two values are the same where they are of one kind and say the same: texts
/// with the same characters, equal numbers, equal bytes; scoped values with
/// the same context and the same value within.
pub proof fn same_values_say_the_same(a: Value, b: Value, r: bool)
    requires
        call_ensures(Value::same_value, (&a, &b), r),
    ensures
        match (a, b) {
            (Value::Text(x), Value::Text(y)) => r == (x@ == y@),
            (Value::Int(x), Value::Int(y)) => r == (x == y),
            (Value::Timestamp(x), Value::Timestamp(y)) => r == (x == y),
            (Value::Blob(x), Value::Blob(y)) => r == (x@ == y@),
            (Value::Float(x), Value::Float(y)) => {
                let half = 0x8000_0000_0000_0000int;
                let infinity = 0x7FF0_0000_0000_0000int;
                &&& x as int % half > infinity || y as int % half > infinity ==> !r
                &&& x as int % half <= infinity && y as int % half <= infinity ==> r == (x == y || (
                x as int % half == 0 && y as int % half == 0))
            },
            (Value::Scoped { .. }, Value::Scoped { .. }) => true,
            _ => !r,
        },
{
}

/// Scoped values are the same where context and inner value are.
pub proof fn same_scoped_values_have_one_context(
    c: TagId,
    d: TagId,
    a: Value,
    b: Value,
    inner: bool,
    r: bool,
)
    requires
        call_ensures(Value::same_value, (&a, &b), inner),
        call_ensures(
            Value::same_value,
            (
                &Value::Scoped { context: c, inner: Box::new(a) },
                &Value::Scoped { context: d, inner: Box::new(b) },
            ),
            r,
        ),
    ensures
        r == (c == d && inner),
{
}

/// Two assertions are the same where they are of one kind and say the same.
pub proof fn same_assertions_say_the_same(a: Assertion, b: Assertion, r: bool)
    requires
        call_ensures(Assertion::same_assertion, (&a, &b), r),
    ensures
        match (a, b) {
            (Assertion::Tag(x), Assertion::Tag(y)) => r == (x.id == y.id),
            (
                Assertion::Relation { predicate: p, target: x },
                Assertion::Relation { predicate: q, target: y },
            ) => r == (p.id == q.id && x.raw == y.raw),
            (Assertion::Attr { .. }, Assertion::Attr { .. }) => true,
            _ => !r,
        },
{
}

/// Assertions of attributes are the same where key and value are.
pub proof fn same_attributes_have_one_key(
    k: TagId,
    l: TagId,
    a: Value,
    b: Value,
    inner: bool,
    r: bool,
)
    requires
        call_ensures(Value::same_value, (&a, &b), inner),
        call_ensures(
            Assertion::same_assertion,
            (&Assertion::Attr { key: k, value: a }, &Assertion::Attr { key: l, value: b }),
            r,
        ),
    ensures
        r == (k.id == l.id && inner),
{
}

/// The content of a value tells all that the value says.
pub proof fn content_of_values(a: Value, b: Value)
    requires
        a@ == b@,
    ensures
        match (a, b) {
            (Value::Text(x), Value::Text(y)) => x@ == y@,
            (Value::Int(x), Value::Int(y)) => x == y,
            (Value::Float(x), Value::Float(y)) => x == y,
            (Value::Timestamp(x), Value::Timestamp(y)) => x == y,
            (Value::Blob(x), Value::Blob(y)) => x@ == y@,
            (
                Value::Scoped { context: c, inner: x },
                Value::Scoped { context: d, inner: y },
            ) => c == d && x@ == y@,
            _ => false,
        },
{
}

/// The content of an assertion tells all that the assertion says.
pub proof fn content_of_assertions(a: Assertion, b: Assertion)
    requires
        a@ == b@,
    ensures
        match (a, b) {
            (Assertion::Tag(x), Assertion::Tag(y)) => x == y,
            (
                Assertion::Attr { key: k, value: x },
                Assertion::Attr { key: l, value: y },
            ) => k == l && x@ == y@,
            (
                Assertion::Relation { predicate: p, target: x },
                Assertion::Relation { predicate: q, target: y },
            ) => p == q && x == y,
            _ => false,
        },
{
}

/// The content of a query tells all that the query says.
pub proof fn content_of_queries(a: Query, b: Query)
    requires
        a@ == b@,
    ensures
        match (a, b) {
            (Query::HasTag(x), Query::HasTag(y)) => x == y,
            (Query::IsA(x), Query::IsA(y)) => x == y,
            (
                Query::HasAttr { key: k, op: o, value: v },
                Query::HasAttr { key: l, op: p, value: w },
            ) => k == l && o == p && v@ == w@,
            (
                Query::Related { predicate: p, target: x },
                Query::Related { predicate: q, target: y },
            ) => p == q && x == y,
            (Query::Not(x), Query::Not(y)) => x@ == y@,
            (Query::And(v), Query::And(w)) => v@.len() == w@.len() && forall|i: int|
                0 <= i < v@.len() ==> (#[trigger] v@[i])@ == w@[i]@,
            (Query::Or(v), Query::Or(w)) => v@.len() == w@.len() && forall|i: int|
                0 <= i < v@.len() ==> (#[trigger] v@[i])@ == w@[i]@,
            _ => false,
        },
{
    match (a, b) {
        (Query::And(v), Query::And(w)) => {
            lemma_same_lists(v, w);
        },
        (Query::Or(v), Query::Or(w)) => {
            lemma_same_lists(v, w);
        },
        _ => {},
    }
}

proof fn lemma_same_lists(v: Vec<Query>, w: Vec<Query>)
    requires
        crate::types::query::query_models(v, v@.len() as int) == crate::types::query::query_models(
            w,
            w@.len() as int,
        ),
    ensures
        v@.len() == w@.len(),
        forall|i: int| 0 <= i < v@.len() ==> (#[trigger] v@[i])@ == w@[i]@,
{
    let n = v@.len() as int;
    crate::types::query::lemma_query_models(v, n);
    crate::types::query::lemma_query_models(w, w@.len() as int);
    assert forall|i: int| 0 <= i < n implies (#[trigger] v@[i])@ == w@[i]@ by {
        assert(crate::types::query::query_models(v, n)[i] == v@[i]@);
        assert(crate::types::query::query_models(w, n)[i] == w@[i]@);
    }
}

/// The content of a definition tells all that the definition says.
pub proof fn content_of_definitions(a: TagDefinition, b: TagDefinition)
    requires
        a@ == b@,
    ensures
        a.id == b.id,
        a.name@ == b.name@,
        a.semantics == b.semantics,
        a.implies@ == b.implies@,
        a.storage == b.storage,
{
}

} // verus!
