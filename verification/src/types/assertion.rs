//! What can be said of an object.

use vstd::prelude::*;
use crate::types::id::{ObjectId, TagId};
use crate::types::value::{value_eq, Value, ValueModel};

verus! {

/// One statement about an object.
#[derive(Clone, Debug, PartialEq)]
pub enum Assertion {
    /// The object carries the tag.
    Tag(TagId),
    /// The object's attribute `key` has the value `value`.
    Attr { key: TagId, value: Value },
    /// The object is related to `target` by `predicate`.
    Relation { predicate: TagId, target: ObjectId },
}

/// The mathematical content of an [`Assertion`].
pub ghost enum AssertionModel {
    Tag(TagId),
    Attr(TagId, ValueModel),
    Relation(TagId, ObjectId),
}

impl View for Assertion {
    type V = AssertionModel;

    open spec fn view(&self) -> AssertionModel {
        match self {
            Assertion::Tag(t) => AssertionModel::Tag(*t),
            Assertion::Attr { key, value } => AssertionModel::Attr(*key, value@),
            Assertion::Relation { predicate, target } => AssertionModel::Relation(
                *predicate,
                *target,
            ),
        }
    }
}

/// Equality of two assertions.
pub open spec fn assertion_eq(a: AssertionModel, b: AssertionModel) -> bool {
    match (a, b) {
        (AssertionModel::Tag(x), AssertionModel::Tag(y)) => x == y,
        (AssertionModel::Attr(k, x), AssertionModel::Attr(l, y)) => k == l && value_eq(x, y),
        (AssertionModel::Relation(p, x), AssertionModel::Relation(q, y)) => p == q && x == y,
        _ => false,
    }
}

impl Assertion {
    /// Whether two assertions are equal.
    pub fn same_assertion(&self, other: &Assertion) -> (r: bool)
        ensures
            r == assertion_eq(self@, other@),
    {
        match (self, other) {
            (Assertion::Tag(x), Assertion::Tag(y)) => *x == *y,
            (
                Assertion::Attr { key: k, value: x },
                Assertion::Attr { key: l, value: y },
            ) => *k == *l && x.same_value(y),
            (
                Assertion::Relation { predicate: p, target: x },
                Assertion::Relation { predicate: q, target: y },
            ) => *p == *q && *x == *y,
            _ => false,
        }
    }

    /// A copy of the assertion.
    pub fn duplicate(&self) -> (r: Assertion)
        ensures
            r@ == self@,
    {
        match self {
            Assertion::Tag(t) => Assertion::Tag(*t),
            Assertion::Attr { key, value } => Assertion::Attr {
                key: *key,
                value: value.duplicate(),
            },
            Assertion::Relation { predicate, target } => Assertion::Relation {
                predicate: *predicate,
                target: *target,
            },
        }
    }
}

/// Whether a tag was put on an object, or follows from another of its tags.
#[derive(Clone, Copy, Debug, PartialEq, Eq, Structural)]
pub enum TagOrigin {
    Direct,
    Materialized,
}

} // verus!
