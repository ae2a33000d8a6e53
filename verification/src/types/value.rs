//! Attribute values.

use vstd::prelude::*;
use crate::bytes::{copy_range, same_bytes};
use crate::types::id::TagId;

verus! {

/// What an attribute can hold. A floating-point number is held as its
/// IEEE-754 binary64 bit pattern.
#[derive(Debug)]
pub enum Value {
    Text(String),
    Int(i64),
    Float(u64),
    Timestamp(i64),
    Blob(Vec<u8>),
    /// `inner`, meant in the sense of the tag `context`.
    Scoped { context: TagId, inner: Box<Value> },
}

/// The mathematical content of a [`Value`].
pub ghost enum ValueModel {
    Text(Seq<char>),
    Int(int),
    Float(u64),
    Timestamp(int),
    Blob(Seq<u8>),
    Scoped(TagId, Box<ValueModel>),
}

/// The bit pattern is that of a NaN: all exponent bits set, fraction not zero.
pub open spec fn float_is_nan(bits: u64) -> bool {
    bits as int % 0x8000_0000_0000_0000 > 0x7FF0_0000_0000_0000
}

/// The bit pattern is that of a zero of either sign.
pub open spec fn float_is_zero(bits: u64) -> bool {
    bits as int % 0x8000_0000_0000_0000 == 0
}

/// Equality of two floating-point numbers: a NaN equals nothing, and the two
/// zeros are equal.
pub open spec fn float_eq(a: u64, b: u64) -> bool {
    !float_is_nan(a) && !float_is_nan(b) && (a == b || (float_is_zero(a) && float_is_zero(b)))
}

/// Equality of two values.
pub open spec fn value_eq(a: ValueModel, b: ValueModel) -> bool
    decreases a,
{
    match (a, b) {
        (ValueModel::Text(x), ValueModel::Text(y)) => x == y,
        (ValueModel::Int(x), ValueModel::Int(y)) => x == y,
        (ValueModel::Float(x), ValueModel::Float(y)) => float_eq(x, y),
        (ValueModel::Timestamp(x), ValueModel::Timestamp(y)) => x == y,
        (ValueModel::Blob(x), ValueModel::Blob(y)) => x == y,
        (ValueModel::Scoped(c, x), ValueModel::Scoped(d, y)) => c == d && value_eq(*x, *y),
        _ => false,
    }
}

/// The content of `v`.
pub open spec fn value_model(v: Value) -> ValueModel
    decreases v,
{
    match v {
        Value::Text(s) => ValueModel::Text(s@),
        Value::Int(i) => ValueModel::Int(i as int),
        Value::Float(f) => ValueModel::Float(f),
        Value::Timestamp(t) => ValueModel::Timestamp(t as int),
        Value::Blob(b) => ValueModel::Blob(b@),
        Value::Scoped { context, inner } => ValueModel::Scoped(
            context,
            Box::new(value_model(*inner)),
        ),
    }
}

impl View for Value {
    type V = ValueModel;

    open spec fn view(&self) -> ValueModel {
        value_model(*self)
    }
}

impl Value {
    /// Whether two values are equal.
    pub fn same_value(&self, other: &Value) -> (r: bool)
        ensures
            r == value_eq(self@, other@),
        decreases self,
    {
        match (self, other) {
            (Value::Text(x), Value::Text(y)) => x.eq(y),
            (Value::Int(x), Value::Int(y)) => *x == *y,
            (Value::Float(x), Value::Float(y)) => same_float(*x, *y),
            (Value::Timestamp(x), Value::Timestamp(y)) => *x == *y,
            (Value::Blob(x), Value::Blob(y)) => same_bytes(x.as_slice(), y.as_slice()),
            (
                Value::Scoped { context: c, inner: x },
                Value::Scoped { context: d, inner: y },
            ) => *c == *d && x.same_value(y),
            _ => false,
        }
    }

    /// A copy of the value.
    pub fn duplicate(&self) -> (r: Value)
        ensures
            r@ == self@,
        decreases self,
    {
        match self {
            Value::Text(s) => Value::Text(s.clone()),
            Value::Int(i) => Value::Int(*i),
            Value::Float(f) => Value::Float(*f),
            Value::Timestamp(t) => Value::Timestamp(*t),
            Value::Blob(b) => {
                let c = copy_range(b.as_slice(), 0, b.len());
                proof {
                    assert(c@ =~= b@);
                }
                Value::Blob(c)
            },
            Value::Scoped { context, inner } => Value::Scoped {
                context: *context,
                inner: Box::new(inner.duplicate()),
            },
        }
    }

    /// `inner` in the sense of `context`. A value that is already scoped
    /// cannot be scoped again.
    pub fn scoped(context: TagId, inner: Value) -> (r: Result<Value, Value>)
        ensures
            match r {
                Ok(v) => !(inner is Scoped) && v@ == ValueModel::Scoped(context, Box::new(inner@)),
                Err(v) => inner is Scoped && v == inner,
            },
    {
        match inner {
            Value::Scoped { context: c, inner: i } => Err(Value::Scoped { context: c, inner: i }),
            other => Ok(Value::Scoped { context, inner: Box::new(other) }),
        }
    }
}

fn same_float(a: u64, b: u64) -> (r: bool)
    ensures
        r == float_eq(a, b),
{
    let half: u64 = 0x8000_0000_0000_0000;
    let inf: u64 = 0x7FF0_0000_0000_0000;
    a % half <= inf && b % half <= inf && (a == b || (a % half == 0 && b % half == 0))
}

impl Clone for Value {
    fn clone(&self) -> (r: Self)
        ensures
            r@ == self@,
    {
        self.duplicate()
    }
}

impl PartialEq for Value {
    fn eq(&self, other: &Self) -> (r: bool) {
        self.same_value(other)
    }
}

impl vstd::std_specs::cmp::PartialEqSpecImpl for Value {
    open spec fn obeys_eq_spec() -> bool {
        true
    }

    open spec fn eq_spec(&self, other: &Self) -> bool {
        value_eq(self@, other@)
    }
}

} // verus!
