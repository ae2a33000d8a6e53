//! Errors of queries.

use vstd::prelude::*;

verus! {

/// What can go wrong with a query.
#[derive(Clone, Debug, PartialEq, Eq)]
#[allow(inconsistent_fields)]
pub enum QueryError {
    /// No index can answer the comparison.
    UnsupportedCmpOp { op: &'static str },
    /// The object's number within its node does not fit a bitmap.
    ObjectIdTooLarge { local: u64 },
    /// The text cannot be read; `position` is the byte offset in it.
    Parse { position: usize, message: String },
    /// No tag has the name.
    UnknownTag { name: String },
    /// No operator has the name.
    UnknownOp { op: String },
}

/// The mathematical content of a [`QueryError`].
pub ghost enum QueryFault {
    UnsupportedCmpOp(Seq<char>),
    ObjectIdTooLarge(u64),
    Parse(nat, Seq<char>),
    UnknownTag(Seq<char>),
    UnknownOp(Seq<char>),
}

impl View for QueryError {
    type V = QueryFault;

    open spec fn view(&self) -> QueryFault {
        match self {
            QueryError::UnsupportedCmpOp { op } => QueryFault::UnsupportedCmpOp(op@),
            QueryError::ObjectIdTooLarge { local } => QueryFault::ObjectIdTooLarge(*local),
            QueryError::Parse { position, message } => QueryFault::Parse(
                *position as nat,
                message@,
            ),
            QueryError::UnknownTag { name } => QueryFault::UnknownTag(name@),
            QueryError::UnknownOp { op } => QueryFault::UnknownOp(op@),
        }
    }
}

} // verus!
