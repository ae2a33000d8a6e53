//! Queries over the indexed objects.

use vstd::prelude::*;
use crate::types::id::{ObjectId, TagId};
use crate::types::value::{value_model, Value, ValueModel};

verus! {

/// How an attribute is compared with a value.
#[derive(Clone, Copy, Debug, PartialEq, Eq, Structural)]
pub enum CmpOp {
    Eq,
    Ne,
    Lt,
    Le,
    Gt,
    Ge,
    Prefix,
    Contains,
}

/// A query: which objects are meant.
#[derive(Debug, PartialEq)]
pub enum Query {
    /// Objects that carry the tag.
    HasTag(TagId),
    /// Objects whose attribute `key` compares with `value` as `op` says.
    HasAttr { key: TagId, op: CmpOp, value: Value },
    /// Objects related to `target` by `predicate`.
    Related { predicate: TagId, target: ObjectId },
    /// Objects that every part means.
    And(Vec<Query>),
    /// Objects that some part means.
    Or(Vec<Query>),
    /// Objects that the part does not mean.
    Not(Box<Query>),
    /// Objects that carry the tag or one that implies it.
    IsA(TagId),
}

/// The mathematical content of a [`Query`].
pub ghost enum QueryModel {
    HasTag(TagId),
    HasAttr(TagId, CmpOp, ValueModel),
    Related(TagId, ObjectId),
    And(Seq<QueryModel>),
    Or(Seq<QueryModel>),
    Not(Box<QueryModel>),
    IsA(TagId),
}

/// The content of a query.
pub open spec fn query_model(q: Query) -> QueryModel
    decreases q, 0int,
{
    match q {
        Query::HasTag(t) => QueryModel::HasTag(t),
        Query::HasAttr { key, op, value } => QueryModel::HasAttr(key, op, value_model(value)),
        Query::Related { predicate, target } => QueryModel::Related(predicate, target),
        Query::And(v) => QueryModel::And(query_models(v, v@.len() as int)),
        Query::Or(v) => QueryModel::Or(query_models(v, v@.len() as int)),
        Query::Not(inner) => QueryModel::Not(Box::new(query_model(*inner))),
        Query::IsA(t) => QueryModel::IsA(t),
    }
}

/// The contents of the first `k` queries.
pub open spec fn query_models(v: Vec<Query>, k: int) -> Seq<QueryModel>
    decreases v, k,
{
    if k <= 0 || k > v@.len() {
        Seq::empty()
    } else {
        query_models(v, k - 1).push(query_model(v@[k - 1]))
    }
}

impl View for Query {
    type V = QueryModel;

    open spec fn view(&self) -> QueryModel {
        query_model(*self)
    }
}

/// The contents of the first queries, one by one.
pub proof fn lemma_query_models(v: Vec<Query>, k: int)
    requires
        0 <= k <= v@.len(),
    ensures
        query_models(v, k).len() == k,
        forall|i: int| 0 <= i < k ==> #[trigger] query_models(v, k)[i] == query_model(v@[i]),
    decreases k,
{
    if k > 0 {
        lemma_query_models(v, k - 1);
    }
}

impl Query {
    /// A copy of the query.
    pub fn duplicate(&self) -> (r: Query)
        ensures
            r@ == self@,
        decreases self, 0int,
    {
        match self {
            Query::HasTag(t) => Query::HasTag(*t),
            Query::HasAttr { key, op, value } => Query::HasAttr {
                key: *key,
                op: *op,
                value: value.duplicate(),
            },
            Query::Related { predicate, target } => Query::Related {
                predicate: *predicate,
                target: *target,
            },
            Query::And(v) => Query::And(duplicate_all(v)),
            Query::Or(v) => Query::Or(duplicate_all(v)),
            Query::Not(q) => Query::Not(Box::new(q.duplicate())),
            Query::IsA(t) => Query::IsA(*t),
        }
    }
}

fn duplicate_all(v: &Vec<Query>) -> (r: Vec<Query>)
    ensures
        query_models(r, r@.len() as int) == query_models(*v, v@.len() as int),
    decreases v, 1int,
{
    let mut out: Vec<Query> = Vec::new();
    let mut i: usize = 0;
    while i < v.len()
        invariant
            i <= v@.len(),
            out@.len() == i,
            forall|j: int| 0 <= j < i ==> query_model(#[trigger] out@[j]) == query_model(v@[j]),
        decreases v@.len() - i,
    {
        let q = v[i].duplicate();
        out.push(q);
        i = i + 1;
    }
    proof {
        lemma_query_models(out, out@.len() as int);
        lemma_query_models(*v, v@.len() as int);
        assert(query_models(out, out@.len() as int) =~= query_models(*v, v@.len() as int));
    }
    out
}

impl Clone for Query {
    fn clone(&self) -> (r: Self)
        ensures
            r@ == self@,
    {
        self.duplicate()
    }
}

} // verus!
