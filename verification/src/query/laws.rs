//! What holds of all queries.

use vstd::prelude::*;
use crate::ontology::implication_dag::{closure_set, implied};
use crate::query::executor::{evaluated, in_all, in_any, universe_of, evaluated_list, Indexes};
use crate::types::id::TagId;
use crate::types::query::{CmpOp, QueryModel};
use crate::types::value::ValueModel;

verus! {

/// The objects that have a tag are instances of it, and so are those that
/// have a tag which implies it.
pub proof fn is_a_includes(ix: Indexes, tag: TagId, own: TagId)
    requires
        own == tag || implied(ix.dag, own, tag),
    ensures
        evaluated(ix, QueryModel::HasTag(own))->Ok_0.subset_of(
            evaluated(ix, QueryModel::IsA(tag))->Ok_0,
        ),
{
    let a = evaluated(ix, QueryModel::HasTag(own))->Ok_0;
    let b = evaluated(ix, QueryModel::IsA(tag))->Ok_0;
    assert forall|x: u32| #[trigger] a.contains(x) implies b.contains(x) by {
        assert(ix.tags.contains_key(own));
        assert(seq![own].contains(own)) by {
            assert(seq![own][0] == own);
        }
        assert(closure_set(ix.dag, seq![own]).contains(tag));
    }
}

/// A query and its negation share no object, and together they mean all
/// objects that have a tag.
pub proof fn negation_is_complement(ix: Indexes, q: QueryModel)
    requires
        evaluated(ix, q) is Ok,
    ensures
        evaluated(ix, QueryModel::Not(Box::new(q))) is Ok,
        evaluated(ix, QueryModel::Not(Box::new(q)))->Ok_0.disjoint(evaluated(ix, q)->Ok_0),
        universe_of(ix.tags).subset_of(
            evaluated(ix, QueryModel::Not(Box::new(q)))->Ok_0.union(evaluated(ix, q)->Ok_0),
        ),
        evaluated(ix, QueryModel::Not(Box::new(q)))->Ok_0.subset_of(universe_of(ix.tags)),
{
}

/// Objects that have a value are not among those that have another.
pub proof fn equal_and_unequal_are_disjoint(ix: Indexes, key: TagId, v: ValueModel)
    ensures
        evaluated(ix, QueryModel::HasAttr(key, CmpOp::Eq, v)) is Ok,
        evaluated(ix, QueryModel::HasAttr(key, CmpOp::Ne, v)) is Ok,
        evaluated(ix, QueryModel::HasAttr(key, CmpOp::Eq, v))->Ok_0.disjoint(
            evaluated(ix, QueryModel::HasAttr(key, CmpOp::Ne, v))->Ok_0,
        ),
{
}

/// Two queries joined by "and" mean what both mean, joined by "or" what one
/// of them means.
pub proof fn and_or_of_two(ix: Indexes, p: QueryModel, q: QueryModel)
    requires
        evaluated(ix, p) is Ok,
        evaluated(ix, q) is Ok,
    ensures
        evaluated(ix, QueryModel::And(seq![p, q])) == Ok::<
            Set<u32>,
            crate::query::error::QueryFault,
        >(evaluated(ix, p)->Ok_0.intersect(evaluated(ix, q)->Ok_0)),
        evaluated(ix, QueryModel::Or(seq![p, q])) == Ok::<
            Set<u32>,
            crate::query::error::QueryFault,
        >(evaluated(ix, p)->Ok_0.union(evaluated(ix, q)->Ok_0)),
{
    let v = seq![p, q];
    let a = evaluated(ix, p)->Ok_0;
    let b = evaluated(ix, q)->Ok_0;
    assert(v[0] == p && v[1] == q);
    assert(evaluated_list(ix, v, 0) == Ok::<Seq<Set<u32>>, crate::query::error::QueryFault>(
        Seq::empty(),
    ));
    assert(evaluated_list(ix, v, 1) == Ok::<Seq<Set<u32>>, crate::query::error::QueryFault>(
        Seq::empty().push(a),
    ));
    let sets = Seq::empty().push(a).push(b);
    assert(evaluated_list(ix, v, 2) == Ok::<Seq<Set<u32>>, crate::query::error::QueryFault>(sets));
    assert(sets[0] == a && sets[1] == b);
    assert(in_all(sets) =~= a.intersect(b));
    assert(in_any(sets) =~= a.union(b)) by {
        assert forall|x: u32| in_any(sets).contains(x) == a.union(b).contains(x) by {
            if a.contains(x) {
                assert(sets[0].contains(x));
            }
            if b.contains(x) {
                assert(sets[1].contains(x));
            }
        }
    }
}

} // verus!
