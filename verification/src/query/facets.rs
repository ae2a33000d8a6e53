//! Facets of the objects that a query means.

use vstd::prelude::*;
use crate::index::faceted::{facet_size, listed_before, FacetCount};
use crate::query::error::QueryError;
use crate::query::executor::{evaluated, QueryExecutor};
use crate::types::id::TagId;
use crate::types::query::Query;

verus! {

/// How many of the objects have the tag.
#[derive(Clone, Copy, Debug, PartialEq, Eq, Structural)]
pub struct FacetGroup {
    pub tag: TagId,
    pub count: u64,
}

/// The facet as a count.
pub open spec fn as_count(g: FacetGroup) -> FacetCount {
    FacetCount { tag: g.tag, count: g.count }
}

/// The tag has this many objects of the selection, and at least one.
pub open spec fn is_facet(
    m: Map<TagId, crate::index::tag_store::StoreModel>,
    selection: Set<u32>,
    g: FacetGroup,
) -> bool {
    m.contains_key(g.tag) && g.count > 0 && g.count == facet_size(m, selection, g.tag)
}

/// `groups` are the first facets of a selection, at most `max`: the highest
/// count first, then the lowest tag.
pub open spec fn first_facets(
    m: Map<TagId, crate::index::tag_store::StoreModel>,
    selection: Set<u32>,
    max: usize,
    groups: Seq<FacetGroup>,
) -> bool {
    &&& groups.len() <= max
    &&& forall|i: int|
        0 <= i < groups.len() ==> is_facet(m, selection, #[trigger] groups[i])
    &&& forall|i: int, j: int|
        0 <= i < j < groups.len() ==> listed_before(
            as_count(#[trigger] groups[i]),
            as_count(#[trigger] groups[j]),
        )
    &&& forall|g: FacetGroup| #[trigger]
        is_facet(m, selection, g) && !groups.contains(g) ==> groups.len() == max && forall|i: int|
            0 <= i < groups.len() ==> listed_before(as_count(#[trigger] groups[i]), as_count(g))
}

/// Facets, driven by queries.
pub struct FacetedExplorer<'a> {
    executor: &'a QueryExecutor<'a>,
}

impl<'a> FacetedExplorer<'a> {
    /// The evaluator that is used.
    pub closed spec fn uses(&self) -> QueryExecutor<'a> {
        *self.executor
    }

    /// An explorer that evaluates queries with `executor`.
    pub fn new(executor: &'a QueryExecutor<'a>) -> (r: Self)
        ensures
            r.uses() == *executor,
    {
        FacetedExplorer { executor }
    }

    /// The first facets of the objects that a query means, at most `max_facets`.
    pub fn explore(&self, base: &Query, max_facets: usize) -> (r: Result<
        Vec<FacetGroup>,
        QueryError,
    >)
        requires
            self.uses().wf(),
        ensures
            match evaluated(self.uses().indexes(), base@) {
                Ok(selection) => r is Ok && first_facets(
                    self.uses().indexes().tags,
                    selection,
                    max_facets,
                    r->Ok_0@,
                ),
                Err(f) => r is Err && r->Err_0@ == f,
            },
    {
        let selection = match self.executor.evaluate(base) {
            Ok(b) => b,
            Err(e) => {
                return Err(e);
            },
        };
        let rows = crate::index::faceted::FacetedExplorer::facets_for(
            self.executor.tag_index,
            &selection,
        );
        let ghost m = self.uses().indexes().tags;
        let ghost sel = crate::index::bitmap::bitmap_set(selection);
        let mut out: Vec<FacetGroup> = Vec::new();
        let mut i: usize = 0;
        while i < rows.len() && i < max_facets
            invariant
                i <= rows@.len(),
                i <= max_facets,
                out@.len() == i,
                forall|j: int| 0 <= j < i ==> as_count(#[trigger] out@[j]) == rows@[j],
            decreases rows@.len() - i,
        {
            out.push(FacetGroup { tag: rows[i].tag, count: rows[i].count });
            i = i + 1;
        }
        proof {
            assert forall|j: int| 0 <= j < out@.len() implies is_facet(
                m,
                sel,
                #[trigger] out@[j],
            ) by {
                assert(rows@.contains(rows@[j]));
            }
            assert forall|a: int, b: int| 0 <= a < b < out@.len() implies listed_before(
                as_count(#[trigger] out@[a]),
                as_count(#[trigger] out@[b]),
            ) by {
                assert(listed_before(rows@[a], rows@[b]));
            }
            assert forall|g: FacetGroup| #[trigger] is_facet(m, sel, g) && !out@.contains(
                g,
            ) implies out@.len() == max_facets && forall|a: int|
                0 <= a < out@.len() ==> listed_before(as_count(#[trigger] out@[a]), as_count(g)) by {
                let f = as_count(g);
                assert(rows@.contains(f));
                let k = choose|k: int| 0 <= k < rows@.len() && rows@[k] == f;
                if k < i {
                    assert(as_count(out@[k]) == f);
                    assert(out@[k] == g);
                    assert(out@.contains(g));
                }
                assert forall|a: int| 0 <= a < out@.len() implies listed_before(
                    as_count(#[trigger] out@[a]),
                    as_count(g),
                ) by {
                    assert(listed_before(rows@[a], rows@[k]));
                }
            }
        }
        Ok(out)
    }
}

} // verus!
