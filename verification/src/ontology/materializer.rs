//! Materialised tag sets.

use vstd::prelude::*;
use crate::ontology::implication_dag::{closure_set, implied, tags_ascend, ImplicationDag};
use crate::types::id::TagId;

verus! {

/// Computes materialised tag sets and answers `is_a` questions on an
/// implication graph. It touches no index.
pub struct Materializer<'a> {
    pub dag: &'a ImplicationDag,
}

impl<'a> Materializer<'a> {
    pub fn new(dag: &'a ImplicationDag) -> (r: Self)
        ensures
            r.dag == dag,
    {
        Materializer { dag }
    }

    /// The direct tags and every tag that these lead to, in ascending order.
    pub fn materialise(&self, direct: &Vec<TagId>) -> (r: Vec<TagId>)
        requires
            self.dag.wf(),
        ensures
            tags_ascend(r@),
            r@.to_set() == closure_set(self.dag@, direct@),
    {
        self.dag.closure(direct)
    }

    /// Whether `tag` directly or transitively implies `ancestor`.
    pub fn is_a(&self, tag: TagId, ancestor: TagId) -> (r: bool)
        requires
            self.dag.wf(),
        ensures
            r == implied(self.dag@, tag, ancestor),
    {
        self.dag.is_a(tag, ancestor)
    }
}

} // verus!
