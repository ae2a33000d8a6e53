//! Resolving the storage policy of an object from its tags.

use vstd::prelude::*;
use crate::ontology::error::StorageAxis;
use crate::ontology::graph::{is_walk, on_cycle};
use crate::ontology::implication_dag::{closure_set, implied, tags_ascend, DagModel};
use crate::ontology::materializer::Materializer;
use crate::ontology::path::{acyclic, lemma_reach_join, lemma_walk_join};
use crate::ontology::state::{axis_clear, conflict, declares, declares_axis, OntologyModel,
    OntologyState};
use crate::types::id::TagId;
use crate::types::policy::StoragePolicy;

verus! {

/// `t` is a most derived tag for the axis: among the candidates it declares
/// the axis, and no other that does implies it.
pub open spec fn most_derived(
    m: OntologyModel,
    axis: StorageAxis,
    candidates: Set<TagId>,
    t: TagId,
) -> bool {
    &&& candidates.contains(t)
    &&& declares(m, axis, t)
    &&& forall|u: TagId| #[trigger]
        candidates.contains(u) && declares(m, axis, u) && u != t ==> !implied(m.dag, u, t)
}

/// `t` is the most derived tag with the smallest id.
pub open spec fn leads(
    m: OntologyModel,
    axis: StorageAxis,
    candidates: Set<TagId>,
    t: TagId,
) -> bool {
    &&& most_derived(m, axis, candidates, t)
    &&& forall|u: TagId| #[trigger] most_derived(m, axis, candidates, u) ==> t.id <= u.id
}

/// The tag that decides the axis, if any candidate declares it.
pub open spec fn winner(m: OntologyModel, axis: StorageAxis, candidates: Set<TagId>) -> Option<
    TagId,
> {
    if exists|t: TagId| leads(m, axis, candidates, t) {
        Some(choose|t: TagId| leads(m, axis, candidates, t))
    } else {
        None
    }
}

/// The policy that applies to an object with the tags `tags`: each axis is
/// taken from the tag that decides it, or else from `default`.
pub open spec fn resolved(m: OntologyModel, tags: Seq<TagId>, default: StoragePolicy) -> StoragePolicy {
    let c = closure_set(m.dag, tags);
    StoragePolicy {
        chunking: match winner(m, StorageAxis::Chunking, c) {
            Some(t) => m.tags[t].storage->0.chunking,
            None => default.chunking,
        },
        compression: match winner(m, StorageAxis::Compression, c) {
            Some(t) => m.tags[t].storage->0.compression,
            None => default.compression,
        },
        encryption: match winner(m, StorageAxis::Encryption, c) {
            Some(t) => m.tags[t].storage->0.encryption,
            None => default.encryption,
        },
    }
}

impl OntologyState {
    /// The materialised tag set for an object's direct tags.
    pub fn materialise(&self, direct: &Vec<TagId>) -> (r: Vec<TagId>)
        requires
            self.wf(),
        ensures
            tags_ascend(r@),
            r@.to_set() == closure_set(self@.dag, direct@),
    {
        Materializer::new(&self.dag).materialise(direct)
    }

    /// The storage policy of an object from its tag set. An axis declared on
    /// an implied tag applies too; the most derived declaring tag wins.
    pub fn resolve_policy(&self, object_tags: &Vec<TagId>, default: &StoragePolicy) -> (r:
        StoragePolicy)
        requires
            self.wf(),
        ensures
            r == resolved(self@, object_tags@, *default),
    {
        let all = self.materialise(object_tags);
        let mut chunking = default.chunking;
        let mut compression = default.compression;
        let mut encryption = default.encryption;
        match self.most_derived(&all, StorageAxis::Chunking) {
            Some(p) => {
                chunking = p.chunking;
            },
            None => {},
        }
        match self.most_derived(&all, StorageAxis::Compression) {
            Some(p) => {
                compression = p.compression;
            },
            None => {},
        }
        match self.most_derived(&all, StorageAxis::Encryption) {
            Some(p) => {
                encryption = p.encryption;
            },
            None => {},
        }
        StoragePolicy { chunking, compression, encryption }
    }

    /// The policy of the candidate that decides the axis, if any declares it.
    fn most_derived(&self, candidates: &Vec<TagId>, axis: StorageAxis) -> (r: Option<StoragePolicy>)
        requires
            self.wf(),
            tags_ascend(candidates@),
        ensures
            match winner(self@, axis, candidates@.to_set()) {
                Some(t) => declares(self@, axis, t) && r == self@.tags[t].storage,
                None => r is None,
            },
    {
        let ghost m = self@;
        let ghost c = candidates@.to_set();
        let list = self.declaring_among(candidates, axis);
        let mut i: usize = 0;
        while i < list.len()
            invariant
                i <= list@.len(),
                self.wf(),
                m == self@,
                c == candidates@.to_set(),
                tags_ascend(list@),
                forall|t: TagId| #[trigger]
                    list@.contains(t) <==> c.contains(t) && declares(m, axis, t),
                forall|x: int|
                    0 <= x < i ==> !most_derived(m, axis, c, #[trigger] list@[x]) && !unbeaten(
                        m.dag,
                        list@,
                        x,
                    ),
            decreases list@.len() - i,
        {
            let t = list[i];
            if !self.beaten(&list, i) {
                proof {
                    assert(list@.contains(t));
                    assert(most_derived(m, axis, c, t)) by {
                        assert forall|u: TagId| #[trigger]
                            c.contains(u) && declares(m, axis, u) && u != t implies !implied(
                            m.dag,
                            u,
                            t,
                        ) by {
                            assert(list@.contains(u));
                            let j = choose|j: int| 0 <= j < list@.len() && list@[j] == u;
                            assert(list@[j] != list@[i as int]);
                        }
                    }
                    assert(leads(m, axis, c, t)) by {
                        assert forall|u: TagId| #[trigger] most_derived(m, axis, c, u) implies t.id
                            <= u.id by {
                            assert(list@.contains(u));
                            let j = choose|j: int| 0 <= j < list@.len() && list@[j] == u;
                            if j < i {
                                assert(!most_derived(m, axis, c, list@[j]));
                            }
                        }
                    }
                    let w = choose|w: TagId| leads(m, axis, c, w);
                    assert(leads(m, axis, c, w));
                    assert(w.id == t.id);
                    assert(w == t);
                }
                return match self.tags.get(&t) {
                    Some(def) => def.storage,
                    None => None,
                };
            }
            proof {
                assert(!unbeaten(m.dag, list@, i as int));
                let j = choose|j: int|
                    0 <= j < list@.len() && #[trigger] list@[j] != list@[i as int] && implied(
                        m.dag,
                        list@[j],
                        list@[i as int],
                    );
                assert(list@.contains(list@[j]));
                assert(c.contains(list@[j]));
            }
            i = i + 1;
        }
        proof {
            if list@.len() > 0 {
                lemma_unbeaten_exists(m.dag, list@);
                let x = choose|x: int| 0 <= x < list@.len() && #[trigger] unbeaten(m.dag, list@, x);
                assert(!most_derived(m, axis, c, list@[x]));
            }
            assert(list@.len() == 0);
            assert forall|t: TagId| !leads(m, axis, c, t) by {
                if leads(m, axis, c, t) {
                    assert(list@.contains(t));
                }
            }
        }
        None
    }

    /// Whether another tag of the list implies the one at `i`.
    fn beaten(&self, list: &Vec<TagId>, i: usize) -> (r: bool)
        requires
            self.wf(),
            i < list@.len(),
        ensures
            r == !unbeaten(self@.dag, list@, i as int),
    {
        let mut j: usize = 0;
        while j < list.len()
            invariant
                j <= list@.len(),
                i < list@.len(),
                self.wf(),
                forall|x: int|
                    0 <= x < j && #[trigger] list@[x] != list@[i as int] ==> !implied(
                        self@.dag,
                        list@[x],
                        list@[i as int],
                    ),
            decreases list@.len() - j,
        {
            if list[j] != list[i] && self.dag.is_a(list[j], list[i]) {
                return true;
            }
            j = j + 1;
        }
        false
    }

    /// The candidates that declare the axis, in the candidates' order.
    fn declaring_among(&self, candidates: &Vec<TagId>, axis: StorageAxis) -> (r: Vec<TagId>)
        requires
            self.wf(),
            tags_ascend(candidates@),
        ensures
            tags_ascend(r@),
            forall|t: TagId| #[trigger]
                r@.contains(t) <==> candidates@.to_set().contains(t) && declares(self@, axis, t),
    {
        let mut out: Vec<TagId> = Vec::new();
        let mut i: usize = 0;
        while i < candidates.len()
            invariant
                i <= candidates@.len(),
                self.wf(),
                tags_ascend(candidates@),
                tags_ascend(out@),
                forall|j: int|
                    0 <= j < out@.len() ==> candidates@.take(i as int).contains(#[trigger] out@[j])
                        && declares(self@, axis, out@[j]),
                forall|k: int|
                    0 <= k < i && declares(self@, axis, #[trigger] candidates@[k]) ==> out@.contains(
                        candidates@[k],
                    ),
            decreases candidates@.len() - i,
        {
            let t = candidates[i];
            let declared = match self.tags.get(&t) {
                Some(def) => declares_axis(&def.storage, axis),
                None => false,
            };
            let ghost before = out@;
            proof {
                assert(declared == declares(self@, axis, t));
                assert forall|j: int| 0 <= j < before.len() implies candidates@.take(i + 1).contains(
                    #[trigger] before[j],
                ) && before[j].id < t.id by {
                    let k = choose|k: int|
                        0 <= k < candidates@.take(i as int).len() && candidates@.take(i as int)[k]
                            == before[j];
                    assert(candidates@[k] == before[j]);
                    assert(candidates@.take(i + 1)[k] == before[j]);
                    assert(candidates@[k].id < candidates@[i as int].id);
                }
            }
            if declared {
                out.push(t);
                proof {
                    assert(candidates@.take(i + 1)[i as int] == t);
                    assert(out@[before.len() as int] == t);
                    assert forall|k: int|
                        0 <= k < i + 1 && declares(self@, axis, #[trigger] candidates@[k]) implies
                        out@.contains(candidates@[k]) by {
                        if k < i {
                            let j = choose|j: int|
                                0 <= j < before.len() && before[j] == candidates@[k];
                            assert(out@[j] == candidates@[k]);
                        }
                    }
                    assert forall|j: int| 0 <= j < out@.len() implies candidates@.take(
                        i + 1,
                    ).contains(#[trigger] out@[j]) && declares(self@, axis, out@[j]) by {
                        if j < before.len() {
                            assert(out@[j] == before[j]);
                        }
                    }
                }
            }
            i = i + 1;
        }
        proof {
            assert(candidates@.take(i as int) =~= candidates@);
            assert forall|t: TagId| #[trigger]
                out@.contains(t) <==> candidates@.to_set().contains(t) && declares(self@, axis, t) by {
                if out@.contains(t) {
                    let j = choose|j: int| 0 <= j < out@.len() && out@[j] == t;
                    assert(candidates@.contains(out@[j]));
                }
                if candidates@.contains(t) && declares(self@, axis, t) {
                    let k = choose|k: int| 0 <= k < candidates@.len() && candidates@[k] == t;
                    assert(out@.contains(candidates@[k]));
                }
            }
        }
        out
    }
}

/// No other tag of the list implies the one at `i`.
pub(crate) open spec fn unbeaten(d: DagModel, list: Seq<TagId>, i: int) -> bool {
    forall|j: int|
        0 <= j < list.len() && #[trigger] list[j] != list[i] ==> !implied(d, list[j], list[i])
}

proof fn lemma_no_two_cycle(d: DagModel, a: TagId, b: TagId)
    requires
        acyclic(d.edges),
        a != b,
        implied(d, a, b),
    ensures
        !implied(d, b, a),
{
    if implied(d, b, a) {
        let p = choose|p: Seq<TagId>| #[trigger] is_walk(d.edges, p) && p[0] == a && p.last() == b;
        let q = choose|q: Seq<TagId>| #[trigger] is_walk(d.edges, q) && q[0] == b && q.last() == a;
        lemma_walk_join(d.edges, p, q);
        assert(p.len() > 1);
        assert(on_cycle(d.edges, a));
    }
}

/// Without cycles some tag of a list is implied by no other.
pub(crate) proof fn lemma_unbeaten_exists(d: DagModel, list: Seq<TagId>)
    requires
        acyclic(d.edges),
        list.len() > 0,
    ensures
        exists|i: int| 0 <= i < list.len() && #[trigger] unbeaten(d, list, i),
    decreases list.len(),
{
    let last = list.last();
    if list.len() == 1 {
        assert(unbeaten(d, list, 0));
    } else {
        let front = list.drop_last();
        lemma_unbeaten_exists(d, front);
        let i = choose|i: int| 0 <= i < front.len() && #[trigger] unbeaten(d, front, i);
        if last != list[i] && implied(d, last, list[i]) {
            let n = list.len() - 1;
            assert(unbeaten(d, list, n)) by {
                assert forall|j: int| 0 <= j < list.len() && #[trigger] list[j] != list[n] implies
                    !implied(d, list[j], list[n]) by {
                    if implied(d, list[j], list[n]) {
                        assert(j < n);
                        assert(front[j] == list[j]);
                        if list[j] == list[i] {
                            lemma_no_two_cycle(d, last, list[i]);
                        } else {
                            lemma_reach_join(d.edges, list[j], last, list[i]);
                            assert(front[j] != front[i]);
                        }
                    }
                }
            }
        } else {
            assert(unbeaten(d, list, i)) by {
                assert forall|j: int| 0 <= j < list.len() && #[trigger] list[j] != list[i] implies
                    !implied(d, list[j], list[i]) by {
                    if j < front.len() {
                        assert(front[j] != front[i]);
                    }
                }
            }
        }
    }
}

/// While the declaring tags of an axis form a chain, the most derived tag is
/// unique.
pub proof fn most_derived_is_unique(
    m: OntologyModel,
    axis: StorageAxis,
    candidates: Set<TagId>,
    t: TagId,
    u: TagId,
)
    requires
        axis_clear(m, axis),
        most_derived(m, axis, candidates, t),
        most_derived(m, axis, candidates, u),
    ensures
        t == u,
{
    if t != u {
        assert(!conflict(m, axis, t, u));
        assert(!conflict(m, axis, u, t));
    }
}

} // verus!
