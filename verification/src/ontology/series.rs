//! Registries that are built by installing one module after the other.

use vstd::prelude::*;
use crate::ontology::error::StorageAxis;
use crate::ontology::implication_dag::implied;
use crate::ontology::laws::{ids_below, install_keeps_axes, install_keeps_consistent};
use crate::ontology::module::ModuleModel;
use crate::ontology::path::{acyclic, lemma_new_edge_cycle, lemma_reach_self};
use crate::ontology::state::{axes_clear, axis_clear, conflict, consistent, declares, empty_model,
    fits, installed, linked, registered, related, OntologyModel};
use crate::types::id::TagId;
use crate::types::tag::{TagModel, TagRelation};

verus! {

/// One installation: the module, and the next id of the allocator.
pub ghost struct InstallStep {
    pub module: ModuleModel,
    pub next: int,
}

/// The step can be done in `m`: the module is not installed, it fits, and the
/// allocator is past every id in use.
pub open spec fn step_starts(m: OntologyModel, step: InstallStep) -> bool {
    &&& 0 <= step.next
    &&& ids_below(m, step.next)
    &&& !m.modules.contains_key(step.module.id)
    &&& fits(m, step.next, step.module)
}

/// The registry that successful installations make of the empty one, if all of
/// them succeed.
pub open spec fn built(steps: Seq<InstallStep>) -> Option<OntologyModel>
    decreases steps.len(),
{
    if steps.len() == 0 {
        Some(empty_model())
    } else {
        match built(steps.drop_last()) {
            Some(m) => if step_starts(m, steps.last()) {
                match installed(m, steps.last().next, steps.last().module) {
                    Ok(i) => Some(i.model),
                    Err(_) => None,
                }
            } else {
                None
            },
            None => None,
        }
    }
}

/// On the axis, of two tags that declare it one implies the other.
pub open spec fn axis_is_chain(m: OntologyModel, axis: StorageAxis) -> bool {
    forall|a: TagId, b: TagId|
        #[trigger] declares(m, axis, a) && #[trigger] declares(m, axis, b) ==> implied(m.dag, a, b)
            || implied(m.dag, b, a)
}

/// After any series of successful installations from the empty registry, names
/// and tags correspond one to one, the nodes of the graph are the tags, the
/// graph has no cycle, and on every axis the declaring tags form a chain.
pub proof fn built_registry_is_sound(steps: Seq<InstallStep>)
    requires
        built(steps) is Some,
    ensures
        consistent(built(steps)->Some_0),
        acyclic(built(steps)->Some_0.dag.edges),
        axes_clear(built(steps)->Some_0),
        forall|axis: StorageAxis| #[trigger] axis_is_chain(built(steps)->Some_0, axis),
    decreases steps.len(),
{
    let m = built(steps)->Some_0;
    if steps.len() == 0 {
        assert(consistent(m)) by {
            assert(m.dag.tags =~= m.tags.dom());
        }
        assert forall|a: TagId| !#[trigger] crate::ontology::graph::on_cycle(m.dag.edges, a) by {
            if crate::ontology::graph::on_cycle(m.dag.edges, a) {
                let p = choose|p: Seq<TagId>| #[trigger]
                    crate::ontology::graph::is_walk(m.dag.edges, p) && p.len() > 1 && p[0] == a
                        && p.last() == a;
                assert(crate::ontology::graph::steps(m.dag.edges, p, 0));
            }
        }
    } else {
        built_registry_is_sound(steps.drop_last());
        let old = built(steps.drop_last())->Some_0;
        let step = steps.last();
        install_keeps_consistent(old, step.next, step.module);
        install_keeps_axes(old, step.next, step.module);
        install_keeps_acyclic(old, step.next, step.module);
    }
    assert forall|axis: StorageAxis| #[trigger] axis_is_chain(m, axis) by {
        lemma_chain(m, axis);
    }
}

/// An installation closes no cycle.
pub proof fn install_keeps_acyclic(m: OntologyModel, next: int, module: ModuleModel)
    requires
        acyclic(m.dag.edges),
        installed(m, next, module) is Ok,
    ensures
        acyclic(installed(m, next, module)->Ok_0.model.dag.edges),
{
    let k = module.tags.len() as int;
    let reg = registered(m, next, module.tags, k);
    lemma_registered_edges(m, next, module.tags, k);
    let j = module.implications.len() as int;
    lemma_linked_acyclic(reg.model, module.implications, j);
    let n = linked(reg.model, module.implications, j)->Ok_0.0;
    lemma_related_edges(n, module.relations, module.relations.len() as int);
}

proof fn lemma_registered_edges(m: OntologyModel, next: int, defs: Seq<TagModel>, k: int)
    ensures
        registered(m, next, defs, k).model.dag.edges == m.dag.edges,
    decreases k,
{
    if k > 0 {
        lemma_registered_edges(m, next, defs, k - 1);
    }
}

proof fn lemma_linked_acyclic(m: OntologyModel, imps: Seq<(Seq<char>, Seq<char>)>, k: int)
    requires
        acyclic(m.dag.edges),
        linked(m, imps, k) is Ok,
    ensures
        acyclic(linked(m, imps, k)->Ok_0.0.dag.edges),
    decreases k,
{
    if k > 0 {
        lemma_linked_acyclic(m, imps, k - 1);
        let n = linked(m, imps, k - 1)->Ok_0.0;
        lemma_new_edge_cycle(n.dag.edges, n.names[imps[k - 1].0], n.names[imps[k - 1].1]);
    }
}

proof fn lemma_related_edges(
    m: OntologyModel,
    rels: Seq<(Seq<char>, TagRelation, Seq<char>)>,
    k: int,
)
    requires
        related(m, rels, k) is Ok,
    ensures
        related(m, rels, k)->Ok_0.0.dag == m.dag,
    decreases k,
{
    if k > 0 {
        lemma_related_edges(m, rels, k - 1);
    }
}

/// Without a conflict the declaring tags of an axis form a chain.
proof fn lemma_chain(m: OntologyModel, axis: StorageAxis)
    requires
        consistent(m),
        axes_clear(m),
    ensures
        axis_is_chain(m, axis),
{
    assert(axis_clear(m, axis)) by {
        match axis {
            StorageAxis::Chunking => {},
            StorageAxis::Compression => {},
            StorageAxis::Encryption => {},
        }
    }
    assert forall|a: TagId, b: TagId|
        #[trigger] declares(m, axis, a) && #[trigger] declares(m, axis, b) implies implied(
        m.dag,
        a,
        b,
    ) || implied(m.dag, b, a) by {
        assert(m.tags.dom().contains(a) && m.tags.dom().contains(b));
        if a.id == b.id {
            assert(a == b);
            lemma_reach_self(m.dag.edges, a);
        } else if a.id < b.id {
            assert(!conflict(m, axis, a, b));
        } else {
            assert(!conflict(m, axis, b, a));
        }
    }
}

} // verus!
