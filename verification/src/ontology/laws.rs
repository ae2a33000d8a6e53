//! What installing or upgrading a module keeps.

use vstd::prelude::*;
use crate::ontology::module::ModuleModel;
use crate::ontology::state::{axes_clear, axis_clear, conflict, consistent, installed,
    lemma_registered_grows, linked, registered, related, with_implication, OntologyModel};
use crate::ontology::error::StorageAxis;
use crate::ontology::upgrade::{fresh_next, largest, merged, upgraded, without_record};
use crate::types::id::TagId;
use crate::types::tag::{TagModel, TagRelation};

verus! {

/// Every id is below `next`.
pub open spec fn ids_below(m: OntologyModel, next: int) -> bool {
    forall|t: TagId| #[trigger] m.tags.contains_key(t) ==> t.id < next
}

/// `n` has whatever `m` has: names keep their meaning, definitions keep
/// everything but longer implication lists, and no edge or relation is lost.
pub open spec fn extends(m: OntologyModel, n: OntologyModel) -> bool {
    &&& forall|k: Seq<char>| #[trigger]
        m.names.contains_key(k) ==> n.names.contains_key(k) && n.names[k] == m.names[k]
    &&& forall|t: TagId| #[trigger]
        m.tags.contains_key(t) ==> n.tags.contains_key(t) && n.tags[t].name == m.tags[t].name
            && n.tags[t].semantics == m.tags[t].semantics && n.tags[t].storage
            == m.tags[t].storage && m.tags[t].implies.is_prefix_of(n.tags[t].implies)
    &&& m.dag.tags.subset_of(n.dag.tags)
    &&& m.dag.edges.subset_of(n.dag.edges)
    &&& m.relations.is_prefix_of(n.relations)
}

/// After a module is installed, the declaring tags of every axis form a chain.
pub proof fn install_keeps_axes(m: OntologyModel, next: int, module: ModuleModel)
    requires
        installed(m, next, module) is Ok,
    ensures
        axes_clear(installed(m, next, module)->Ok_0.model),
{
    let reg = registered(m, next, module.tags, module.tags.len() as int);
    let n = linked(reg.model, module.implications, module.implications.len() as int)->Ok_0.0;
    let q = related(n, module.relations, module.relations.len() as int)->Ok_0.0;
    let f = installed(m, next, module)->Ok_0.model;
    assert(axes_clear(q));
    assert forall|axis: StorageAxis| axis_clear(q, axis) implies axis_clear(f, axis) by {
        assert forall|a: TagId, b: TagId| !#[trigger] conflict(f, axis, a, b) by {
            assert(!conflict(q, axis, a, b));
        }
    }
}

/// Installing a module keeps the tables in agreement, as long as the
/// allocator is past every id in use.
pub proof fn install_keeps_consistent(m: OntologyModel, next: int, module: ModuleModel)
    requires
        consistent(m),
        ids_below(m, next),
        0 <= next,
        registered(m, next, module.tags, module.tags.len() as int).next <= u32::MAX,
        installed(m, next, module) is Ok,
    ensures
        consistent(installed(m, next, module)->Ok_0.model),
        ids_below(
            installed(m, next, module)->Ok_0.model,
            registered(m, next, module.tags, module.tags.len() as int).next,
        ),
{
    let k = module.tags.len() as int;
    let reg = registered(m, next, module.tags, k);
    lemma_registered_consistent(m, next, module.tags, k, k);
    let j = module.implications.len() as int;
    lemma_linked_consistent(reg.model, module.implications, j, reg.next);
    let n = linked(reg.model, module.implications, j)->Ok_0.0;
    lemma_related_consistent(n, module.relations, module.relations.len() as int, reg.next);
}

pub(crate) proof fn lemma_registered_consistent(
    m: OntologyModel,
    next: int,
    defs: Seq<TagModel>,
    k: int,
    n: int,
)
    requires
        consistent(m),
        ids_below(m, next),
        0 <= next,
        0 <= k <= n <= defs.len(),
        registered(m, next, defs, n).next <= u32::MAX,
    ensures
        consistent(registered(m, next, defs, k).model),
        ids_below(registered(m, next, defs, k).model, registered(m, next, defs, k).next),
        0 <= registered(m, next, defs, k).next,
    decreases k,
{
    if k > 0 {
        lemma_registered_consistent(m, next, defs, k - 1, n);
        lemma_registered_grows(m, next, defs, k, n);
        let r = registered(m, next, defs, k - 1);
        let s = registered(m, next, defs, k);
        let d = defs[k - 1];
        if !r.model.names.contains_key(d.name) {
            let id = TagId { id: r.next as u32 };
            assert(!r.model.tags.contains_key(id));
            assert forall|t: TagId| #[trigger] s.model.tags.contains_key(t) implies
                s.model.names.contains_key(s.model.tags[t].name)
                && s.model.names[s.model.tags[t].name] == t by {
                if t != id {
                    assert(r.model.tags.contains_key(t));
                }
            }
            assert forall|x: Seq<char>| #[trigger] s.model.names.contains_key(x) implies
                s.model.tags.contains_key(s.model.names[x]) && s.model.tags[s.model.names[x]].name
                == x by {
                if x != d.name {
                    assert(r.model.names.contains_key(x));
                    assert(r.model.tags.contains_key(r.model.names[x]));
                }
            }
            assert(s.model.dag.tags =~= s.model.tags.dom());
        }
    }
}

proof fn lemma_linked_consistent(
    m: OntologyModel,
    imps: Seq<(Seq<char>, Seq<char>)>,
    k: int,
    next: int,
)
    requires
        consistent(m),
        ids_below(m, next),
        linked(m, imps, k) is Ok,
    ensures
        consistent(linked(m, imps, k)->Ok_0.0),
        ids_below(linked(m, imps, k)->Ok_0.0, next),
    decreases k,
{
    if k > 0 {
        lemma_linked_consistent(m, imps, k - 1, next);
        let n = linked(m, imps, k - 1)->Ok_0.0;
        let from = n.names[imps[k - 1].0];
        let to = n.names[imps[k - 1].1];
        let q = with_implication(n, from, to);
        assert(q.tags.dom() =~= n.tags.dom());
        assert forall|t: TagId| #[trigger] q.tags.contains_key(t) implies q.tags[t].name
            == n.tags[t].name && q.tags[t].id == n.tags[t].id && n.tags.contains_key(t) by {}
        assert forall|x: Seq<char>| #[trigger] q.names.contains_key(x) implies q.tags.contains_key(
            q.names[x],
        ) && q.tags[q.names[x]].name == x by {
            assert(n.names.contains_key(x));
            assert(n.tags.contains_key(n.names[x]));
        }
    }
}

proof fn lemma_related_consistent(
    m: OntologyModel,
    rels: Seq<(Seq<char>, TagRelation, Seq<char>)>,
    k: int,
    next: int,
)
    requires
        consistent(m),
        ids_below(m, next),
        related(m, rels, k) is Ok,
    ensures
        consistent(related(m, rels, k)->Ok_0.0),
        ids_below(related(m, rels, k)->Ok_0.0, next),
    decreases k,
{
    if k > 0 {
        lemma_related_consistent(m, rels, k - 1, next);
    }
}

/// Installing a module takes nothing away, as long as the allocator is past
/// every id in use.
pub proof fn install_extends(m: OntologyModel, next: int, module: ModuleModel)
    requires
        consistent(m),
        ids_below(m, next),
        0 <= next,
        registered(m, next, module.tags, module.tags.len() as int).next <= u32::MAX,
        installed(m, next, module) is Ok,
    ensures
        extends(m, installed(m, next, module)->Ok_0.model),
{
    let k = module.tags.len() as int;
    let reg = registered(m, next, module.tags, k);
    lemma_registered_extends(m, next, module.tags, k, k);
    let j = module.implications.len() as int;
    lemma_linked_extends(reg.model, module.implications, j);
    let n = linked(reg.model, module.implications, j)->Ok_0.0;
    let r = module.relations.len() as int;
    lemma_related_extends(n, module.relations, r);
    let q = related(n, module.relations, r)->Ok_0.0;
    lemma_extends_join(m, reg.model, n);
    lemma_extends_join(m, n, q);
}

proof fn lemma_extends_join(a: OntologyModel, b: OntologyModel, c: OntologyModel)
    requires
        extends(a, b),
        extends(b, c),
    ensures
        extends(a, c),
{
    assert forall|t: TagId| #[trigger] a.tags.contains_key(t) implies c.tags.contains_key(t)
        && c.tags[t].name == a.tags[t].name && c.tags[t].semantics == a.tags[t].semantics
        && c.tags[t].storage == a.tags[t].storage && a.tags[t].implies.is_prefix_of(
        c.tags[t].implies,
    ) by {
        assert(b.tags.contains_key(t));
        assert(b.tags[t].implies =~= c.tags[t].implies.subrange(0, b.tags[t].implies.len() as int));
        assert(a.tags[t].implies =~= c.tags[t].implies.subrange(0, a.tags[t].implies.len() as int));
    }
    assert forall|k: Seq<char>| #[trigger] a.names.contains_key(k) implies c.names.contains_key(k)
        && c.names[k] == a.names[k] by {
        assert(b.names.contains_key(k));
    }
    assert(a.relations =~= c.relations.subrange(0, a.relations.len() as int));
}

proof fn lemma_registered_extends(
    m: OntologyModel,
    next: int,
    defs: Seq<TagModel>,
    k: int,
    n: int,
)
    requires
        consistent(m),
        ids_below(m, next),
        0 <= next,
        0 <= k <= n <= defs.len(),
        registered(m, next, defs, n).next <= u32::MAX,
    ensures
        extends(m, registered(m, next, defs, k).model),
    decreases k,
{
    if k > 0 {
        lemma_registered_extends(m, next, defs, k - 1, n);
        lemma_registered_consistent(m, next, defs, k - 1, n);
        lemma_registered_grows(m, next, defs, k, n);
        let r = registered(m, next, defs, k - 1);
        let s = registered(m, next, defs, k);
        let d = defs[k - 1];
        if !r.model.names.contains_key(d.name) {
            let id = TagId { id: r.next as u32 };
            assert(!r.model.tags.contains_key(id));
            assert forall|t: TagId| #[trigger] m.tags.contains_key(t) implies s.model.tags[t]
                == r.model.tags[t] && s.model.tags.contains_key(t) by {
                assert(r.model.tags.contains_key(t));
            }
        }
    } else {
        assert forall|t: TagId| #[trigger] m.tags.contains_key(t) implies
            m.tags[t].implies.is_prefix_of(m.tags[t].implies) by {
            assert(m.tags[t].implies =~= m.tags[t].implies.subrange(
                0,
                m.tags[t].implies.len() as int,
            ));
        }
        assert(m.relations =~= m.relations.subrange(0, m.relations.len() as int));
    }
}

proof fn lemma_linked_extends(m: OntologyModel, imps: Seq<(Seq<char>, Seq<char>)>, k: int)
    requires
        linked(m, imps, k) is Ok,
    ensures
        extends(m, linked(m, imps, k)->Ok_0.0),
    decreases k,
{
    if k > 0 {
        lemma_linked_extends(m, imps, k - 1);
        let n = linked(m, imps, k - 1)->Ok_0.0;
        let q = linked(m, imps, k)->Ok_0.0;
        let from = n.names[imps[k - 1].0];
        let to = n.names[imps[k - 1].1];
        assert(q == with_implication(n, from, to));
        assert forall|t: TagId| #[trigger] m.tags.contains_key(t) implies q.tags.contains_key(t)
            && q.tags[t].name == m.tags[t].name && q.tags[t].semantics == m.tags[t].semantics
            && q.tags[t].storage == m.tags[t].storage && m.tags[t].implies.is_prefix_of(
            q.tags[t].implies,
        ) by {
            assert(n.tags.contains_key(t));
            assert(m.tags[t].implies =~= q.tags[t].implies.subrange(
                0,
                m.tags[t].implies.len() as int,
            ));
        }
    } else {
        assert forall|t: TagId| #[trigger] m.tags.contains_key(t) implies
            m.tags[t].implies.is_prefix_of(m.tags[t].implies) by {
            assert(m.tags[t].implies =~= m.tags[t].implies.subrange(
                0,
                m.tags[t].implies.len() as int,
            ));
        }
        assert(m.relations =~= m.relations.subrange(0, m.relations.len() as int));
    }
}

proof fn lemma_related_extends(
    m: OntologyModel,
    rels: Seq<(Seq<char>, TagRelation, Seq<char>)>,
    k: int,
)
    requires
        related(m, rels, k) is Ok,
    ensures
        extends(m, related(m, rels, k)->Ok_0.0),
    decreases k,
{
    if k > 0 {
        lemma_related_extends(m, rels, k - 1);
        let n = related(m, rels, k - 1)->Ok_0.0;
        let q = related(m, rels, k)->Ok_0.0;
        assert(m.relations =~= q.relations.subrange(0, m.relations.len() as int)) by {
            assert(m.relations =~= n.relations.subrange(0, m.relations.len() as int));
        }
    } else {
        assert forall|t: TagId| #[trigger] m.tags.contains_key(t) implies
            m.tags[t].implies.is_prefix_of(m.tags[t].implies) by {
            assert(m.tags[t].implies =~= m.tags[t].implies.subrange(
                0,
                m.tags[t].implies.len() as int,
            ));
        }
        assert(m.relations =~= m.relations.subrange(0, m.relations.len() as int));
    }
}

proof fn lemma_merged_prefix<A>(a: Seq<A>, b: Seq<A>)
    ensures
        a.is_prefix_of(merged(a, b)),
    decreases b.len(),
{
    if b.len() > 0 {
        lemma_merged_prefix(a, b.drop_last());
        let s = merged(a, b.drop_last());
        let t = merged(a, b);
        assert(a =~= s.subrange(0, a.len() as int));
        assert(a =~= t.subrange(0, a.len() as int));
    } else {
        assert(a =~= a.subrange(0, a.len() as int));
    }
}

/// A set of ids that is not empty has a largest.
proof fn lemma_largest(tags: Map<TagId, TagModel>, s: Set<TagId>) -> (r: TagId)
    requires
        s.finite(),
        s.len() > 0,
        s.subset_of(tags.dom()),
    ensures
        s.contains(r),
        forall|u: TagId| #[trigger] s.contains(u) ==> u.id <= r.id,
    decreases s.len(),
{
    let x = s.choose();
    let rest = s.remove(x);
    if rest.len() == 0 {
        assert forall|u: TagId| #[trigger] s.contains(u) implies u.id <= x.id by {
            if u != x {
                assert(rest.contains(u));
            }
        }
        x
    } else {
        let y = lemma_largest(tags, rest);
        let r = if x.id < y.id {
            y
        } else {
            x
        };
        assert forall|u: TagId| #[trigger] s.contains(u) implies u.id <= r.id by {
            if u != x {
                assert(rest.contains(u));
            }
        }
        r
    }
}

/// The ids in use are below the one that comes next.
pub proof fn fresh_ids_are_unused(m: OntologyModel)
    requires
        m.tags.dom().finite(),
    ensures
        ids_below(m, fresh_next(m.tags)),
        0 < fresh_next(m.tags),
{
    if m.tags.dom().len() > 0 {
        let r = lemma_largest(m.tags, m.tags.dom());
        assert(largest(m.tags, r)) by {
            assert forall|u: TagId| #[trigger] m.tags.contains_key(u) implies u.id <= r.id by {
                assert(m.tags.dom().contains(u));
            }
        }
        let c = choose|t: TagId| largest(m.tags, t);
        assert(largest(m.tags, c));
    } else {
        assert forall|t: TagId| #[trigger] m.tags.contains_key(t) implies false by {
            assert(m.tags.dom().contains(t));
        }
    }
}

/// An upgrade takes nothing away: the registry keeps what it has, the record of
/// the module keeps what it lists, and the records of the others stay as they
/// are. The tables still agree, and the declaring tags of every axis still form
/// a chain.
pub proof fn upgrade_extends(m: OntologyModel, new: ModuleModel)
    requires
        consistent(m),
        m.tags.dom().finite(),
        m.modules.contains_key(new.id),
        registered(
            without_record(m, new.id),
            fresh_next(m.tags),
            new.tags,
            new.tags.len() as int,
        ).next <= u32::MAX,
        installed(without_record(m, new.id), fresh_next(m.tags), new) is Ok,
    ensures
        ({
            let n = upgraded(
                m,
                new,
                installed(without_record(m, new.id), fresh_next(m.tags), new)->Ok_0,
            );
            &&& extends(m, n)
            &&& consistent(n)
            &&& axes_clear(n)
            &&& n.modules.contains_key(new.id)
            &&& m.modules[new.id].tags.is_prefix_of(n.modules[new.id].tags)
            &&& m.modules[new.id].implications.is_prefix_of(n.modules[new.id].implications)
            &&& m.modules[new.id].relations.is_prefix_of(n.modules[new.id].relations)
            &&& n.modules.remove(new.id) == m.modules.remove(new.id)
        }),
{
    let w = without_record(m, new.id);
    let next = fresh_next(m.tags);
    let i = installed(w, next, new)->Ok_0;
    let n = upgraded(m, new, i);
    fresh_ids_are_unused(m);
    assert(consistent(w)) by {
        assert forall|k: Seq<char>| #[trigger] w.modules.contains_key(k) implies w.modules[k].id
            == k by {
            assert(m.modules.contains_key(k));
        }
        assert forall|t: TagId| #[trigger] w.tags.contains_key(t) implies w.tags[t].id == t
            && w.names.contains_key(w.tags[t].name) && w.names[w.tags[t].name] == t by {
            assert(m.tags.contains_key(t));
        }
        assert forall|x: Seq<char>| #[trigger] w.names.contains_key(x) implies w.tags.contains_key(
            w.names[x],
        ) && w.tags[w.names[x]].name == x by {
            assert(m.names.contains_key(x));
        }
    }
    assert(ids_below(w, next)) by {
        assert forall|t: TagId| #[trigger] w.tags.contains_key(t) implies t.id < next by {
            assert(m.tags.contains_key(t));
        }
    }
    install_extends(w, next, new);
    install_keeps_consistent(w, next, new);
    install_keeps_axes(w, next, new);
    let prev = m.modules[new.id];
    let rec = i.model.modules[new.id];
    lemma_merged_prefix(prev.tags, rec.tags);
    lemma_merged_prefix(prev.implications, rec.implications);
    lemma_merged_prefix(prev.relations, rec.relations);
    lemma_install_modules(w, next, new);
    assert(extends(m, n)) by {
        assert forall|t: TagId| #[trigger] m.tags.contains_key(t) implies n.tags.contains_key(t)
            && n.tags[t].name == m.tags[t].name && n.tags[t].semantics == m.tags[t].semantics
            && n.tags[t].storage == m.tags[t].storage && m.tags[t].implies.is_prefix_of(
            n.tags[t].implies,
        ) by {
            assert(w.tags.contains_key(t));
        }
        assert forall|k: Seq<char>| #[trigger] m.names.contains_key(k) implies n.names.contains_key(
            k,
        ) && n.names[k] == m.names[k] by {
            assert(w.names.contains_key(k));
        }
    }
    assert(consistent(n)) by {
        assert forall|k: Seq<char>| #[trigger] n.modules.contains_key(k) implies n.modules[k].id
            == k by {
            assert(i.model.modules.contains_key(k));
        }
        assert forall|t: TagId| #[trigger] n.tags.contains_key(t) implies n.tags[t].id == t
            && n.names.contains_key(n.tags[t].name) && n.names[n.tags[t].name] == t by {
            assert(i.model.tags.contains_key(t));
        }
        assert forall|x: Seq<char>| #[trigger] n.names.contains_key(x) implies n.tags.contains_key(
            n.names[x],
        ) && n.tags[n.names[x]].name == x by {
            assert(i.model.names.contains_key(x));
        }
    }
    assert forall|axis: StorageAxis| axis_clear(i.model, axis) implies axis_clear(n, axis) by {
        assert forall|a: TagId, b: TagId| !#[trigger] conflict(n, axis, a, b) by {
            assert(!conflict(i.model, axis, a, b));
        }
    }
    assert(n.modules.remove(new.id) =~= i.model.modules.remove(new.id));
    assert(w.modules.remove(new.id) =~= m.modules.remove(new.id));
}

/// Installing adds one record and leaves the others.
pub(crate) proof fn lemma_install_modules(m: OntologyModel, next: int, module: ModuleModel)
    requires
        installed(m, next, module) is Ok,
    ensures
        installed(m, next, module)->Ok_0.model.modules.contains_key(module.id),
        installed(m, next, module)->Ok_0.model.modules[module.id].id == module.id,
        installed(m, next, module)->Ok_0.model.modules.remove(module.id) == m.modules.remove(
            module.id,
        ),
{
    let k = module.tags.len() as int;
    let reg = registered(m, next, module.tags, k);
    lemma_registered_modules(m, next, module.tags, k);
    let j = module.implications.len() as int;
    lemma_linked_modules(reg.model, module.implications, j);
    let n = linked(reg.model, module.implications, j)->Ok_0.0;
    lemma_related_modules(n, module.relations, module.relations.len() as int);
    let f = installed(m, next, module)->Ok_0.model;
    assert(f.modules.remove(module.id) =~= m.modules.remove(module.id));
}

proof fn lemma_registered_modules(m: OntologyModel, next: int, defs: Seq<TagModel>, k: int)
    ensures
        registered(m, next, defs, k).model.modules == m.modules,
    decreases k,
{
    if k > 0 {
        lemma_registered_modules(m, next, defs, k - 1);
    }
}

proof fn lemma_linked_modules(m: OntologyModel, imps: Seq<(Seq<char>, Seq<char>)>, k: int)
    requires
        linked(m, imps, k) is Ok,
    ensures
        linked(m, imps, k)->Ok_0.0.modules == m.modules,
    decreases k,
{
    if k > 0 {
        lemma_linked_modules(m, imps, k - 1);
    }
}

proof fn lemma_related_modules(
    m: OntologyModel,
    rels: Seq<(Seq<char>, TagRelation, Seq<char>)>,
    k: int,
)
    requires
        related(m, rels, k) is Ok,
    ensures
        related(m, rels, k)->Ok_0.0.modules == m.modules,
    decreases k,
{
    if k > 0 {
        lemma_related_modules(m, rels, k - 1);
    }
}

} // verus!
