//! Taking a module out that stands by itself.

use vstd::prelude::*;
use crate::ontology::module::ModuleModel;
use crate::ontology::scrub::{edge_claimed, names_of, own_count, own_edges, own_relations, own_tags,
    relation_claimed, scrubbed, tag_claimed};
use crate::ontology::state::{installed, lemma_registered_grows, linked, registered, related,
    with_implication, OntologyModel, RecordModel, Relation};
use crate::ontology::undo::{lemma_kept_prefix, lemma_kept_relations_prefix, lemma_relations_added};
use crate::ontology::upgrade::defines;
use crate::types::id::TagId;
use crate::types::tag::{TagModel, TagRelation};

verus! {

/// The id is one of those from `from` up to `to`.
pub open spec fn issued(t: TagId, from: int, to: int) -> bool {
    from <= t.id < to
}

/// None of the ids from `from` up to `to` is that of a tag or of a node, the
/// end of an edge or of a relation, or listed by a module.
pub open spec fn unused(m: OntologyModel, from: int, to: int) -> bool {
    &&& forall|t: TagId| #[trigger] m.tags.contains_key(t) ==> !issued(t, from, to)
    &&& forall|t: TagId| #[trigger] m.dag.tags.contains(t) ==> !issued(t, from, to)
    &&& forall|e: (TagId, TagId)| #[trigger]
        m.dag.edges.contains(e) ==> !issued(e.0, from, to) && !issued(e.1, from, to)
    &&& forall|e: Relation| #[trigger]
        m.relations.contains(e) ==> !issued(e.0, from, to) && !issued(e.2, from, to)
    &&& forall|t: TagId| #[trigger] tag_claimed(m.modules, t) ==> !issued(t, from, to)
    &&& forall|e: (TagId, TagId)| #[trigger]
        edge_claimed(m.modules, e) ==> !issued(e.0, from, to) && !issued(e.1, from, to)
    &&& forall|e: Relation| #[trigger]
        relation_claimed(m.modules, e) ==> !issued(e.0, from, to) && !issued(e.2, from, to)
}

/// The module stands by itself in `m`: none of its tags is known there by name
/// or brings a list of implied tags, and its implications and relations name
/// its own tags alone.
pub open spec fn stands_alone(m: OntologyModel, module: ModuleModel) -> bool {
    &&& forall|i: int|
        0 <= i < module.tags.len() ==> !m.names.contains_key((#[trigger] module.tags[i]).name)
            && module.tags[i].implies.len() == 0
    &&& forall|i: int|
        0 <= i < module.implications.len() ==> defines(
            module.tags,
            (#[trigger] module.implications[i]).0,
        ) && defines(module.tags, module.implications[i].1)
    &&& forall|i: int|
        0 <= i < module.relations.len() ==> defines(
            module.tags,
            (#[trigger] module.relations[i]).0,
        ) && defines(module.tags, module.relations[i].2)
}

/// The names of the first `k` definitions.
pub open spec fn tag_names(defs: Seq<TagModel>, k: int) -> Set<Seq<char>>
    decreases k,
{
    if k <= 0 {
        Set::empty()
    } else {
        tag_names(defs, k - 1).insert(defs[k - 1].name)
    }
}

/// What registering the definitions of such a module comes to.
spec fn own_registered(
    m: OntologyModel,
    r: OntologyModel,
    from: int,
    to: int,
    fresh: Seq<TagId>,
    names: Set<Seq<char>>,
) -> bool {
    &&& forall|t: TagId| #[trigger] fresh.contains(t) <==> issued(t, from, to)
    &&& fresh.no_duplicates()
    &&& forall|t: TagId| #[trigger]
        r.tags.contains_key(t) <==> m.tags.contains_key(t) || issued(t, from, to)
    &&& forall|t: TagId| #[trigger]
        r.tags.contains_key(t) && !issued(t, from, to) ==> r.tags[t] == m.tags[t]
    &&& forall|t: TagId| #[trigger]
        r.tags.contains_key(t) && issued(t, from, to) ==> names.contains(r.tags[t].name)
    &&& forall|x: Seq<char>| #[trigger]
        r.names.contains_key(x) <==> m.names.contains_key(x) || names.contains(x)
    &&& forall|x: Seq<char>| #[trigger]
        m.names.contains_key(x) ==> !names.contains(x) && r.names[x] == m.names[x]
    &&& forall|x: Seq<char>| #[trigger]
        names.contains(x) ==> issued(r.names[x], from, to) && r.tags[r.names[x]].name == x
    &&& forall|t: TagId| #[trigger]
        r.dag.tags.contains(t) <==> m.dag.tags.contains(t) || issued(t, from, to)
    &&& r.dag.edges == m.dag.edges
    &&& r.relations == m.relations
    &&& r.modules == m.modules
    &&& names.finite()
    &&& fresh.len() == names.len()
}

proof fn lemma_own_registered(m: OntologyModel, next: int, defs: Seq<TagModel>, k: int, n: int)
    requires
        0 <= next,
        0 <= k <= n <= defs.len(),
        registered(m, next, defs, n).next <= u32::MAX,
        unused(m, next, registered(m, next, defs, n).next),
        forall|i: int|
            0 <= i < defs.len() ==> !m.names.contains_key((#[trigger] defs[i]).name),
    ensures
        own_registered(
            m,
            registered(m, next, defs, k).model,
            next,
            registered(m, next, defs, k).next,
            registered(m, next, defs, k).fresh,
            tag_names(defs, k),
        ),
        next <= registered(m, next, defs, k).next,
    decreases k,
{
    if k > 0 {
        lemma_own_registered(m, next, defs, k - 1, n);
        lemma_registered_grows(m, next, defs, k, n);
        lemma_registered_grows(m, next, defs, k - 1, n);
        let r = registered(m, next, defs, k - 1);
        let s = registered(m, next, defs, k);
        let d = defs[k - 1];
        let a = tag_names(defs, k - 1);
        let b = tag_names(defs, k);
        assert(!m.names.contains_key(d.name));
        if r.model.names.contains_key(d.name) {
            assert(a.contains(d.name));
            assert(b =~= a);
            assert(issued(r.model.names[d.name], next, r.next));
        } else {
            let id = TagId { id: r.next as u32 };
            assert(id.id == r.next);
            assert(!a.contains(d.name));
            assert forall|t: TagId| #[trigger] s.fresh.contains(t) <==> issued(t, next, s.next) by {
                if r.fresh.contains(t) {
                    let i = r.fresh.index_of(t);
                    assert(s.fresh[i] == t);
                }
                assert(s.fresh[r.fresh.len() as int] == id);
                if issued(t, next, s.next) && !issued(t, next, r.next) {
                    assert(t == id);
                }
            }
            assert(s.fresh.no_duplicates()) by {
                assert forall|i: int, j: int|
                    0 <= i < s.fresh.len() && 0 <= j < s.fresh.len() && i != j implies s.fresh[i]
                    != s.fresh[j] by {
                    if i < r.fresh.len() {
                        assert(r.fresh.contains(r.fresh[i]));
                    }
                    if j < r.fresh.len() {
                        assert(r.fresh.contains(r.fresh[j]));
                    }
                }
            }
            assert forall|t: TagId| issued(t, next, s.next) implies issued(t, next, r.next) || t
                == id by {}
            assert(!m.tags.contains_key(id)) by {
                assert(issued(id, next, registered(m, next, defs, n).next));
            }
            assert(!r.model.tags.contains_key(id));
            assert forall|x: Seq<char>| #[trigger] b.contains(x) implies issued(
                s.model.names[x],
                next,
                s.next,
            ) && s.model.tags[s.model.names[x]].name == x by {
                if x != d.name {
                    assert(a.contains(x));
                    assert(issued(r.model.names[x], next, r.next));
                    assert(s.model.names[x] == r.model.names[x]);
                    assert(r.model.names[x] != id);
                }
            }
        }
    } else {
        assert forall|t: TagId| !#[trigger] issued(t, next, next) by {}
    }
}

/// What adding the implications of such a module comes to.
spec fn own_linked(
    m: OntologyModel,
    n: OntologyModel,
    from: int,
    to: int,
    added: Seq<(TagId, TagId)>,
) -> bool {
    &&& n.names == m.names
    &&& n.relations == m.relations
    &&& n.modules == m.modules
    &&& n.dag.tags == m.dag.tags
    &&& n.tags.dom() == m.tags.dom()
    &&& forall|t: TagId| #[trigger]
        m.tags.contains_key(t) ==> n.tags[t].name == m.tags[t].name && (!issued(t, from, to)
            ==> n.tags[t] == m.tags[t])
    &&& forall|e: (TagId, TagId)| #[trigger]
        n.dag.edges.contains(e) <==> m.dag.edges.contains(e) || added.contains(e)
    &&& forall|e: (TagId, TagId)| #[trigger]
        added.contains(e) ==> issued(e.0, from, to) && issued(e.1, from, to)
}

proof fn lemma_own_linked(
    m: OntologyModel,
    imps: Seq<(Seq<char>, Seq<char>)>,
    k: int,
    from: int,
    to: int,
)
    requires
        0 <= k <= imps.len(),
        linked(m, imps, k) is Ok,
        forall|i: int|
            0 <= i < imps.len() ==> issued(m.names[(#[trigger] imps[i]).0], from, to) && issued(
                m.names[imps[i].1],
                from,
                to,
            ),
    ensures
        own_linked(m, linked(m, imps, k)->Ok_0.0, from, to, linked(m, imps, k)->Ok_0.1),
    decreases k,
{
    if k > 0 {
        lemma_own_linked(m, imps, k - 1, from, to);
        let (n, added) = linked(m, imps, k - 1)->Ok_0;
        let (q, all) = linked(m, imps, k)->Ok_0;
        let a = n.names[imps[k - 1].0];
        let b = n.names[imps[k - 1].1];
        assert(q == with_implication(n, a, b));
        assert(all == added.push((a, b)));
        assert(issued(m.names[imps[k - 1].0], from, to));
        assert(q.tags.dom() =~= m.tags.dom());
        assert forall|e: (TagId, TagId)| #[trigger] all.contains(e) <==> added.contains(e) || e == (
            a,
            b,
        ) by {
            if added.contains(e) {
                let i = added.index_of(e);
                assert(all[i] == e);
            }
            assert(all[added.len() as int] == (a, b));
        }
        assert forall|t: TagId| #[trigger] m.tags.contains_key(t) implies q.tags[t].name
            == m.tags[t].name && (!issued(t, from, to) ==> q.tags[t] == m.tags[t]) by {
            assert(n.tags.contains_key(t));
        }
    }
}

/// The ends of the relations of such a module.
proof fn lemma_own_related(
    m: OntologyModel,
    rels: Seq<(Seq<char>, TagRelation, Seq<char>)>,
    k: int,
    from: int,
    to: int,
)
    requires
        0 <= k <= rels.len(),
        related(m, rels, k) is Ok,
        forall|i: int|
            0 <= i < rels.len() ==> issued(m.names[(#[trigger] rels[i]).0], from, to) && issued(
                m.names[rels[i].2],
                from,
                to,
            ),
    ensures
        related(m, rels, k)->Ok_0.0.names == m.names,
        forall|e: Relation| #[trigger]
            related(m, rels, k)->Ok_0.1.contains(e) ==> issued(e.0, from, to),
    decreases k,
{
    if k > 0 {
        lemma_own_related(m, rels, k - 1, from, to);
        let (n, added) = related(m, rels, k - 1)->Ok_0;
        let (q, all) = related(m, rels, k)->Ok_0;
        let e = (n.names[rels[k - 1].0], rels[k - 1].1, n.names[rels[k - 1].2]);
        assert(all == added.push(e));
        assert(issued(m.names[rels[k - 1].0], from, to));
        assert forall|x: Relation| #[trigger] all.contains(x) implies issued(x.0, from, to) by {
            let i = all.index_of(x);
            if i < added.len() {
                assert(added.contains(added[i]));
            }
        }
    }
}

proof fn lemma_own_count(rec: Seq<TagId>, others: Map<Seq<char>, RecordModel>)
    requires
        forall|t: TagId| #[trigger] rec.contains(t) ==> !tag_claimed(others, t),
    ensures
        own_count(rec, others) == rec.len(),
    decreases rec.len(),
{
    if rec.len() > 0 {
        let front = rec.drop_last();
        assert forall|t: TagId| #[trigger] front.contains(t) implies !tag_claimed(others, t) by {
            let i = front.index_of(t);
            assert(rec[i] == t);
            assert(rec.contains(t));
        }
        lemma_own_count(front, others);
        assert(rec.contains(rec[rec.len() - 1]));
    }
}

/// The first `k` names are those of the definitions.
proof fn lemma_tag_names(defs: Seq<TagModel>, k: int, x: Seq<char>)
    requires
        0 <= k <= defs.len(),
    ensures
        tag_names(defs, k).contains(x) <==> exists|i: int|
            0 <= i < k && (#[trigger] defs[i]).name == x,
    decreases k,
{
    if k > 0 {
        lemma_tag_names(defs, k - 1, x);
        if defs[k - 1].name == x {
            assert(tag_names(defs, k).contains(x));
        } else if tag_names(defs, k).contains(x) {
            let i = choose|i: int| 0 <= i < k - 1 && (#[trigger] defs[i]).name == x;
            assert(0 <= i < k && defs[i].name == x);
        }
    }
}

/// Taking a module out right after it was installed leaves the registry as it
/// was, whatever else it holds, if the module stands by itself and its tags
/// got ids that were not in use. As many tags go as the module has names.
pub proof fn scrub_undoes_lone_install(m: OntologyModel, next: int, module: ModuleModel)
    requires
        0 <= next,
        stands_alone(m, module),
        !m.modules.contains_key(module.id),
        registered(m, next, module.tags, module.tags.len() as int).next <= u32::MAX,
        unused(m, next, registered(m, next, module.tags, module.tags.len() as int).next),
        installed(m, next, module) is Ok,
    ensures
        scrubbed(installed(m, next, module)->Ok_0.model, module.id) == m,
        own_count(
            installed(m, next, module)->Ok_0.model.modules[module.id].tags,
            installed(m, next, module)->Ok_0.model.modules.remove(module.id),
        ) == tag_names(module.tags, module.tags.len() as int).len(),
{
    let k = module.tags.len() as int;
    let reg = registered(m, next, module.tags, k);
    let to = reg.next;
    let names = tag_names(module.tags, k);
    lemma_own_registered(m, next, module.tags, k, k);
    assert forall|x: Seq<char>| #[trigger] defines(module.tags, x) implies issued(
        reg.model.names[x],
        next,
        to,
    ) by {
        lemma_tag_names(module.tags, k, x);
        let i = choose|i: int| 0 <= i < k && (#[trigger] module.tags[i]).name == x;
        assert(names.contains(x));
    }
    let j = module.implications.len() as int;
    lemma_own_linked(reg.model, module.implications, j, next, to);
    let (n, imps) = linked(reg.model, module.implications, j)->Ok_0;
    let i = module.relations.len() as int;
    lemma_own_related(n, module.relations, i, next, to);
    lemma_relations_added(n, module.relations, i);
    let (q, rels) = related(n, module.relations, i)->Ok_0;
    let f = installed(m, next, module)->Ok_0.model;
    let rec = f.modules[module.id];
    let others = f.modules.remove(module.id);
    assert(others =~= m.modules);
    assert(rec.tags == reg.fresh && rec.implications == imps && rec.relations == rels);
    let tags = own_tags(rec.tags, others);
    let edges = own_edges(rec.implications, others);
    let relations = own_relations(rec.relations, others);
    let s = scrubbed(f, module.id);
    assert forall|t: TagId| #[trigger] tags.contains(t) <==> issued(t, next, to) by {
        assert(reg.fresh.contains(t) <==> issued(t, next, to));
    }
    assert forall|t: TagId| #[trigger] m.tags.contains_key(t) implies s.tags.contains_key(t)
        && s.tags[t] == m.tags[t] by {
        assert(reg.model.tags.contains_key(t));
        assert(!issued(t, next, to));
        assert(f.tags.dom().contains(t));
        assert(f.tags[t] == m.tags[t]);
        let a = m.tags[t].implies;
        assert forall|x: int| 0 <= x < a.len() implies !edges.contains((t, #[trigger] a[x])) by {
            if imps.contains((t, a[x])) {
                assert(issued(t, next, to));
            }
        }
        lemma_kept_prefix(a, t, edges, a.len() as int);
        assert(a.take(a.len() as int) =~= a);
    }
    assert(s.tags =~= m.tags) by {
        assert forall|t: TagId| #[trigger] s.tags.contains_key(t) implies m.tags.contains_key(
            t,
        ) by {
            assert(f.tags.dom().contains(t));
            assert(reg.model.tags.contains_key(t));
        }
    }
    assert(s.names =~= m.names) by {
        let gone = names_of(f.tags, tags);
        assert forall|x: Seq<char>| #[trigger] gone.contains(x) <==> names.contains(x) by {
            if gone.contains(x) {
                let t = choose|t: TagId| #[trigger]
                    tags.contains(t) && f.tags.contains_key(t) && f.tags[t].name == x;
                assert(f.tags.dom().contains(t));
                assert(reg.model.tags.contains_key(t));
            }
            if names.contains(x) {
                let t = reg.model.names[x];
                assert(tags.contains(t));
                assert(reg.model.tags.contains_key(t));
                assert(f.tags.dom().contains(t));
                assert(f.tags.contains_key(t) && f.tags[t].name == x);
            }
        }
        assert(f.names == reg.model.names);
        assert forall|x: Seq<char>| #[trigger] s.names.contains_key(x) <==> m.names.contains_key(
            x,
        ) by {
            assert(reg.model.names.contains_key(x) <==> m.names.contains_key(x) || names.contains(
                x,
            ));
        }
    }
    assert(s.dag.tags =~= m.dag.tags) by {
        assert forall|t: TagId| s.dag.tags.contains(t) <==> #[trigger] m.dag.tags.contains(t) by {
            assert(reg.model.dag.tags.contains(t) <==> m.dag.tags.contains(t) || issued(
                t,
                next,
                to,
            ));
            assert(f.dag.tags == reg.model.dag.tags);
        }
    }
    assert(s.dag.edges =~= m.dag.edges) by {
        assert forall|e: (TagId, TagId)| s.dag.edges.contains(e) <==> #[trigger]
            m.dag.edges.contains(e) by {
            assert(f.dag.edges.contains(e) <==> m.dag.edges.contains(e) || imps.contains(e));
            if imps.contains(e) {
                assert(tags.contains(e.0));
            }
        }
    }
    assert(s.relations == m.relations) by {
        assert forall|x: int| 0 <= x < m.relations.len() implies !relations.contains(
            #[trigger] q.relations[x],
        ) by {
            assert(q.relations.take(m.relations.len() as int)[x] == q.relations[x]);
            assert(m.relations[x] == q.relations[x]);
            assert(m.relations.contains(q.relations[x]));
        }
        assert forall|x: int| m.relations.len() <= x < q.relations.len() implies relations.contains(
            #[trigger] q.relations[x],
        ) by {
            assert(rels.contains(q.relations[x]));
            assert(issued(q.relations[x].0, next, to));
        }
        lemma_kept_relations_prefix(q.relations, relations, m.relations.len() as int);
    }
    assert(s.modules =~= m.modules);
    assert(s =~= m);
    lemma_own_count(rec.tags, others);
}

} // verus!
