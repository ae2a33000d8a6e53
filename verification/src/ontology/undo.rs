//! Taking a module out again undoes its installation.

use vstd::prelude::*;
use crate::ontology::laws::{fresh_ids_are_unused, ids_below, install_keeps_consistent,
    lemma_install_modules, lemma_registered_consistent};
use crate::ontology::module::ModuleModel;
use crate::ontology::scrub::{edge_claimed, kept_relations, kept_targets, lemma_kept_relations,
    names_of, own_edges, own_relations, own_tags, relation_claimed, scrubbed, tag_claimed};
use crate::ontology::state::{consistent, empty_model, installed, lemma_registered_grows, linked,
    registered, related, with_implication, OntologyModel, RecordModel, Relation};
use crate::ontology::upgrade::{fresh_next, largest, merged, merged_record, upgraded, without_record};
use crate::types::id::TagId;
use crate::types::tag::{TagModel, TagRelation};

verus! {

/// What the registry holds is accounted for: every implication and relation is
/// listed by an installed module, what modules list and tags imply is there as
/// long as its tags are, and no id at or past `next` occurs anywhere.
pub open spec fn accounted(m: OntologyModel, next: int) -> bool {
    &&& forall|e: (TagId, TagId)| #[trigger]
        m.dag.edges.contains(e) ==> {
            &&& edge_claimed(m.modules, e)
            &&& m.tags.contains_key(e.0)
            &&& m.tags.contains_key(e.1)
            &&& m.tags[e.0].implies.contains(e.1)
        }
    &&& forall|e: (TagId, TagId)| #[trigger]
        edge_claimed(m.modules, e) ==> {
            &&& e.0.id < next
            &&& e.1.id < next
            &&& m.tags.contains_key(e.0) && m.tags.contains_key(e.1) ==> m.dag.edges.contains(e)
        }
    &&& forall|t: TagId, u: TagId|
        m.tags.contains_key(t) && #[trigger] m.tags[t].implies.contains(u) ==> {
            &&& u.id < next
            &&& m.tags.contains_key(u) ==> m.dag.edges.contains((t, u))
        }
    &&& forall|e: Relation| #[trigger]
        relation_claimed(m.modules, e) <==> m.relations.contains(e)
    &&& forall|t: TagId| #[trigger] tag_claimed(m.modules, t) ==> t.id < next
}

/// `r` is `m` with some definitions added under the ids in `fresh`.
pub open spec fn tags_added(m: OntologyModel, r: OntologyModel, next: int, fresh: Seq<TagId>) -> bool {
    &&& forall|t: TagId| #[trigger]
        r.tags.contains_key(t) <==> m.tags.contains_key(t) || fresh.contains(t)
    &&& forall|t: TagId| #[trigger] m.tags.contains_key(t) ==> r.tags[t] == m.tags[t]
    &&& forall|t: TagId| #[trigger] fresh.contains(t) ==> t.id >= next
    &&& forall|x: Seq<char>| #[trigger]
        m.names.contains_key(x) ==> r.names.contains_key(x) && r.names[x] == m.names[x]
    &&& r.dag.edges == m.dag.edges
    &&& r.relations == m.relations
    &&& r.modules == m.modules
}

proof fn lemma_tags_added(m: OntologyModel, next: int, defs: Seq<TagModel>, k: int, n: int)
    requires
        consistent(m),
        ids_below(m, next),
        0 <= next,
        0 <= k <= n <= defs.len(),
        registered(m, next, defs, n).next <= u32::MAX,
    ensures
        tags_added(
            m,
            registered(m, next, defs, k).model,
            next,
            registered(m, next, defs, k).fresh,
        ),
        registered(m, next, defs, k).next >= next,
    decreases k,
{
    if k > 0 {
        lemma_tags_added(m, next, defs, k - 1, n);
        lemma_registered_grows(m, next, defs, k, n);
        let r = registered(m, next, defs, k - 1);
        let s = registered(m, next, defs, k);
        let d = defs[k - 1];
        if !r.model.names.contains_key(d.name) {
            let id = TagId { id: r.next as u32 };
            assert(id.id == r.next);
            assert forall|t: TagId| #[trigger] s.fresh.contains(t) <==> r.fresh.contains(t) || t
                == id by {
                if r.fresh.contains(t) {
                    let i = r.fresh.index_of(t);
                    assert(s.fresh[i] == t);
                }
                assert(s.fresh[r.fresh.len() as int] == id);
            }
        }
    }
}

/// `n` is `m` with the implications `added`.
pub open spec fn edges_added(
    m: OntologyModel,
    n: OntologyModel,
    added: Seq<(TagId, TagId)>,
) -> bool {
    &&& n.names == m.names
    &&& n.relations == m.relations
    &&& n.modules == m.modules
    &&& n.dag.tags == m.dag.tags
    &&& n.tags.dom() == m.tags.dom()
    &&& forall|e: (TagId, TagId)| #[trigger]
        n.dag.edges.contains(e) <==> m.dag.edges.contains(e) || added.contains(e)
    &&& forall|e: (TagId, TagId)| #[trigger]
        added.contains(e) ==> m.dag.tags.contains(e.0) && m.dag.tags.contains(e.1)
    &&& forall|t: TagId| #[trigger]
        m.tags.contains_key(t) ==> {
            &&& n.tags[t] == TagModel { implies: n.tags[t].implies, ..m.tags[t] }
            &&& m.tags[t].implies.len() <= n.tags[t].implies.len()
            &&& n.tags[t].implies.take(m.tags[t].implies.len() as int) == m.tags[t].implies
        }
    &&& forall|t: TagId, j: int|
        m.tags.contains_key(t) && m.tags[t].implies.len() <= j < n.tags[t].implies.len() ==> {
            &&& added.contains((t, #[trigger] n.tags[t].implies[j]))
            &&& !m.tags[t].implies.contains(n.tags[t].implies[j])
        }
    &&& forall|e: (TagId, TagId)|
        #[trigger] added.contains(e) && m.tags.contains_key(e.0)
            ==> n.tags[e.0].implies.contains(e.1)
}

pub(crate) proof fn lemma_edges_added(m: OntologyModel, imps: Seq<(Seq<char>, Seq<char>)>, k: int)
    requires
        linked(m, imps, k) is Ok,
    ensures
        edges_added(m, linked(m, imps, k)->Ok_0.0, linked(m, imps, k)->Ok_0.1),
    decreases k,
{
    if k > 0 {
        lemma_edges_added(m, imps, k - 1);
        let (n, added) = linked(m, imps, k - 1)->Ok_0;
        let (q, all) = linked(m, imps, k)->Ok_0;
        let from = n.names[imps[k - 1].0];
        let to = n.names[imps[k - 1].1];
        assert(q == with_implication(n, from, to));
        assert(all == added.push((from, to)));
        assert forall|e: (TagId, TagId)| #[trigger] all.contains(e) <==> added.contains(e) || e == (
            from,
            to,
        ) by {
            if added.contains(e) {
                let i = added.index_of(e);
                assert(all[i] == e);
            }
            assert(all[added.len() as int] == (from, to));
        }
        assert(q.tags.dom() =~= m.tags.dom());
        assert forall|t: TagId| #[trigger] m.tags.contains_key(t) implies {
            &&& q.tags[t] == TagModel { implies: q.tags[t].implies, ..m.tags[t] }
            &&& m.tags[t].implies.len() <= q.tags[t].implies.len()
            &&& q.tags[t].implies.take(m.tags[t].implies.len() as int) == m.tags[t].implies
        } by {
            assert(n.tags.contains_key(t));
            assert(q.tags[t].implies.take(m.tags[t].implies.len() as int) =~= n.tags[t].implies.take(
                m.tags[t].implies.len() as int,
            ));
        }
        assert forall|t: TagId, j: int|
            m.tags.contains_key(t) && m.tags[t].implies.len() <= j
                < q.tags[t].implies.len() implies all.contains(
            (t, #[trigger] q.tags[t].implies[j]),
        ) && !m.tags[t].implies.contains(q.tags[t].implies[j]) by {
            assert(n.tags.contains_key(t));
            if j < n.tags[t].implies.len() {
                assert(q.tags[t].implies[j] == n.tags[t].implies[j]);
                assert(added.contains((t, n.tags[t].implies[j])));
            } else {
                assert(t == from && q.tags[t].implies[j] == to);
                assert(all.contains((from, to)));
                if m.tags[t].implies.contains(to) {
                    let i = m.tags[t].implies.index_of(to);
                    assert(n.tags[t].implies.take(m.tags[t].implies.len() as int)[i] == to);
                    assert(n.tags[t].implies[i] == to);
                }
            }
        }
        assert forall|e: (TagId, TagId)|
            #[trigger] all.contains(e) && m.tags.contains_key(
                e.0,
            ) implies q.tags[e.0].implies.contains(e.1) by {
            assert(n.tags.contains_key(e.0));
            if n.tags[e.0].implies.contains(e.1) {
                let i = n.tags[e.0].implies.index_of(e.1);
                assert(q.tags[e.0].implies[i] == e.1);
            } else {
                assert(e == (from, to));
                assert(q.tags[from].implies[n.tags[from].implies.len() as int] == to);
            }
        }
    } else {
        assert forall|t: TagId| #[trigger] m.tags.contains_key(t) implies m.tags[t].implies.take(
            m.tags[t].implies.len() as int,
        ) == m.tags[t].implies by {
            assert(m.tags[t].implies.take(m.tags[t].implies.len() as int) =~= m.tags[t].implies);
        }
    }
}

/// `q` is `m` with the relations `added`.
pub open spec fn relations_added(m: OntologyModel, q: OntologyModel, added: Seq<Relation>) -> bool {
    &&& q == OntologyModel { relations: q.relations, ..m }
    &&& m.relations.len() <= q.relations.len()
    &&& q.relations.take(m.relations.len() as int) == m.relations
    &&& forall|j: int|
        m.relations.len() <= j < q.relations.len() ==> added.contains(#[trigger] q.relations[j])
            && !m.relations.contains(q.relations[j])
    &&& forall|e: Relation| #[trigger] added.contains(e) ==> q.relations.contains(e)
}

pub(crate) proof fn lemma_relations_added(
    m: OntologyModel,
    rels: Seq<(Seq<char>, TagRelation, Seq<char>)>,
    k: int,
)
    requires
        related(m, rels, k) is Ok,
    ensures
        relations_added(m, related(m, rels, k)->Ok_0.0, related(m, rels, k)->Ok_0.1),
    decreases k,
{
    if k > 0 {
        lemma_relations_added(m, rels, k - 1);
        let (n, added) = related(m, rels, k - 1)->Ok_0;
        let (q, all) = related(m, rels, k)->Ok_0;
        let e = (n.names[rels[k - 1].0], rels[k - 1].1, n.names[rels[k - 1].2]);
        assert(all == added.push(e));
        assert(q.relations.take(m.relations.len() as int) =~= n.relations.take(
            m.relations.len() as int,
        ));
        assert forall|x: Relation| #[trigger] all.contains(x) <==> added.contains(x) || x == e by {
            if added.contains(x) {
                let i = added.index_of(x);
                assert(all[i] == x);
            }
            assert(all[added.len() as int] == e);
        }
        assert forall|j: int| m.relations.len() <= j < q.relations.len() implies all.contains(
            #[trigger] q.relations[j],
        ) && !m.relations.contains(q.relations[j]) by {
            if j < n.relations.len() {
                assert(q.relations[j] == n.relations[j]);
                assert(added.contains(n.relations[j]));
            } else {
                assert(q.relations[j] == e);
                if m.relations.contains(e) {
                    let i = m.relations.index_of(e);
                    assert(n.relations.take(m.relations.len() as int)[i] == e);
                    assert(n.relations[i] == e);
                }
            }
        }
        assert forall|x: Relation| #[trigger] all.contains(x) implies q.relations.contains(x) by {
            if n.relations.contains(x) {
                let i = n.relations.index_of(x);
                assert(q.relations[i] == x);
            } else {
                assert(x == e);
                assert(q.relations[n.relations.len() as int] == e);
            }
        }
    } else {
        assert(m.relations.take(m.relations.len() as int) =~= m.relations);
    }
}

/// Of a list whose first `k` targets stay and whose others go, the first `k`
/// are left.
pub(crate) proof fn lemma_kept_prefix(s: Seq<TagId>, t: TagId, gone: Set<(TagId, TagId)>, k: int)
    requires
        0 <= k <= s.len(),
        forall|j: int| 0 <= j < k ==> !gone.contains((t, #[trigger] s[j])),
        forall|j: int| k <= j < s.len() ==> gone.contains((t, #[trigger] s[j])),
    ensures
        kept_targets(s, t, gone) == s.take(k),
    decreases s.len(),
{
    if s.len() > 0 {
        let front = s.drop_last();
        if k < s.len() {
            assert(gone.contains((t, s[s.len() - 1])));
            lemma_kept_prefix(front, t, gone, k);
            assert(front.take(k) =~= s.take(k));
        } else {
            assert(!gone.contains((t, s[s.len() - 1])));
            lemma_kept_prefix(front, t, gone, k - 1);
            assert(front.take(k - 1).push(s.last()) =~= s.take(k));
        }
    } else {
        assert(s.take(k) =~= s);
    }
}

/// The same for relations.
pub(crate) proof fn lemma_kept_relations_prefix(s: Seq<Relation>, gone: Set<Relation>, k: int)
    requires
        0 <= k <= s.len(),
        forall|j: int| 0 <= j < k ==> !gone.contains(#[trigger] s[j]),
        forall|j: int| k <= j < s.len() ==> gone.contains(#[trigger] s[j]),
    ensures
        kept_relations(s, gone) == s.take(k),
    decreases s.len(),
{
    if s.len() > 0 {
        let front = s.drop_last();
        if k < s.len() {
            assert(gone.contains(s[s.len() - 1]));
            lemma_kept_relations_prefix(front, gone, k);
            assert(front.take(k) =~= s.take(k));
        } else {
            assert(!gone.contains(s[s.len() - 1]));
            lemma_kept_relations_prefix(front, gone, k - 1);
            assert(front.take(k - 1).push(s.last()) =~= s.take(k));
        }
    } else {
        assert(s.take(k) =~= s);
    }
}

/// A module that is taken out right after it was installed leaves the registry
/// as it was.
pub proof fn scrub_undoes_install(m: OntologyModel, next: int, module: ModuleModel)
    requires
        consistent(m),
        ids_below(m, next),
        0 <= next,
        accounted(m, next),
        !m.modules.contains_key(module.id),
        registered(m, next, module.tags, module.tags.len() as int).next <= u32::MAX,
        installed(m, next, module) is Ok,
    ensures
        scrubbed(installed(m, next, module)->Ok_0.model, module.id) == m,
{
    let k = module.tags.len() as int;
    let reg = registered(m, next, module.tags, k);
    lemma_tags_added(m, next, module.tags, k, k);
    let j = module.implications.len() as int;
    lemma_edges_added(reg.model, module.implications, j);
    let (n, imps) = linked(reg.model, module.implications, j)->Ok_0;
    let i = module.relations.len() as int;
    lemma_relations_added(n, module.relations, i);
    let (q, rels) = related(n, module.relations, i)->Ok_0;
    let f = installed(m, next, module)->Ok_0.model;
    install_keeps_consistent(m, next, module);
    let rec = f.modules[module.id];
    let others = f.modules.remove(module.id);
    assert(others =~= m.modules);
    let tags = own_tags(rec.tags, others);
    let edges = own_edges(rec.implications, others);
    let relations = own_relations(rec.relations, others);
    let s = scrubbed(f, module.id);
    assert(rec.tags == reg.fresh && rec.implications == imps && rec.relations == rels);
    assert(f.dag.tags == f.tags.dom());
    assert(reg.model.dag.tags == n.dag.tags);
    assert(f.tags.dom() =~= reg.model.tags.dom());
    assert(reg.model.dag.tags == f.tags.dom());
    assert forall|t: TagId| #[trigger] tags.contains(t) <==> reg.fresh.contains(t) by {
        if reg.fresh.contains(t) {
            assert(t.id >= next);
            assert(!tag_claimed(others, t));
        }
    }
    assert forall|t: TagId| #[trigger] m.tags.contains_key(t) implies !tags.contains(t) by {
        assert(t.id < next);
    }
    assert forall|e: (TagId, TagId)| #[trigger] edges.contains(e) implies imps.contains(e)
        && !m.dag.edges.contains(e) by {}
    assert forall|e: (TagId, TagId)|
        #[trigger] imps.contains(e) && m.tags.contains_key(e.0) implies edges.contains(e)
        || m.dag.edges.contains(e) by {
        if edge_claimed(others, e) {
            assert(e.1.id < next);
            assert(reg.model.tags.contains_key(e.1));
            assert(!reg.fresh.contains(e.1));
            assert(m.tags.contains_key(e.1));
        }
    }
    assert forall|t: TagId| #[trigger] m.tags.contains_key(t) implies s.tags.contains_key(t)
        && s.tags[t] == m.tags[t] by {
        let a = m.tags[t].implies;
        let b = f.tags[t].implies;
        assert(reg.model.tags.contains_key(t));
        assert(reg.model.tags[t] == m.tags[t]);
        assert(b == n.tags[t].implies);
        assert(f.tags.contains_key(t));
        assert forall|x: int| 0 <= x < a.len() implies !edges.contains((t, #[trigger] b[x])) by {
            assert(b.take(a.len() as int)[x] == b[x]);
            assert(a[x] == b[x]);
            assert(a.contains(b[x]));
            if imps.contains((t, b[x])) {
                assert(reg.model.tags.contains_key(b[x]));
                if reg.fresh.contains(b[x]) {
                    assert(b[x].id >= next);
                }
                assert(m.tags.contains_key(b[x]));
                assert(m.dag.edges.contains((t, b[x])));
            }
        }
        assert forall|x: int| a.len() <= x < b.len() implies edges.contains(
            (t, #[trigger] b[x]),
        ) by {
            assert(imps.contains((t, b[x])));
            assert(!a.contains(b[x]));
            if m.dag.edges.contains((t, b[x])) {
                assert(m.tags[t].implies.contains(b[x]));
            }
        }
        lemma_kept_prefix(b, t, edges, a.len() as int);
    }
    assert(s.tags =~= m.tags) by {
        assert forall|t: TagId| #[trigger] s.tags.contains_key(t) implies m.tags.contains_key(
            t,
        ) by {
            assert(f.tags.contains_key(t));
            assert(reg.model.tags.contains_key(t));
        }
    }
    assert(s.names =~= m.names) by {
        lemma_names_undone(m, f, reg.fresh, tags);
    }
    assert(s.dag.tags =~= m.dag.tags) by {
        assert forall|t: TagId| s.dag.tags.contains(t) <==> #[trigger] m.dag.tags.contains(t) by {
            assert(reg.model.tags.contains_key(t) <==> m.tags.contains_key(t)
                || reg.fresh.contains(t));
            assert(m.tags.contains_key(t) <==> m.dag.tags.contains(t));
            assert(f.tags.contains_key(t) <==> f.dag.tags.contains(t));
            assert(f.tags.contains_key(t) <==> reg.model.tags.contains_key(t));
        }
    }
    assert(s.dag.edges =~= m.dag.edges) by {
        assert forall|e: (TagId, TagId)| s.dag.edges.contains(e) <==> #[trigger]
            m.dag.edges.contains(e) by {
            if s.dag.edges.contains(e) && !m.dag.edges.contains(e) {
                assert(f.dag.edges.contains(e));
                assert(imps.contains(e));
                assert(reg.model.tags.contains_key(e.0));
                assert(!tags.contains(e.0));
                assert(m.tags.contains_key(e.0));
                assert(edges.contains(e));
            }
            if m.dag.edges.contains(e) {
                assert(m.tags.contains_key(e.0) && m.tags.contains_key(e.1));
                assert(f.dag.edges.contains(e));
            }
        }
    }
    assert(s.relations == m.relations) by {
        assert forall|x: int| 0 <= x < m.relations.len() implies !relations.contains(
            #[trigger] q.relations[x],
        ) by {
            assert(q.relations.take(m.relations.len() as int)[x] == q.relations[x]);
            assert(m.relations[x] == q.relations[x]);
            assert(m.relations.contains(q.relations[x]));
        }
        assert forall|x: int| m.relations.len() <= x < q.relations.len() implies relations.contains(
            #[trigger] q.relations[x],
        ) by {
            assert(rels.contains(q.relations[x]));
            assert(!m.relations.contains(q.relations[x]));
        }
        lemma_kept_relations_prefix(q.relations, relations, m.relations.len() as int);
    }
    assert(s.modules =~= m.modules);
    assert(s =~= m);
}

/// In the empty registry there is nothing to account for.
pub proof fn empty_is_accounted(next: int)
    ensures
        accounted(empty_model(), next),
{
}

proof fn lemma_fresh_imply_nothing(
    m: OntologyModel,
    next: int,
    defs: Seq<TagModel>,
    k: int,
    n: int,
)
    requires
        consistent(m),
        ids_below(m, next),
        0 <= next,
        0 <= k <= n <= defs.len(),
        registered(m, next, defs, n).next <= u32::MAX,
        forall|i: int| 0 <= i < defs.len() ==> (#[trigger] defs[i]).implies.len() == 0,
    ensures
        forall|t: TagId| #[trigger]
            registered(m, next, defs, k).model.tags.contains_key(t) && !m.tags.contains_key(t)
                ==> registered(m, next, defs, k).model.tags[t].implies.len() == 0,
    decreases k,
{
    if k > 0 {
        lemma_fresh_imply_nothing(m, next, defs, k - 1, n);
        lemma_registered_grows(m, next, defs, k, n);
        let r = registered(m, next, defs, k - 1);
        let s = registered(m, next, defs, k);
        assert(defs[k - 1].implies.len() == 0);
        assert forall|t: TagId| #[trigger]
            s.model.tags.contains_key(t) && !m.tags.contains_key(
                t,
            ) implies s.model.tags[t].implies.len() == 0 by {
            if r.model.tags.contains_key(t) && t != (TagId { id: r.next as u32 }) {
            }
        }
    }
}

/// The module records `mods` list what those of `old` list and what `rec` lists.
spec fn claims_added(
    old: Map<Seq<char>, RecordModel>,
    rec: RecordModel,
    mods: Map<Seq<char>, RecordModel>,
) -> bool {
    &&& forall|e: (TagId, TagId)| #[trigger]
        edge_claimed(mods, e) <==> edge_claimed(old, e) || rec.implications.contains(e)
    &&& forall|e: Relation| #[trigger]
        relation_claimed(mods, e) <==> relation_claimed(old, e) || rec.relations.contains(e)
    &&& forall|t: TagId| #[trigger]
        tag_claimed(mods, t) ==> tag_claimed(old, t) || rec.tags.contains(t)
}

/// What the registry holds is accounted for after a module was installed into
/// `m`, or into `w`, which differs from `m` in its records alone.
proof fn lemma_installed_accounted(
    m: OntologyModel,
    w: OntologyModel,
    next: int,
    module: ModuleModel,
    mods: Map<Seq<char>, RecordModel>,
)
    requires
        consistent(m),
        consistent(w),
        w == (OntologyModel { modules: w.modules, ..m }),
        ids_below(m, next),
        0 <= next,
        accounted(m, next),
        registered(w, next, module.tags, module.tags.len() as int).next <= u32::MAX,
        installed(w, next, module) is Ok,
        forall|i: int|
            0 <= i < module.tags.len() ==> (#[trigger] module.tags[i]).implies.len() == 0,
        claims_added(
            m.modules,
            installed(w, next, module)->Ok_0.model.modules[module.id],
            mods,
        ),
    ensures
        accounted(
            (OntologyModel { modules: mods, ..installed(w, next, module)->Ok_0.model }),
            registered(w, next, module.tags, module.tags.len() as int).next,
        ),
{
    let k = module.tags.len() as int;
    let reg = registered(w, next, module.tags, k);
    lemma_tags_added(w, next, module.tags, k, k);
    lemma_fresh_imply_nothing(w, next, module.tags, k, k);
    let j = module.implications.len() as int;
    lemma_edges_added(reg.model, module.implications, j);
    let (n, imps) = linked(reg.model, module.implications, j)->Ok_0;
    let i = module.relations.len() as int;
    lemma_relations_added(n, module.relations, i);
    let (q, rels) = related(n, module.relations, i)->Ok_0;
    let f = installed(w, next, module)->Ok_0.model;
    install_keeps_consistent(w, next, module);
    let rec = f.modules[module.id];
    let base = reg.model;
    let g = OntologyModel { modules: mods, ..f };
    assert(rec.tags == reg.fresh && rec.implications == imps && rec.relations == rels);
    assert(f.tags.dom() =~= base.tags.dom());
    assert(base.dag.tags == f.tags.dom());
    assert forall|t: TagId| g.tags.contains_key(t) && t.id < next implies #[trigger] m.tags.contains_key(
        t,
    ) by {
        assert(base.tags.contains_key(t));
        assert(!reg.fresh.contains(t));
    }
    assert forall|e: (TagId, TagId)| #[trigger] g.dag.edges.contains(e) implies {
        &&& edge_claimed(g.modules, e)
        &&& g.tags.contains_key(e.0)
        &&& g.tags.contains_key(e.1)
        &&& g.tags[e.0].implies.contains(e.1)
    } by {
        if m.dag.edges.contains(e) {
            assert(m.tags.contains_key(e.0));
            assert(base.tags.contains_key(e.0) && base.tags.contains_key(e.1));
            let a = m.tags[e.0].implies;
            let x = a.index_of(e.1);
            assert(g.tags[e.0].implies.take(a.len() as int)[x] == e.1);
            assert(g.tags[e.0].implies[x] == e.1);
        } else {
            assert(imps.contains(e));
            assert(base.tags.contains_key(e.0));
        }
    }
    assert forall|e: (TagId, TagId)| #[trigger] edge_claimed(g.modules, e) implies {
        &&& e.0.id < reg.next
        &&& e.1.id < reg.next
        &&& g.tags.contains_key(e.0) && g.tags.contains_key(e.1) ==> g.dag.edges.contains(e)
    } by {
        if imps.contains(e) {
            assert(g.tags.contains_key(e.0) && g.tags.contains_key(e.1));
            assert(g.dag.edges.contains(e));
        } else {
            assert(edge_claimed(m.modules, e));
            if g.tags.contains_key(e.0) && g.tags.contains_key(e.1) {
                assert(m.tags.contains_key(e.0) && m.tags.contains_key(e.1));
                assert(m.dag.edges.contains(e));
                assert(g.dag.edges.contains(e));
            }
        }
    }
    assert forall|t: TagId, u: TagId|
        g.tags.contains_key(t) && #[trigger] g.tags[t].implies.contains(u) implies {
        &&& u.id < reg.next
        &&& g.tags.contains_key(u) ==> g.dag.edges.contains((t, u))
    } by {
        let b = g.tags[t].implies;
        let x = b.index_of(u);
        assert(base.tags.contains_key(t));
        let a = base.tags[t].implies;
        assert(b == n.tags[t].implies);
        if x >= a.len() {
            assert(imps.contains((t, b[x])));
            assert(g.tags.contains_key(u));
            assert(g.dag.edges.contains((t, u)));
        } else {
            assert(b.take(a.len() as int)[x] == b[x]);
            assert(a[x] == u && a.contains(u));
            assert(m.tags.contains_key(t));
            assert(m.tags[t].implies.contains(u));
            if g.tags.contains_key(u) {
                assert(m.tags.contains_key(u));
                assert(m.dag.edges.contains((t, u)));
                assert(g.dag.edges.contains((t, u)));
            }
        }
    }
    assert forall|e: Relation| #[trigger] relation_claimed(g.modules, e) <==> g.relations.contains(
        e,
    ) by {
        if m.relations.contains(e) {
            let x = m.relations.index_of(e);
            assert(q.relations.take(m.relations.len() as int)[x] == e);
            assert(q.relations[x] == e);
        }
        if q.relations.contains(e) {
            let x = q.relations.index_of(e);
            if x < m.relations.len() {
                assert(q.relations.take(m.relations.len() as int)[x] == q.relations[x]);
                assert(m.relations[x] == e);
                assert(relation_claimed(m.modules, e));
            } else {
                assert(rels.contains(q.relations[x]));
            }
        }
    }
    assert forall|t: TagId| #[trigger] tag_claimed(g.modules, t) implies t.id < reg.next by {
        if reg.fresh.contains(t) {
            assert(g.tags.contains_key(t));
        }
    }
}

/// What the registry holds is accounted for after a module was installed,
/// whose definitions bring no lists of implied tags.
pub proof fn install_keeps_accounted(m: OntologyModel, next: int, module: ModuleModel)
    requires
        consistent(m),
        ids_below(m, next),
        0 <= next,
        accounted(m, next),
        !m.modules.contains_key(module.id),
        registered(m, next, module.tags, module.tags.len() as int).next <= u32::MAX,
        installed(m, next, module) is Ok,
        forall|i: int|
            0 <= i < module.tags.len() ==> (#[trigger] module.tags[i]).implies.len() == 0,
    ensures
        accounted(
            installed(m, next, module)->Ok_0.model,
            registered(m, next, module.tags, module.tags.len() as int).next,
        ),
{
    let f = installed(m, next, module)->Ok_0.model;
    let rec = f.modules[module.id];
    lemma_install_modules(m, next, module);
    lemma_claims_added(m.modules, module.id, rec, rec);
    assert(f.modules =~= m.modules.insert(module.id, rec)) by {
        assert(m.modules.remove(module.id) =~= m.modules);
    }
    lemma_installed_accounted(m, m, next, module, f.modules);
    assert((OntologyModel { modules: f.modules, ..f }) =~= f);
}

/// A record that lists what the one in its place listed and what `rec` lists
/// adds the latter.
proof fn lemma_claims_added(
    old: Map<Seq<char>, RecordModel>,
    id: Seq<char>,
    rec: RecordModel,
    all: RecordModel,
)
    requires
        forall|e: (TagId, TagId)| #[trigger]
            all.implications.contains(e) <==> old.contains_key(id)
                && old[id].implications.contains(e) || rec.implications.contains(e),
        forall|e: Relation| #[trigger]
            all.relations.contains(e) <==> old.contains_key(id) && old[id].relations.contains(e)
                || rec.relations.contains(e),
        forall|t: TagId| #[trigger]
            all.tags.contains(t) <==> old.contains_key(id) && old[id].tags.contains(t)
                || rec.tags.contains(t),
    ensures
        claims_added(old, rec, old.insert(id, all)),
{
    let mods = old.insert(id, all);
    assert forall|e: (TagId, TagId)| #[trigger] edge_claimed(mods, e) <==> edge_claimed(old, e)
        || rec.implications.contains(e) by {
        if edge_claimed(old, e) {
            let x = choose|x: Seq<char>| #[trigger]
                old.contains_key(x) && old[x].implications.contains(e);
            assert(mods.contains_key(x) && mods[x].implications.contains(e));
        }
        if rec.implications.contains(e) {
            assert(mods.contains_key(id) && mods[id].implications.contains(e));
        }
        if edge_claimed(mods, e) {
            let x = choose|x: Seq<char>| #[trigger]
                mods.contains_key(x) && mods[x].implications.contains(e);
            if x != id {
                assert(old.contains_key(x) && old[x].implications.contains(e));
            }
        }
    }
    assert forall|e: Relation| #[trigger] relation_claimed(mods, e) <==> relation_claimed(old, e)
        || rec.relations.contains(e) by {
        if relation_claimed(old, e) {
            let x = choose|x: Seq<char>| #[trigger]
                old.contains_key(x) && old[x].relations.contains(e);
            assert(mods.contains_key(x) && mods[x].relations.contains(e));
        }
        if rec.relations.contains(e) {
            assert(mods.contains_key(id) && mods[id].relations.contains(e));
        }
        if relation_claimed(mods, e) {
            let x = choose|x: Seq<char>| #[trigger]
                mods.contains_key(x) && mods[x].relations.contains(e);
            if x != id {
                assert(old.contains_key(x) && old[x].relations.contains(e));
            }
        }
    }
    assert forall|t: TagId| #[trigger] tag_claimed(mods, t) implies tag_claimed(old, t)
        || rec.tags.contains(t) by {
        let x = choose|x: Seq<char>| #[trigger] mods.contains_key(x) && mods[x].tags.contains(t);
        if x != id {
            assert(old.contains_key(x) && old[x].tags.contains(t));
        }
    }
}

/// What a merged list holds.
pub(crate) proof fn lemma_merged<A>(a: Seq<A>, b: Seq<A>)
    ensures
        forall|x: A| #[trigger] merged(a, b).contains(x) <==> a.contains(x) || b.contains(x),
    decreases b.len(),
{
    if b.len() > 0 {
        let front = b.drop_last();
        lemma_merged(a, front);
        let s = merged(a, front);
        assert forall|x: A| #[trigger] merged(a, b).contains(x) <==> a.contains(x) || b.contains(
            x,
        ) by {
            assert(b.contains(x) <==> front.contains(x) || x == b.last()) by {
                if front.contains(x) {
                    let i = front.index_of(x);
                    assert(b[i] == x);
                }
                if b.contains(x) {
                    let i = b.index_of(x);
                    if i < front.len() {
                        assert(front[i] == x);
                    }
                }
                assert(b[b.len() - 1] == b.last());
            }
            if !s.contains(b.last()) {
                let t = s.push(b.last());
                if s.contains(x) {
                    let i = s.index_of(x);
                    assert(t[i] == x);
                }
                assert(t[s.len() as int] == b.last());
            }
        }
    }
}

/// `next` follows the largest id, or is `1` where there is no tag.
spec fn follows_largest(m: OntologyModel, next: int) -> bool {
    &&& ids_below(m, next)
    &&& m.tags.dom() == Set::<TagId>::empty() && next == 1 || exists|t: TagId| #[trigger]
        m.tags.contains_key(t) && t.id == next - 1
}

proof fn lemma_follows_largest(m: OntologyModel, next: int)
    requires
        m.tags.dom().finite(),
    ensures
        follows_largest(m, next) <==> next == fresh_next(m.tags),
{
    fresh_ids_are_unused(m);
    if exists|t: TagId| largest(m.tags, t) {
        let t = choose|t: TagId| largest(m.tags, t);
        assert(m.tags.contains_key(t));
        assert(m.tags.dom().contains(t));
        if follows_largest(m, next) {
            let u = choose|u: TagId| #[trigger] m.tags.contains_key(u) && u.id == next - 1;
            assert(u.id <= t.id);
            assert(t.id < next);
        }
    } else {
        assert forall|t: TagId| !m.tags.dom().contains(t) by {
            if m.tags.contains_key(t) {
                assert(t.id < 1);
                assert(largest(m.tags, t));
            }
        }
        assert(m.tags.dom() =~= Set::<TagId>::empty());
        if follows_largest(m, next) && next != 1 {
            let u = choose|u: TagId| #[trigger] m.tags.contains_key(u) && u.id == next - 1;
            assert(m.tags.dom().contains(u));
        }
    }
}

proof fn lemma_registered_follows(
    m: OntologyModel,
    next: int,
    defs: Seq<TagModel>,
    k: int,
    n: int,
)
    requires
        consistent(m),
        follows_largest(m, next),
        m.tags.dom().finite(),
        0 <= next,
        0 <= k <= n <= defs.len(),
        registered(m, next, defs, n).next <= u32::MAX,
    ensures
        follows_largest(registered(m, next, defs, k).model, registered(m, next, defs, k).next),
        registered(m, next, defs, k).model.tags.dom().finite(),
    decreases k,
{
    lemma_registered_consistent(m, next, defs, k, n);
    if k > 0 {
        lemma_registered_follows(m, next, defs, k - 1, n);
        lemma_registered_consistent(m, next, defs, k - 1, n);
        lemma_registered_grows(m, next, defs, k, n);
        let r = registered(m, next, defs, k - 1);
        let s = registered(m, next, defs, k);
        let d = defs[k - 1];
        if !r.model.names.contains_key(d.name) {
            let id = TagId { id: r.next as u32 };
            assert(s.model.tags.contains_key(id));
            assert(s.model.tags.dom() =~= r.model.tags.dom().insert(id));
        }
    }
}

/// What the registry holds is accounted for after a module was upgraded to a
/// version whose definitions bring no lists of implied tags, if no id past the
/// largest tag occurs anywhere before.
pub proof fn upgrade_keeps_accounted(m: OntologyModel, new: ModuleModel)
    requires
        consistent(m),
        m.tags.dom().finite(),
        accounted(m, fresh_next(m.tags)),
        m.modules.contains_key(new.id),
        registered(
            without_record(m, new.id),
            fresh_next(m.tags),
            new.tags,
            new.tags.len() as int,
        ).next <= u32::MAX,
        installed(without_record(m, new.id), fresh_next(m.tags), new) is Ok,
        forall|i: int| 0 <= i < new.tags.len() ==> (#[trigger] new.tags[i]).implies.len() == 0,
    ensures
        ({
            let i = installed(without_record(m, new.id), fresh_next(m.tags), new)->Ok_0;
            accounted(upgraded(m, new, i), fresh_next(upgraded(m, new, i).tags))
        }),
{
    let next = fresh_next(m.tags);
    let w = without_record(m, new.id);
    fresh_ids_are_unused(m);
    let i = installed(w, next, new)->Ok_0;
    let f = i.model;
    let u = upgraded(m, new, i);
    lemma_install_modules(w, next, new);
    let prev = m.modules[new.id];
    let rec = f.modules[new.id];
    lemma_merged(prev.tags, rec.tags);
    lemma_merged(prev.implications, rec.implications);
    lemma_merged(prev.relations, rec.relations);
    lemma_claims_added(m.modules, new.id, rec, merged_record(prev, rec));
    assert(u.modules =~= m.modules.insert(new.id, merged_record(prev, rec))) by {
        assert(w.modules.remove(new.id) =~= w.modules);
        assert(f.modules =~= w.modules.insert(new.id, rec));
    }
    lemma_installed_accounted(m, w, next, new, u.modules);
    assert((OntologyModel { modules: u.modules, ..f }) =~= u);
    lemma_follows_largest(w, next);
    let k = new.tags.len() as int;
    let reg = registered(w, next, new.tags, k);
    lemma_registered_follows(w, next, new.tags, k, k);
    lemma_edges_added(reg.model, new.implications, new.implications.len() as int);
    let n = linked(reg.model, new.implications, new.implications.len() as int)->Ok_0.0;
    lemma_relations_added(n, new.relations, new.relations.len() as int);
    assert(u.tags.dom() =~= reg.model.tags.dom());
    assert(follows_largest(u, reg.next)) by {
        assert forall|t: TagId| #[trigger] u.tags.contains_key(t) implies t.id < reg.next by {
            assert(reg.model.tags.contains_key(t));
        }
        if exists|t: TagId| #[trigger] reg.model.tags.contains_key(t) && t.id == reg.next - 1 {
            let t = choose|t: TagId| #[trigger]
                reg.model.tags.contains_key(t) && t.id == reg.next - 1;
            assert(u.tags.contains_key(t));
        }
    }
    lemma_follows_largest(u, reg.next);
}

/// The targets that are kept are those whose edge is not gone.
pub(crate) proof fn lemma_kept_targets(s: Seq<TagId>, t: TagId, gone: Set<(TagId, TagId)>, u: TagId)
    ensures
        kept_targets(s, t, gone).contains(u) <==> s.contains(u) && !gone.contains((t, u)),
    decreases s.len(),
{
    if s.len() > 0 {
        let front = s.drop_last();
        lemma_kept_targets(front, t, gone, u);
        let k = kept_targets(front, t, gone);
        assert(s.contains(u) <==> front.contains(u) || s.last() == u) by {
            if front.contains(u) {
                let i = front.index_of(u);
                assert(s[i] == u);
            }
            if s.contains(u) {
                let i = s.index_of(u);
                if i < front.len() {
                    assert(front[i] == u);
                }
            }
            assert(s[s.len() - 1] == s.last());
        }
        if !gone.contains((t, s.last())) {
            let r = k.push(s.last());
            assert(r.contains(u) <==> k.contains(u) || u == s.last()) by {
                if k.contains(u) {
                    let i = k.index_of(u);
                    assert(r[i] == u);
                }
                assert(r[k.len() as int] == s.last());
            }
        }
    }
}

/// What the registry holds is accounted for after a module was taken out.
pub proof fn scrub_keeps_accounted(m: OntologyModel, next: int, id: Seq<char>)
    requires
        accounted(m, next),
        m.modules.contains_key(id),
    ensures
        accounted(scrubbed(m, id), next),
{
    let rec = m.modules[id];
    let others = m.modules.remove(id);
    let tags = own_tags(rec.tags, others);
    let edges = own_edges(rec.implications, others);
    let relations = own_relations(rec.relations, others);
    let s = scrubbed(m, id);
    assert forall|e: (TagId, TagId)| #[trigger] edge_claimed(m.modules, e) <==> edge_claimed(
        others,
        e,
    ) || rec.implications.contains(e) by {
        if edge_claimed(m.modules, e) {
            let x = choose|x: Seq<char>| #[trigger]
                m.modules.contains_key(x) && m.modules[x].implications.contains(e);
            if x != id {
                assert(others.contains_key(x) && others[x].implications.contains(e));
            }
        }
        if edge_claimed(others, e) {
            let x = choose|x: Seq<char>| #[trigger]
                others.contains_key(x) && others[x].implications.contains(e);
            assert(m.modules.contains_key(x) && m.modules[x].implications.contains(e));
        }
    }
    assert forall|e: Relation| #[trigger] relation_claimed(m.modules, e) <==> relation_claimed(
        others,
        e,
    ) || rec.relations.contains(e) by {
        if relation_claimed(m.modules, e) {
            let x = choose|x: Seq<char>| #[trigger]
                m.modules.contains_key(x) && m.modules[x].relations.contains(e);
            if x != id {
                assert(others.contains_key(x) && others[x].relations.contains(e));
            }
        }
        if relation_claimed(others, e) {
            let x = choose|x: Seq<char>| #[trigger]
                others.contains_key(x) && others[x].relations.contains(e);
            assert(m.modules.contains_key(x) && m.modules[x].relations.contains(e));
        }
    }
    assert forall|e: (TagId, TagId)| #[trigger] s.dag.edges.contains(e) implies {
        &&& edge_claimed(s.modules, e)
        &&& s.tags.contains_key(e.0)
        &&& s.tags.contains_key(e.1)
        &&& s.tags[e.0].implies.contains(e.1)
    } by {
        assert(m.dag.edges.contains(e));
        assert(edge_claimed(m.modules, e));
        lemma_kept_targets(m.tags[e.0].implies, e.0, edges, e.1);
    }
    assert forall|e: (TagId, TagId)| #[trigger] edge_claimed(s.modules, e) implies {
        &&& e.0.id < next
        &&& e.1.id < next
        &&& s.tags.contains_key(e.0) && s.tags.contains_key(e.1) ==> s.dag.edges.contains(e)
    } by {
        assert(edge_claimed(m.modules, e));
    }
    assert forall|t: TagId, u: TagId|
        s.tags.contains_key(t) && #[trigger] s.tags[t].implies.contains(u) implies {
        &&& u.id < next
        &&& s.tags.contains_key(u) ==> s.dag.edges.contains((t, u))
    } by {
        lemma_kept_targets(m.tags[t].implies, t, edges, u);
        assert(m.tags[t].implies.contains(u));
    }
    assert forall|e: Relation| #[trigger] relation_claimed(s.modules, e) <==> s.relations.contains(
        e,
    ) by {
        lemma_kept_relations(m.relations, relations, e);
        assert(relation_claimed(m.modules, e) <==> m.relations.contains(e));
    }
    assert forall|t: TagId| #[trigger] tag_claimed(s.modules, t) implies t.id < next by {
        let x = choose|x: Seq<char>| #[trigger]
            others.contains_key(x) && others[x].tags.contains(t);
        assert(m.modules.contains_key(x) && m.modules[x].tags.contains(t));
        assert(tag_claimed(m.modules, t));
    }
}

/// The names of the fresh tags go, all others stay.
proof fn lemma_names_undone(
    m: OntologyModel,
    f: OntologyModel,
    fresh: Seq<TagId>,
    tags: Set<TagId>,
)
    requires
        consistent(m),
        consistent(f),
        forall|t: TagId| #[trigger] tags.contains(t) <==> fresh.contains(t),
        forall|t: TagId| #[trigger]
            f.tags.contains_key(t) <==> m.tags.contains_key(t) || fresh.contains(t),
        forall|t: TagId| #[trigger] m.tags.contains_key(t) ==> !tags.contains(t),
        forall|x: Seq<char>| #[trigger]
            m.names.contains_key(x) ==> f.names.contains_key(x) && f.names[x] == m.names[x],
    ensures
        f.names.remove_keys(names_of(f.tags, tags)) == m.names,
{
    let r = f.names.remove_keys(names_of(f.tags, tags));
    assert forall|x: Seq<char>| #[trigger] m.names.contains_key(x) implies r.contains_key(x)
        && r[x] == m.names[x] by {
        let t = m.names[x];
        assert(m.tags.contains_key(t));
        if names_of(f.tags, tags).contains(x) {
            let u = choose|u: TagId| #[trigger]
                tags.contains(u) && f.tags.contains_key(u) && f.tags[u].name == x;
            assert(f.names[f.tags[u].name] == u);
            assert(u == t);
        }
    }
    assert forall|x: Seq<char>| #[trigger] r.contains_key(x) implies m.names.contains_key(x) by {
        let t = f.names[x];
        assert(f.tags.contains_key(t) && f.tags[t].name == x);
        assert(!tags.contains(t));
        assert(m.tags.contains_key(t));
        assert(m.names.contains_key(m.tags[t].name));
        let y = m.tags[t].name;
        assert(f.names[y] == t);
        assert(f.names.contains_key(y));
        assert(f.tags[f.names[y]].name == y);
    }
    assert(r =~= m.names);
}

} // verus!
