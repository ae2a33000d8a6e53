//! Taking a module out again.

use vstd::prelude::*;
use crate::ontology::error::OntologyError;
use crate::ontology::implication_dag::{lemma_take_contains, DagModel};
use crate::ontology::state::{consistent, has_pair, has_relation, model_ok, OntologyModel,
    OntologyState, RecordModel, Relation, ModuleRecord};
use crate::ordmap::{lemma_items_map, OrdMap};
use crate::types::id::{ModuleId, TagId};
use crate::types::tag::{has_tag, TagDefinition, TagModel, TagRelation};

verus! {

/// Some module of `others` lists the tag.
pub open spec fn tag_claimed(others: Map<Seq<char>, RecordModel>, t: TagId) -> bool {
    exists|k: Seq<char>| #[trigger] others.contains_key(k) && others[k].tags.contains(t)
}

/// Some module of `others` lists the implication.
pub open spec fn edge_claimed(others: Map<Seq<char>, RecordModel>, e: (TagId, TagId)) -> bool {
    exists|k: Seq<char>| #[trigger] others.contains_key(k) && others[k].implications.contains(e)
}

/// Some module of `others` lists the relation.
pub open spec fn relation_claimed(others: Map<Seq<char>, RecordModel>, e: Relation) -> bool {
    exists|k: Seq<char>| #[trigger] others.contains_key(k) && others[k].relations.contains(e)
}

/// The tags that only the module of `rec` lists.
pub open spec fn own_tags(rec: Seq<TagId>, others: Map<Seq<char>, RecordModel>) -> Set<TagId> {
    Set::new(|t: TagId| rec.contains(t) && !tag_claimed(others, t))
}

/// The implications that only the module of `rec` lists.
pub open spec fn own_edges(
    rec: Seq<(TagId, TagId)>,
    others: Map<Seq<char>, RecordModel>,
) -> Set<(TagId, TagId)> {
    Set::new(|e: (TagId, TagId)| rec.contains(e) && !edge_claimed(others, e))
}

/// The relations that only the module of `rec` lists.
pub open spec fn own_relations(
    rec: Seq<Relation>,
    others: Map<Seq<char>, RecordModel>,
) -> Set<Relation> {
    Set::new(|e: Relation| rec.contains(e) && !relation_claimed(others, e))
}

/// The targets in `implies` whose edge from `t` is not in `gone`.
pub open spec fn kept_targets(implies: Seq<TagId>, t: TagId, gone: Set<(TagId, TagId)>) -> Seq<
    TagId,
>
    decreases implies.len(),
{
    if implies.len() == 0 {
        Seq::empty()
    } else {
        let front = kept_targets(implies.drop_last(), t, gone);
        if gone.contains((t, implies.last())) {
            front
        } else {
            front.push(implies.last())
        }
    }
}

/// The relations in `s` that are not in `gone`.
pub open spec fn kept_relations(s: Seq<Relation>, gone: Set<Relation>) -> Seq<Relation>
    decreases s.len(),
{
    if s.len() == 0 {
        Seq::empty()
    } else {
        let front = kept_relations(s.drop_last(), gone);
        if gone.contains(s.last()) {
            front
        } else {
            front.push(s.last())
        }
    }
}

/// The names of those tags in `gone` that are defined.
pub open spec fn names_of(tags: Map<TagId, TagModel>, gone: Set<TagId>) -> Set<Seq<char>> {
    Set::new(
        |n: Seq<char>|
            exists|t: TagId| #[trigger] gone.contains(t) && tags.contains_key(t) && tags[t].name == n,
    )
}

/// The edges with no end in `gone`.
pub open spec fn edges_clear_of(edges: Set<(TagId, TagId)>, gone: Set<TagId>) -> Set<
    (TagId, TagId),
> {
    edges.filter(|e: (TagId, TagId)| !gone.contains(e.0) && !gone.contains(e.1))
}

/// How often the list names a tag that no other module lists.
pub open spec fn own_count(rec: Seq<TagId>, others: Map<Seq<char>, RecordModel>) -> nat
    decreases rec.len(),
{
    if rec.len() == 0 {
        0
    } else {
        own_count(rec.drop_last(), others) + if tag_claimed(others, rec.last()) {
            0nat
        } else {
            1nat
        }
    }
}

/// `m` after module `id` is taken out: gone are the tags, implications and
/// relations that it alone lists, the names of those tags, and the edges that
/// touch them.
pub open spec fn scrubbed(m: OntologyModel, id: Seq<char>) -> OntologyModel {
    let rec = m.modules[id];
    let others = m.modules.remove(id);
    let tags = own_tags(rec.tags, others);
    let edges = own_edges(rec.implications, others);
    let relations = own_relations(rec.relations, others);
    OntologyModel {
        tags: Map::new(
            |t: TagId| m.tags.contains_key(t) && !tags.contains(t),
            |t: TagId|
                TagModel { implies: kept_targets(m.tags[t].implies, t, edges), ..m.tags[t] },
        ),
        names: m.names.remove_keys(names_of(m.tags, tags)),
        dag: DagModel {
            tags: m.dag.tags.difference(tags),
            edges: edges_clear_of(m.dag.edges.difference(edges), tags),
        },
        relations: kept_relations(m.relations, relations),
        modules: others,
    }
}

impl OntologyState {
    /// Whether an installed module lists the tag.
    fn lists_tag(&self, t: TagId) -> (r: bool)
        requires
            self.wf(),
        ensures
            r == tag_claimed(self@.modules, t),
    {
        let total = self.installed_modules.len();
        let ghost s = self.installed_modules.items();
        proof {
            lemma_items_map::<String, ModuleRecord>(s);
        }
        let mut i: usize = 0;
        while i < total
            invariant
                i <= total,
                self.wf(),
                s == self.installed_modules.items(),
                total == s.len(),
                forall|j: int| 0 <= j < i ==> !(#[trigger] s[j]).1.installed_tags@.contains(t),
            decreases total - i,
        {
            if has_tag(&self.installed_modules.value_at(i).installed_tags, t) {
                proof {
                    lemma_items_map::<String, ModuleRecord>(s);
                    assert(self@.modules.contains_key(s[i as int].0));
                }
                return true;
            }
            i = i + 1;
        }
        proof {
            if tag_claimed(self@.modules, t) {
                let k = choose|k: Seq<char>| #[trigger]
                    self@.modules.contains_key(k) && self@.modules[k].tags.contains(t);
                let j = choose|j: int| 0 <= j < s.len() && #[trigger] s[j].0 == k;
                assert(!s[j].1.installed_tags@.contains(t));
            }
        }
        false
    }

    /// Whether an installed module lists the implication.
    fn lists_edge(&self, e: (TagId, TagId)) -> (r: bool)
        requires
            self.wf(),
        ensures
            r == edge_claimed(self@.modules, e),
    {
        let total = self.installed_modules.len();
        let ghost s = self.installed_modules.items();
        proof {
            lemma_items_map::<String, ModuleRecord>(s);
        }
        let mut i: usize = 0;
        while i < total
            invariant
                i <= total,
                self.wf(),
                s == self.installed_modules.items(),
                total == s.len(),
                forall|j: int|
                    0 <= j < i ==> !(#[trigger] s[j]).1.installed_implications@.contains(e),
            decreases total - i,
        {
            if has_pair(&self.installed_modules.value_at(i).installed_implications, e) {
                proof {
                    lemma_items_map::<String, ModuleRecord>(s);
                    assert(self@.modules.contains_key(s[i as int].0));
                }
                return true;
            }
            i = i + 1;
        }
        proof {
            if edge_claimed(self@.modules, e) {
                let k = choose|k: Seq<char>| #[trigger]
                    self@.modules.contains_key(k) && self@.modules[k].implications.contains(e);
                let j = choose|j: int| 0 <= j < s.len() && #[trigger] s[j].0 == k;
                assert(!s[j].1.installed_implications@.contains(e));
            }
        }
        false
    }

    /// Whether an installed module lists the relation.
    fn lists_relation(&self, e: (TagId, TagRelation, TagId)) -> (r: bool)
        requires
            self.wf(),
        ensures
            r == relation_claimed(self@.modules, e),
    {
        let total = self.installed_modules.len();
        let ghost s = self.installed_modules.items();
        proof {
            lemma_items_map::<String, ModuleRecord>(s);
        }
        let mut i: usize = 0;
        while i < total
            invariant
                i <= total,
                self.wf(),
                s == self.installed_modules.items(),
                total == s.len(),
                forall|j: int|
                    0 <= j < i ==> !(#[trigger] s[j]).1.installed_relations@.contains(e),
            decreases total - i,
        {
            if has_relation(&self.installed_modules.value_at(i).installed_relations, e) {
                proof {
                    lemma_items_map::<String, ModuleRecord>(s);
                    assert(self@.modules.contains_key(s[i as int].0));
                }
                return true;
            }
            i = i + 1;
        }
        proof {
            if relation_claimed(self@.modules, e) {
                let k = choose|k: Seq<char>| #[trigger]
                    self@.modules.contains_key(k) && self@.modules[k].relations.contains(e);
                let j = choose|j: int| 0 <= j < s.len() && #[trigger] s[j].0 == k;
                assert(!s[j].1.installed_relations@.contains(e));
            }
        }
        false
    }

    /// Remove a module. Tags that no other installed module lists go, and so
    /// do implications and relations that no other lists. Returns how many
    /// tags of the module's list went.
    pub fn scrub(&mut self, module_id: &ModuleId) -> (r: Result<usize, OntologyError>)
        requires
            old(self).wf(),
        ensures
            final(self).wf(),
            match r {
                Ok(n) => {
                    &&& old(self)@.modules.contains_key(module_id@)
                    &&& final(self)@ == scrubbed(old(self)@, module_id@)
                    &&& n == own_count(
                        old(self)@.modules[module_id@].tags,
                        old(self)@.modules.remove(module_id@),
                    )
                },
                Err(e) => {
                    &&& !old(self)@.modules.contains_key(module_id@)
                    &&& e is ModuleNotInstalled
                    &&& e->ModuleNotInstalled_0@ == module_id@
                    &&& *final(self) == *old(self)
                },
            },
    {
        let ghost m = self@;
        let record = match self.installed_modules.remove(module_id) {
            Some(r) => r,
            None => {
                return Err(OntologyError::ModuleNotInstalled(module_id.clone()));
            },
        };
        let ghost others = m.modules.remove(module_id@);
        let ghost rec = m.modules[module_id@];
        proof {
            assert(self@.modules =~= others);
            assert(self@.tags =~= m.tags);
        }
        self.drop_own_edges(&record);
        self.drop_own_relations(&record);
        let ghost pruned = self@;
        let n = self.drop_own_tags(&record);
        proof {
            let edges = own_edges(rec.implications, others);
            let tags = own_tags(rec.tags, others);
            assert(names_of(pruned.tags, tags) =~= names_of(m.tags, tags));
            assert(self@.tags =~= scrubbed(m, module_id@).tags);
            assert(self@.dag =~= scrubbed(m, module_id@).dag);
            assert(self@ =~= scrubbed(m, module_id@));
        }
        Ok(n)
    }

    /// Take the record's own implications out of the graph and out of the
    /// definitions.
    fn drop_own_edges(&mut self, record: &ModuleRecord)
        requires
            old(self).wf(),
        ensures
            final(self).wf(),
            final(self)@.names == old(self)@.names,
            final(self)@.relations == old(self)@.relations,
            final(self)@.modules == old(self)@.modules,
            final(self)@.dag.tags == old(self)@.dag.tags,
            ({
                let gone = own_edges(record@.implications, old(self)@.modules);
                &&& final(self)@.dag.edges == old(self)@.dag.edges.difference(gone)
                &&& final(self)@.tags.dom() == old(self)@.tags.dom()
                &&& forall|t: TagId| #[trigger]
                    old(self)@.tags.contains_key(t) ==> final(self)@.tags[t] == (TagModel {
                        implies: kept_targets(old(self)@.tags[t].implies, t, gone),
                        ..old(self)@.tags[t]
                    })
            }),
    {
        let ghost m = self@;
        let ghost list = record@.implications;
        let ghost all = own_edges(list, m.modules);
        let mut i: usize = 0;
        proof {
            assert(own_edges(list.take(0), m.modules) =~= Set::<(TagId, TagId)>::empty());
            assert(m.dag.edges =~= m.dag.edges.difference(own_edges(list.take(0), m.modules)));
        }
        while i < record.installed_implications.len()
            invariant
                i <= list.len(),
                list == record.installed_implications@,
                self.wf(),
                self@.tags == m.tags,
                self@.names == m.names,
                self@.relations == m.relations,
                self@.modules == m.modules,
                self@.dag.tags == m.dag.tags,
                self@.dag.edges == m.dag.edges.difference(own_edges(list.take(i as int), m.modules)),
            decreases list.len() - i,
        {
            let ghost before = self@;
            let e = record.installed_implications[i];
            let kept = self.lists_edge(e);
            proof {
                let a = list.take(i as int);
                let b = list.take(i + 1);
                lemma_take_contains(list, i as int);
                if kept {
                    assert(own_edges(b, m.modules) =~= own_edges(a, m.modules));
                } else {
                    assert(own_edges(b, m.modules) =~= own_edges(a, m.modules).insert(e));
                    assert(m.dag.edges.difference(own_edges(b, m.modules))
                        =~= m.dag.edges.difference(own_edges(a, m.modules)).remove(e));
                }
            }
            if !kept {
                self.dag.remove_implication(e.0, e.1);
                proof {
                    assert(self@.tags =~= before.tags);
                    assert(self@.modules =~= before.modules);
                }
            }
            i = i + 1;
        }
        proof {
            assert(list.take(i as int) =~= list);
        }
        self.prune_definitions(record);
    }

    /// Take the record's own implications out of the definitions.
    fn prune_definitions(&mut self, record: &ModuleRecord)
        requires
            old(self).wf(),
        ensures
            final(self).wf(),
            final(self)@.names == old(self)@.names,
            final(self)@.relations == old(self)@.relations,
            final(self)@.modules == old(self)@.modules,
            final(self)@.dag == old(self)@.dag,
            ({
                let gone = own_edges(record@.implications, old(self)@.modules);
                &&& final(self)@.tags.dom() == old(self)@.tags.dom()
                &&& forall|t: TagId| #[trigger]
                    old(self)@.tags.contains_key(t) ==> final(self)@.tags[t] == (TagModel {
                        implies: kept_targets(old(self)@.tags[t].implies, t, gone),
                        ..old(self)@.tags[t]
                    })
            }),
    {
        let ghost m = self@;
        let ghost gone = own_edges(record@.implications, m.modules);
        let total = self.tags.len();
        let ghost s = self.tags.items();
        let mut tags: OrdMap<TagId, TagDefinition> = OrdMap::new();
        let mut i: usize = 0;
        proof {
            lemma_items_map::<TagId, TagDefinition>(s);
        }
        while i < total
            invariant
                i <= total,
                self.wf(),
                m == self@,
                gone == own_edges(record@.implications, m.modules),
                s == self.tags.items(),
                total == s.len(),
                tags.wf(),
                forall|t: TagId| #[trigger]
                    tags@.contains_key(t) ==> m.tags.contains_key(t) && tags@[t]@ == (TagModel {
                        implies: kept_targets(m.tags[t].implies, t, gone),
                        ..m.tags[t]
                    }),
                forall|j: int| 0 <= j < i ==> tags@.contains_key(#[trigger] s[j].0),
            decreases total - i,
        {
            proof {
                lemma_items_map::<TagId, TagDefinition>(s);
                assert(m.tags[s[i as int].0] == s[i as int].1@);
            }
            let t = *self.tags.key_at(i);
            let mut def = self.tags.value_at(i).duplicate();
            let kept = self.keep_targets(&def.implies, t, record);
            def.implies = kept;
            tags.insert(t, def);
            i = i + 1;
        }
        proof {
            assert forall|t: TagId| m.tags.contains_key(t) implies #[trigger] tags@.contains_key(t) by {
                assert(self.tags@.contains_key(t));
                let j = choose|j: int| 0 <= j < s.len() && #[trigger] s[j].0 == t;
                assert(tags@.contains_key(s[j].0));
            }
        }
        self.tags = tags;
        proof {
            assert(self@.tags.dom() =~= m.tags.dom());
            assert(self@.modules =~= m.modules);
        }
    }

    fn keep_targets(&self, implies: &Vec<TagId>, t: TagId, record: &ModuleRecord) -> (r: Vec<TagId>)
        requires
            self.wf(),
        ensures
            r@ == kept_targets(
                implies@,
                t,
                own_edges(record@.implications, self@.modules),
            ),
    {
        let ghost gone = own_edges(record@.implications, self@.modules);
        let mut out: Vec<TagId> = Vec::new();
        let mut i: usize = 0;
        while i < implies.len()
            invariant
                i <= implies@.len(),
                self.wf(),
                gone == own_edges(record@.implications, self@.modules),
                out@ == kept_targets(implies@.take(i as int), t, gone),
            decreases implies@.len() - i,
        {
            let x = implies[i];
            proof {
                assert(implies@.take(i + 1).drop_last() =~= implies@.take(i as int));
                assert(implies@.take(i + 1).last() == x);
            }
            if !(has_pair(&record.installed_implications, (t, x)) && !self.lists_edge((t, x))) {
                out.push(x);
            }
            i = i + 1;
        }
        proof {
            assert(implies@.take(i as int) =~= implies@);
        }
        out
    }

    /// Take the record's own relations out.
    fn drop_own_relations(&mut self, record: &ModuleRecord)
        requires
            old(self).wf(),
        ensures
            final(self).wf(),
            final(self)@ == (OntologyModel {
                relations: kept_relations(
                    old(self)@.relations,
                    own_relations(record@.relations, old(self)@.modules),
                ),
                ..old(self)@
            }),
    {
        let ghost m = self@;
        let ghost gone = own_relations(record@.relations, m.modules);
        let mut out: Vec<(TagId, TagRelation, TagId)> = Vec::new();
        let mut i: usize = 0;
        while i < self.relations.len()
            invariant
                i <= self.relations@.len(),
                self.wf(),
                m == self@,
                gone == own_relations(record@.relations, m.modules),
                out@ == kept_relations(self.relations@.take(i as int), gone),
            decreases self.relations@.len() - i,
        {
            let e = self.relations[i];
            proof {
                assert(self.relations@.take(i + 1).drop_last() =~= self.relations@.take(i as int));
                assert(self.relations@.take(i + 1).last() == e);
            }
            if !(has_relation(&record.installed_relations, e) && !self.lists_relation(e)) {
                out.push(e);
            }
            i = i + 1;
        }
        proof {
            assert(self.relations@.take(i as int) =~= self.relations@);
        }
        self.relations = out;
        proof {
            assert(self@.tags =~= m.tags);
            assert(self@.modules =~= m.modules);
        }
    }

    /// Take the record's own tags out of every table. Returns how many
    /// entries of its list named one.
    fn drop_own_tags(&mut self, record: &ModuleRecord) -> (r: usize)
        requires
            old(self).wf(),
        ensures
            final(self).wf(),
            ({
                let m = old(self)@;
                let gone = own_tags(record@.tags, m.modules);
                final(self)@ == (OntologyModel {
                    tags: m.tags.remove_keys(gone),
                    names: m.names.remove_keys(names_of(m.tags, gone)),
                    dag: DagModel {
                        tags: m.dag.tags.difference(gone),
                        edges: edges_clear_of(m.dag.edges, gone),
                    },
                    ..m
                })
            }),
            r == own_count(record@.tags, old(self)@.modules),
    {
        let ghost m = self@;
        let ghost list = record@.tags;
        let mut removed: usize = 0;
        let mut i: usize = 0;
        proof {
            let g = own_tags(list.take(0), m.modules);
            assert(g =~= Set::<TagId>::empty());
            assert(m.tags =~= m.tags.remove_keys(g));
            assert(names_of(m.tags, g) =~= Set::<Seq<char>>::empty());
            assert(m.names =~= m.names.remove_keys(names_of(m.tags, g)));
            assert(m.dag.tags =~= m.dag.tags.difference(g));
            assert(m.dag.edges =~= edges_clear_of(m.dag.edges, g));
        }
        while i < record.installed_tags.len()
            invariant
                i <= list.len(),
                list == record.installed_tags@,
                removed <= i,
                model_ok(m),
                removed == own_count(list.take(i as int), m.modules),
                self.wf(),
                self@.modules == m.modules,
                self@.relations == m.relations,
                self@.tags == m.tags.remove_keys(own_tags(list.take(i as int), m.modules)),
                self@.names == m.names.remove_keys(
                    names_of(m.tags, own_tags(list.take(i as int), m.modules)),
                ),
                self@.dag.tags == m.dag.tags.difference(own_tags(list.take(i as int), m.modules)),
                self@.dag.edges == edges_clear_of(
                    m.dag.edges,
                    own_tags(list.take(i as int), m.modules),
                ),
            decreases list.len() - i,
        {
            let ghost before = self@;
            let ghost a = own_tags(list.take(i as int), m.modules);
            let ghost b = own_tags(list.take(i + 1), m.modules);
            let t = record.installed_tags[i];
            let kept = self.lists_tag(t);
            proof {
                lemma_take_contains(list, i as int);
                assert(list.take(i + 1).drop_last() =~= list.take(i as int));
                if kept {
                    assert(b =~= a);
                } else {
                    assert(b =~= a.insert(t));
                }
            }
            if !kept {
                let ghost raw = self.tags@;
                proof {
                    assert(raw.contains_key(t) == before.tags.contains_key(t));
                }
                match self.tags.remove(&t) {
                    Some(def) => {
                        self.names.remove(&def.name);
                        proof {
                            assert(before.tags.contains_key(t));
                            assert(names_of(m.tags, b) =~= names_of(m.tags, a).insert(def@.name)) by {
                                assert forall|n: Seq<char>| names_of(m.tags, b).contains(n) <==>
                                    names_of(m.tags, a).insert(def@.name).contains(n) by {
                                    if names_of(m.tags, b).contains(n) {
                                        let x = choose|x: TagId| #[trigger]
                                            b.contains(x) && m.tags.contains_key(x)
                                                && m.tags[x].name == n;
                                        if x != t {
                                            assert(a.contains(x));
                                        }
                                    }
                                    if names_of(m.tags, a).contains(n) {
                                        let x = choose|x: TagId| #[trigger]
                                            a.contains(x) && m.tags.contains_key(x)
                                                && m.tags[x].name == n;
                                        assert(b.contains(x));
                                    }
                                    if n == def@.name {
                                        assert(b.contains(t));
                                    }
                                }
                            }
                        }
                    },
                    None => {
                        proof {
                            assert(names_of(m.tags, b) =~= names_of(m.tags, a)) by {
                                assert forall|n: Seq<char>| names_of(m.tags, b).contains(n) <==>
                                    names_of(m.tags, a).contains(n) by {
                                    if names_of(m.tags, b).contains(n) {
                                        let x = choose|x: TagId| #[trigger]
                                            b.contains(x) && m.tags.contains_key(x)
                                                && m.tags[x].name == n;
                                        assert(!m.tags.remove_keys(a).contains_key(t));
                                        assert(a.contains(x));
                                    }
                                    if names_of(m.tags, a).contains(n) {
                                        let x = choose|x: TagId| #[trigger]
                                            a.contains(x) && m.tags.contains_key(x)
                                                && m.tags[x].name == n;
                                        assert(b.contains(x));
                                    }
                                }
                            }
                        }
                    },
                }
                self.dag.remove_tag(t);
                removed = removed + 1;
                proof {
                    assert(self.tags@ =~= raw.remove(t));
                    assert(self@.tags =~= before.tags.remove(t));
                    assert(self@.tags =~= m.tags.remove_keys(b));
                    assert(self@.names =~= m.names.remove_keys(names_of(m.tags, b)));
                    assert(self@.dag.tags =~= m.dag.tags.difference(b));
                    assert(self@.dag.edges =~= edges_clear_of(m.dag.edges, b));
                    assert(self@.modules =~= m.modules);
                }
            }
            i = i + 1;
        }
        proof {
            assert(list.take(i as int) =~= list);
            assert(self@.dag =~= (DagModel {
                tags: m.dag.tags.difference(own_tags(list, m.modules)),
                edges: edges_clear_of(m.dag.edges, own_tags(list, m.modules)),
            }));
        }
        removed
    }
}

/// Scrubbing a module keeps the tables in agreement.
pub proof fn scrub_keeps_consistent(m: OntologyModel, id: Seq<char>)
    requires
        consistent(m),
        m.modules.contains_key(id),
    ensures
        consistent(scrubbed(m, id)),
{
    let s = scrubbed(m, id);
    let rec = m.modules[id];
    let others = m.modules.remove(id);
    let gone = own_tags(rec.tags, others);
    assert forall|n: Seq<char>| #[trigger] s.names.contains_key(n) implies s.tags.contains_key(
        s.names[n],
    ) && s.tags[s.names[n]].name == n by {
        let t = m.names[n];
        assert(m.names.contains_key(n));
        assert(m.tags.contains_key(t) && m.tags[t].name == n);
        if gone.contains(t) {
            assert(names_of(m.tags, gone).contains(n));
        }
    }
    assert forall|t: TagId| #[trigger] s.tags.contains_key(t) implies s.names.contains_key(
        s.tags[t].name,
    ) && s.names[s.tags[t].name] == t by {
        let n = m.tags[t].name;
        assert(m.names.contains_key(n) && m.names[n] == t);
        if names_of(m.tags, gone).contains(n) {
            let x = choose|x: TagId| #[trigger]
                gone.contains(x) && m.tags.contains_key(x) && m.tags[x].name == n;
            assert(m.names[m.tags[x].name] == x);
        }
    }
    assert(s.dag.tags =~= s.tags.dom());
}

/// A tag, implication or relation that another installed module lists
/// survives the scrub.
pub proof fn scrub_keeps_shared(m: OntologyModel, id: Seq<char>, other: Seq<char>)
    requires
        m.modules.contains_key(id),
        m.modules.contains_key(other),
        other != id,
    ensures
        forall|t: TagId|
            m.modules[other].tags.contains(t) && m.tags.contains_key(t) ==> #[trigger] scrubbed(
                m,
                id,
            ).tags.contains_key(t),
        forall|e: (TagId, TagId)|
            m.modules[other].implications.contains(e) && m.dag.edges.contains(e)
                && scrubbed(m, id).dag.tags.contains(e.0) && scrubbed(m, id).dag.tags.contains(e.1)
                ==> #[trigger] scrubbed(m, id).dag.edges.contains(e),
        forall|e: Relation|
            m.modules[other].relations.contains(e) && m.relations.contains(e) ==> #[trigger] scrubbed(
                m,
                id,
            ).relations.contains(e),
        scrubbed(m, id).modules.contains_key(other),
        scrubbed(m, id).modules[other] == m.modules[other],
        !scrubbed(m, id).modules.contains_key(id),
{
    let rec = m.modules[id];
    let others = m.modules.remove(id);
    assert(others.contains_key(other));
    let gone = own_relations(rec.relations, others);
    assert forall|e: Relation|
        m.modules[other].relations.contains(e) && m.relations.contains(e) implies #[trigger] scrubbed(
        m,
        id,
    ).relations.contains(e) by {
        assert(relation_claimed(others, e));
        lemma_kept_relations(m.relations, gone, e);
    }
    assert forall|t: TagId|
        m.modules[other].tags.contains(t) && m.tags.contains_key(t) implies #[trigger] scrubbed(
        m,
        id,
    ).tags.contains_key(t) by {
        assert(tag_claimed(others, t));
    }
    assert forall|e: (TagId, TagId)|
        m.modules[other].implications.contains(e) && m.dag.edges.contains(e)
            && scrubbed(m, id).dag.tags.contains(e.0) && scrubbed(m, id).dag.tags.contains(e.1)
            implies #[trigger] scrubbed(m, id).dag.edges.contains(e) by {
        assert(edge_claimed(others, e));
    }
}

/// What is kept of a list of relations is what is not gone.
pub proof fn lemma_kept_relations(s: Seq<Relation>, gone: Set<Relation>, e: Relation)
    ensures
        kept_relations(s, gone).contains(e) <==> s.contains(e) && !gone.contains(e),
    decreases s.len(),
{
    if s.len() > 0 {
        let front = s.drop_last();
        lemma_kept_relations(front, gone, e);
        let k = kept_relations(front, gone);
        let r = kept_relations(s, gone);
        if s.contains(e) {
            let i = choose|i: int| 0 <= i < s.len() && s[i] == e;
            if i < front.len() {
                assert(front[i] == e);
            }
        }
        if front.contains(e) {
            let i = choose|i: int| 0 <= i < front.len() && front[i] == e;
            assert(s[i] == e);
        }
        if e == s.last() {
            assert(s[s.len() - 1] == e);
        }
        if !gone.contains(s.last()) {
            assert(r == k.push(s.last()));
            if k.contains(e) {
                let i = choose|i: int| 0 <= i < k.len() && k[i] == e;
                assert(r[i] == e);
            }
            if r.contains(e) {
                let i = choose|i: int| 0 <= i < r.len() && r[i] == e;
                if i < k.len() {
                    assert(k[i] == e);
                }
            }
            assert(r[k.len() as int] == s.last());
        }
    }
}

} // verus!
