//! The live registry: installing, upgrading and scrubbing modules, and
//! resolving storage policies.

use vstd::prelude::*;
use crate::ontology::error::{OntologyError, StorageAxis};
use crate::ontology::implication_dag::{edge_refused, implied, pair_precedes, tags_ascend, DagModel, ImplicationDag};
use crate::ontology::module::{IdAllocator, InstallResult, ModuleModel, OntologyModule};
use crate::ontology::path::reach;
use crate::ordmap::{lemma_items_map, Duplicate, Key, OrdMap};
use crate::types::id::{ModuleId, TagId};
use crate::types::policy::StoragePolicy;
use crate::types::tag::{copy_tags, has_tag, TagDefinition, TagModel, TagRelation};

verus! {

/// A relation between two tags.
pub type Relation = (TagId, TagRelation, TagId);

/// What an installed module brought along, so that it can be taken out again.
#[derive(Clone, Debug, PartialEq)]
pub struct ModuleRecord {
    pub id: ModuleId,
    pub version: String,
    pub name: String,
    /// Tags that the module registered.
    pub installed_tags: Vec<TagId>,
    /// Implications that the module added.
    pub installed_implications: Vec<(TagId, TagId)>,
    /// Relations that the module added.
    pub installed_relations: Vec<(TagId, TagRelation, TagId)>,
}

/// The mathematical content of a [`ModuleRecord`].
pub ghost struct RecordModel {
    pub id: Seq<char>,
    pub version: Seq<char>,
    pub name: Seq<char>,
    pub tags: Seq<TagId>,
    pub implications: Seq<(TagId, TagId)>,
    pub relations: Seq<Relation>,
}

impl View for ModuleRecord {
    type V = RecordModel;

    open spec fn view(&self) -> RecordModel {
        RecordModel {
            id: self.id@,
            version: self.version@,
            name: self.name@,
            tags: self.installed_tags@,
            implications: self.installed_implications@,
            relations: self.installed_relations@,
        }
    }
}

impl Duplicate for ModuleRecord {
    fn copy_value(&self) -> (r: Self) {
        ModuleRecord {
            id: self.id.clone(),
            version: self.version.clone(),
            name: self.name.clone(),
            installed_tags: copy_tags(&self.installed_tags),
            installed_implications: copy_list(&self.installed_implications),
            installed_relations: copy_list(&self.installed_relations),
        }
    }
}

/// A copy of a list of plain values.
pub fn copy_list<A: Copy>(v: &Vec<A>) -> (r: Vec<A>)
    ensures
        r@ == v@,
{
    let mut out: Vec<A> = Vec::new();
    let mut i: usize = 0;
    while i < v.len()
        invariant
            i <= v@.len(),
            out@ =~= v@.take(i as int),
        decreases v@.len() - i,
    {
        out.push(v[i]);
        i = i + 1;
    }
    out
}

/// The registry: the tags, their names, the implication graph, the relations
/// between tags, and the installed modules.
#[derive(Clone, Debug)]
pub struct OntologyState {
    pub tags: OrdMap<TagId, TagDefinition>,
    pub names: OrdMap<String, TagId>,
    pub dag: ImplicationDag,
    /// Relations that are not implications.
    pub relations: Vec<(TagId, TagRelation, TagId)>,
    pub installed_modules: OrdMap<String, ModuleRecord>,
}

/// The mathematical content of an [`OntologyState`].
#[verifier::ext_equal]
pub ghost struct OntologyModel {
    pub tags: Map<TagId, TagModel>,
    pub names: Map<Seq<char>, TagId>,
    pub dag: DagModel,
    pub relations: Seq<Relation>,
    pub modules: Map<Seq<char>, RecordModel>,
}

/// Every definition stands under its id, and every record under its
/// module's id.
pub open spec fn model_ok(m: OntologyModel) -> bool {
    &&& forall|t: TagId| #[trigger] m.tags.contains_key(t) ==> m.tags[t].id == t
    &&& forall|k: Seq<char>| #[trigger] m.modules.contains_key(k) ==> m.modules[k].id == k
}

/// Every name leads to a definition.
pub open spec fn names_lead(m: OntologyModel) -> bool {
    forall|n: Seq<char>| #[trigger] m.names.contains_key(n) ==> m.tags.contains_key(m.names[n])
}

/// The three tables agree: tags and names correspond one to one, and the
/// nodes of the implication graph are the tags.
pub open spec fn consistent(m: OntologyModel) -> bool {
    &&& model_ok(m)
    &&& names_lead(m)
    &&& forall|t: TagId| #[trigger]
        m.tags.contains_key(t) ==> m.names.contains_key(m.tags[t].name)
            && m.names[m.tags[t].name] == t
    &&& forall|n: Seq<char>| #[trigger] m.names.contains_key(n) ==> m.tags[m.names[n]].name == n
    &&& m.dag.tags == m.tags.dom()
}

// ---------------------------------------------------------------------
// Installing
// ---------------------------------------------------------------------

/// `m` with the definition `d` registered under `id`.
pub open spec fn with_tag(m: OntologyModel, id: TagId, d: TagModel) -> OntologyModel {
    OntologyModel {
        tags: m.tags.insert(id, TagModel { id, ..d }),
        names: m.names.insert(d.name, id),
        dag: DagModel { tags: m.dag.tags.insert(id), edges: m.dag.edges },
        ..m
    }
}

/// A registry while tags are registered: the next free id, the ids handed
/// out and the number of definitions skipped so far.
#[verifier::ext_equal]
pub ghost struct Registering {
    pub model: OntologyModel,
    pub next: int,
    pub fresh: Seq<TagId>,
    pub skipped: nat,
}

/// Registering the first `k` of `defs`: a definition whose name is taken is
/// skipped, any other gets the next id.
pub open spec fn registered(m: OntologyModel, next: int, defs: Seq<TagModel>, k: int) -> Registering
    decreases k,
{
    if k <= 0 {
        Registering { model: m, next, fresh: Seq::empty(), skipped: 0 }
    } else {
        let r = registered(m, next, defs, k - 1);
        let d = defs[k - 1];
        if r.model.names.contains_key(d.name) {
            let e = r.model.names[d.name];
            Registering {
                next: if e.id >= r.next {
                    e.id + 1
                } else {
                    r.next
                },
                skipped: r.skipped + 1,
                ..r
            }
        } else {
            let id = TagId { id: r.next as u32 };
            Registering {
                model: with_tag(r.model, id, d),
                next: r.next + 1,
                fresh: r.fresh.push(id),
                skipped: r.skipped,
            }
        }
    }
}

/// Why a module cannot be installed.
pub ghost enum InstallFault {
    /// No tag has this name.
    Unknown(Seq<char>),
    /// The edge between the two tags cannot be added to the graph.
    Edge(DagModel, TagId, TagId),
    /// An implication stands among the relations.
    ImpliedBy,
    /// Two tags of the model declare an axis and neither implies the other.
    Axis(OntologyModel),
}

/// `e` reports the fault `f`.
pub open spec fn install_reports(e: OntologyError, f: InstallFault) -> bool {
    match f {
        InstallFault::Unknown(n) => e is UnknownTag && e->UnknownTag_0@ == n,
        InstallFault::Edge(d, from, to) => edge_refused(d, from, to, e),
        InstallFault::ImpliedBy => e is ModuleParse && e->ModuleParse_0@
            == "use [[implications]] instead of a relation of kind `implied-by`"@,
        InstallFault::Axis(m) => match e {
            OntologyError::AxisConflict { axis, a, a_name, b, b_name } => {
                &&& first_conflict(m, axis, a, b)
                &&& a_name@ == m.tags[a].name
                &&& b_name@ == m.tags[b].name
            },
            _ => false,
        },
    }
}

/// The edge cannot be added: an end is no node, or it would close a cycle.
pub open spec fn edge_blocked(d: DagModel, from: TagId, to: TagId) -> bool {
    !d.tags.contains(from) || !d.tags.contains(to) || reach(d.edges, to, from)
}

/// `m` with the implication added to the graph and to its source's definition.
pub open spec fn with_implication(m: OntologyModel, from: TagId, to: TagId) -> OntologyModel {
    OntologyModel {
        dag: DagModel { tags: m.dag.tags, edges: m.dag.edges.insert((from, to)) },
        tags: if m.tags.contains_key(from) && !m.tags[from].implies.contains(to) {
            m.tags.insert(
                from,
                TagModel { implies: m.tags[from].implies.push(to), ..m.tags[from] },
            )
        } else {
            m.tags
        },
        ..m
    }
}

/// Adding the first `k` of the implications, with the edges added; the first
/// that cannot be added is the fault.
pub open spec fn linked(
    m: OntologyModel,
    imps: Seq<(Seq<char>, Seq<char>)>,
    k: int,
) -> Result<(OntologyModel, Seq<(TagId, TagId)>), InstallFault>
    decreases k,
{
    if k <= 0 {
        Ok((m, Seq::empty()))
    } else {
        match linked(m, imps, k - 1) {
            Err(f) => Err(f),
            Ok((n, added)) => {
                let (from_name, to_name) = imps[k - 1];
                if !n.names.contains_key(from_name) {
                    Err(InstallFault::Unknown(from_name))
                } else if !n.names.contains_key(to_name) {
                    Err(InstallFault::Unknown(to_name))
                } else {
                    let from = n.names[from_name];
                    let to = n.names[to_name];
                    if edge_blocked(n.dag, from, to) {
                        Err(InstallFault::Edge(n.dag, from, to))
                    } else {
                        Ok((with_implication(n, from, to), added.push((from, to))))
                    }
                }
            },
        }
    }
}

/// `m` with the relation added where it is not there yet.
pub open spec fn with_relation(m: OntologyModel, e: Relation) -> OntologyModel {
    OntologyModel {
        relations: if m.relations.contains(e) {
            m.relations
        } else {
            m.relations.push(e)
        },
        ..m
    }
}

/// Adding the first `k` of the relations, with those the module names; the
/// first that cannot be added is the fault.
pub open spec fn related(
    m: OntologyModel,
    rels: Seq<(Seq<char>, TagRelation, Seq<char>)>,
    k: int,
) -> Result<(OntologyModel, Seq<Relation>), InstallFault>
    decreases k,
{
    if k <= 0 {
        Ok((m, Seq::empty()))
    } else {
        match related(m, rels, k - 1) {
            Err(f) => Err(f),
            Ok((n, added)) => {
                let (from_name, kind, to_name) = rels[k - 1];
                if kind == TagRelation::ImpliedBy {
                    Err(InstallFault::ImpliedBy)
                } else if !n.names.contains_key(from_name) {
                    Err(InstallFault::Unknown(from_name))
                } else if !n.names.contains_key(to_name) {
                    Err(InstallFault::Unknown(to_name))
                } else {
                    let e = (n.names[from_name], kind, n.names[to_name]);
                    Ok((with_relation(n, e), added.push(e)))
                }
            },
        }
    }
}

/// The policy declares the axis.
pub open spec fn axis_set(p: StoragePolicy, axis: StorageAxis) -> bool {
    match axis {
        StorageAxis::Chunking => p.chunking is Some,
        StorageAxis::Compression => p.compression is Some,
        StorageAxis::Encryption => p.encryption is Some,
    }
}

/// The tag declares the axis.
pub open spec fn declares(m: OntologyModel, axis: StorageAxis, t: TagId) -> bool {
    m.tags.contains_key(t) && m.tags[t].storage is Some && axis_set(m.tags[t].storage->0, axis)
}

/// `a` and `b`, in this order, declare the axis, and neither implies the other.
pub open spec fn conflict(m: OntologyModel, axis: StorageAxis, a: TagId, b: TagId) -> bool {
    &&& a.id < b.id
    &&& declares(m, axis, a)
    &&& declares(m, axis, b)
    &&& !implied(m.dag, a, b)
    &&& !implied(m.dag, b, a)
}

/// No two tags conflict on the axis.
pub open spec fn axis_clear(m: OntologyModel, axis: StorageAxis) -> bool {
    forall|a: TagId, b: TagId| !#[trigger] conflict(m, axis, a, b)
}

/// On every axis the declaring tags form a chain.
pub open spec fn axes_clear(m: OntologyModel) -> bool {
    &&& axis_clear(m, StorageAxis::Chunking)
    &&& axis_clear(m, StorageAxis::Compression)
    &&& axis_clear(m, StorageAxis::Encryption)
}

/// The conflict that is reported: on the first axis that has one, the one
/// with the smallest tags.
pub open spec fn first_conflict(m: OntologyModel, axis: StorageAxis, a: TagId, b: TagId) -> bool {
    &&& conflict(m, axis, a, b)
    &&& forall|c: TagId, d: TagId| #[trigger]
        conflict(m, axis, c, d) ==> (c, d) == (a, b) || pair_precedes((a, b), (c, d))
    &&& axis != StorageAxis::Chunking ==> axis_clear(m, StorageAxis::Chunking)
    &&& axis == StorageAxis::Encryption ==> axis_clear(m, StorageAxis::Compression)
}

/// What installing a module comes to.
pub ghost struct Installed {
    pub model: OntologyModel,
    pub registered: nat,
    pub skipped: nat,
    pub implications: nat,
}

/// Installing `module` into `m`, fresh ids starting at `next`.
pub open spec fn installed(m: OntologyModel, next: int, module: ModuleModel) -> Result<
    Installed,
    InstallFault,
> {
    let reg = registered(m, next, module.tags, module.tags.len() as int);
    match linked(reg.model, module.implications, module.implications.len() as int) {
        Err(f) => Err(f),
        Ok((n, imps)) => match related(n, module.relations, module.relations.len() as int) {
            Err(f) => Err(f),
            Ok((q, rels)) => if !axes_clear(q) {
                Err(InstallFault::Axis(q))
            } else {
                let record = RecordModel {
                    id: module.id,
                    version: module.version,
                    name: module.name,
                    tags: reg.fresh,
                    implications: imps,
                    relations: rels,
                };
                Ok(
                    Installed {
                        model: OntologyModel {
                            modules: q.modules.insert(module.id, record),
                            ..q
                        },
                        registered: reg.fresh.len(),
                        skipped: reg.skipped,
                        implications: imps.len(),
                    },
                )
            },
        },
    }
}

/// The module's tags and implications fit: ids, nodes and edges are counted
/// in 32 bits.
pub open spec fn fits(m: OntologyModel, next: int, module: ModuleModel) -> bool {
    &&& registered(m, next, module.tags, module.tags.len() as int).next <= u32::MAX
    &&& m.dag.tags.len() + module.tags.len() <= u32::MAX
    &&& m.dag.edges.len() + module.implications.len() <= u32::MAX
}

/// The result `r` reports the installation `i` of `module`.
pub open spec fn result_reports(r: InstallResult, i: Installed, module: ModuleModel) -> bool {
    &&& r.tags_registered == i.registered
    &&& r.tags_skipped == i.skipped
    &&& r.implications_added == i.implications
    &&& r.module_id@ == module.id
    &&& r.module_name@ == module.name
}

impl Default for OntologyState {
    /// The empty registry.
    fn default() -> (r: Self)
        ensures
            r.wf(),
            r@ == empty_model(),
    {
        OntologyState::new()
    }
}

/// The content of an empty registry.
pub open spec fn empty_model() -> OntologyModel {
    OntologyModel {
        tags: Map::empty(),
        names: Map::empty(),
        dag: DagModel { tags: Set::empty(), edges: Set::empty() },
        relations: Seq::empty(),
        modules: Map::empty(),
    }
}

impl OntologyState {
    pub open spec fn view(&self) -> OntologyModel {
        OntologyModel {
            tags: self.tags@.map_values(|d: TagDefinition| d@),
            names: self.names@,
            dag: self.dag@,
            relations: self.relations@,
            modules: self.installed_modules@.map_values(|r: ModuleRecord| r@),
        }
    }

    pub open spec fn wf(&self) -> bool {
        &&& self.tags.wf()
        &&& self.names.wf()
        &&& self.dag.wf()
        &&& self.installed_modules.wf()
        &&& model_ok(self@)
    }

    /// The empty registry.
    pub fn new() -> (r: Self)
        ensures
            r.wf(),
            r@ == empty_model(),
    {
        let r = OntologyState {
            tags: OrdMap::new(),
            names: OrdMap::new(),
            dag: ImplicationDag::new(),
            relations: Vec::new(),
            installed_modules: OrdMap::new(),
        };
        proof {
            assert(r@.tags =~= Map::<TagId, TagModel>::empty());
            assert(r@.modules =~= Map::<Seq<char>, RecordModel>::empty());
            assert(r@.dag =~= empty_model().dag);
        }
        r
    }

    /// A copy of the registry.
    pub fn duplicate(&self) -> (r: Self)
        requires
            self.wf(),
        ensures
            r.wf(),
            r@ == self@,
    {
        let mut names: OrdMap<String, TagId> = OrdMap::new();
        let total = self.names.len();
        let mut i: usize = 0;
        let ghost s = self.names.items();
        proof {
            lemma_items_map::<String, TagId>(s);
        }
        while i < total
            invariant
                i <= total,
                self.names.wf(),
                s == self.names.items(),
                total == s.len(),
                names.wf(),
                forall|k: Seq<char>| #[trigger]
                    names@.contains_key(k) ==> self.names@.contains_key(k) && names@[k]
                        == self.names@[k],
                forall|j: int| 0 <= j < i ==> names@.contains_key(#[trigger] s[j].0),
            decreases total - i,
        {
            proof {
                lemma_items_map::<String, TagId>(s);
            }
            names.insert(self.names.key_at(i).copy_key(), *self.names.value_at(i));
            i = i + 1;
        }
        proof {
            assert(names@ =~= self.names@) by {
                assert forall|k: Seq<char>| self.names@.contains_key(k) implies names@.contains_key(
                    k,
                ) by {
                    let j = choose|j: int| 0 <= j < s.len() && #[trigger] s[j].0 == k;
                    assert(names@.contains_key(s[j].0));
                }
            }
        }
        let r = OntologyState {
            tags: self.tags.duplicate(),
            names,
            dag: self.dag.duplicate(),
            relations: copy_list(&self.relations),
            installed_modules: self.installed_modules.duplicate(),
        };
        proof {
            assert(r@.tags =~= self@.tags);
            assert(r@.modules =~= self@.modules);
        }
        r
    }

    /// Install a module. Where anything stands in the way the registry is
    /// left untouched; the allocator has moved past the ids it handed out.
    pub fn install(&mut self, module: OntologyModule, allocator: &mut IdAllocator) -> (r: Result<
        InstallResult,
        OntologyError,
    >)
        requires
            old(self).wf(),
            old(self)@.modules.contains_key(module@.id) || fits(
                old(self)@,
                old(allocator).next as int,
                module@,
            ),
        ensures
            final(self).wf(),
            old(self)@.modules.contains_key(module@.id) ==> {
                &&& r is Err
                &&& r->Err_0 is ModuleAlreadyInstalled
                &&& r->Err_0->ModuleAlreadyInstalled_0@ == module@.id
                &&& *final(self) == *old(self)
                &&& *final(allocator) == *old(allocator)
            },
            !old(self)@.modules.contains_key(module@.id) ==> {
                &&& final(allocator).next == registered(
                    old(self)@,
                    old(allocator).next as int,
                    module@.tags,
                    module@.tags.len() as int,
                ).next
                &&& match installed(old(self)@, old(allocator).next as int, module@) {
                    Ok(i) => r is Ok && result_reports(r->Ok_0, i, module@) && final(self)@ == i.model,
                    Err(f) => r is Err && install_reports(r->Err_0, f) && *final(self) == *old(self),
                }
            },
    {
        if self.installed_modules.contains_key(&module.id) {
            return Err(OntologyError::ModuleAlreadyInstalled(module.id));
        }
        let mut work = self.duplicate();
        match work.install_inner(&module, allocator) {
            Ok(res) => {
                *self = work;
                Ok(res)
            },
            Err(e) => Err(e),
        }
    }

    /// Install a module in place. After an error the registry is half changed.
    pub(crate) fn install_inner(&mut self, module: &OntologyModule, allocator: &mut IdAllocator) -> (r: Result<
        InstallResult,
        OntologyError,
    >)
        requires
            old(self).wf(),
            fits(old(self)@, old(allocator).next as int, module@),
        ensures
            final(self).wf(),
            final(allocator).next == registered(
                old(self)@,
                old(allocator).next as int,
                module@.tags,
                module@.tags.len() as int,
            ).next,
            match installed(old(self)@, old(allocator).next as int, module@) {
                Ok(i) => r is Ok && result_reports(r->Ok_0, i, module@) && final(self)@ == i.model,
                Err(f) => r is Err && install_reports(r->Err_0, f),
            },
    {
        let (fresh, skipped) = self.register_tags(&module.tags, allocator);
        let imps = match self.add_implications(&module.implications) {
            Ok(v) => v,
            Err(e) => {
                return Err(e);
            },
        };
        let rels = match self.add_relations(&module.relations) {
            Ok(v) => v,
            Err(e) => {
                return Err(e);
            },
        };
        match self.check_axis_invariant() {
            Ok(_) => {},
            Err(e) => {
                return Err(e);
            },
        }
        let registered_count: usize = fresh.len();
        let added: usize = imps.len();
        let record = ModuleRecord {
            id: module.id.clone(),
            version: module.version.clone(),
            name: module.name.clone(),
            installed_tags: fresh,
            installed_implications: imps,
            installed_relations: rels,
        };
        let ghost before = self@;
        self.installed_modules.insert(module.id.clone(), record);
        proof {
            assert(self@.modules =~= before.modules.insert(module@.id, record@));
            assert(self@.tags =~= before.tags);
        }
        Ok(
            InstallResult {
                tags_registered: registered_count,
                tags_skipped: skipped,
                implications_added: added,
                module_id: module.id.clone(),
                module_name: module.name.clone(),
            },
        )
    }

    /// Register the definitions whose names are not taken. Returns the ids
    /// handed out and the number of definitions skipped.
    fn register_tags(&mut self, defs: &Vec<TagDefinition>, allocator: &mut IdAllocator) -> (r: (
        Vec<TagId>,
        usize,
    ))
        requires
            old(self).wf(),
            registered(
                old(self)@,
                old(allocator).next as int,
                defs@.map_values(|d: TagDefinition| d@),
                defs@.len() as int,
            ).next <= u32::MAX,
            old(self)@.dag.tags.len() + defs@.len() <= u32::MAX,
        ensures
            final(self).wf(),
            ({
                let g = registered(
                    old(self)@,
                    old(allocator).next as int,
                    defs@.map_values(|d: TagDefinition| d@),
                    defs@.len() as int,
                );
                &&& final(self)@ == g.model
                &&& final(allocator).next == g.next
                &&& r.0@ == g.fresh
                &&& r.1 == g.skipped
            }),
            final(self)@.dag.edges == old(self)@.dag.edges,
            final(self)@.modules == old(self)@.modules,
    {
        let ghost m = self@;
        let ghost next = allocator.next as int;
        let ghost ds = defs@.map_values(|d: TagDefinition| d@);
        let ghost n = defs@.len() as int;
        let mut fresh: Vec<TagId> = Vec::new();
        let mut skipped: usize = 0;
        let mut i: usize = 0;
        proof {
            self.dag.edges_join_tags();
        }
        while i < defs.len()
            invariant
                i <= n,
                n == defs@.len(),
                ds == defs@.map_values(|d: TagDefinition| d@),
                self.wf(),
                self@ == registered(m, next, ds, i as int).model,
                allocator.next == registered(m, next, ds, i as int).next,
                fresh@ == registered(m, next, ds, i as int).fresh,
                skipped == registered(m, next, ds, i as int).skipped,
                skipped <= i,
                registered(m, next, ds, n).next <= u32::MAX,
                self@.dag.tags.finite(),
                self@.dag.tags.len() <= m.dag.tags.len() + i,
                m.dag.tags.len() + n <= u32::MAX,
                self@.dag.edges == m.dag.edges,
                self@.modules == m.modules,
            decreases n - i,
        {
            let ghost before = self@;
            proof {
                lemma_registered_grows(m, next, ds, i + 1, n);
            }
            let def = &defs[i];
            let taken: Option<TagId> = match self.names.get(&def.name) {
                Some(t) => Some(*t),
                None => None,
            };
            match taken {
                Some(existing) => {
                    skipped = skipped + 1;
                    allocator.observe(existing);
                },
                None => {
                    let id = allocator.next_id();
                    let mut new_def = def.duplicate();
                    new_def.id = id;
                    self.dag.add_tag(id);
                    let key = new_def.name.clone();
                    self.names.insert(key, id);
                    self.tags.insert(id, new_def);
                    fresh.push(id);
                    proof {
                        assert(self@.tags =~= before.tags.insert(id, new_def@));
                        assert(self@.modules =~= before.modules);
                        assert(self@ =~= with_tag(before, id, ds[i as int]));
                    }
                },
            }
            i = i + 1;
        }
        (fresh, skipped)
    }

    /// The tag of this name.
    fn resolve(&self, name: &String) -> (r: Result<TagId, OntologyError>)
        requires
            self.wf(),
        ensures
            match r {
                Ok(t) => self@.names.contains_key(name@) && self@.names[name@] == t,
                Err(e) => !self@.names.contains_key(name@) && install_reports(
                    e,
                    InstallFault::Unknown(name@),
                ),
            },
    {
        match self.names.get(name) {
            Some(t) => Ok(*t),
            None => Err(OntologyError::UnknownTag(name.clone())),
        }
    }

    /// Add implications by name. Returns the edges.
    fn add_implications(&mut self, imps: &Vec<(String, String)>) -> (r: Result<
        Vec<(TagId, TagId)>,
        OntologyError,
    >)
        requires
            old(self).wf(),
            old(self)@.dag.edges.len() + imps@.len() <= u32::MAX,
        ensures
            final(self).wf(),
            match linked(
                old(self)@,
                imps@.map_values(|p: (String, String)| (p.0@, p.1@)),
                imps@.len() as int,
            ) {
                Ok((n, added)) => r is Ok && r->Ok_0@ == added && final(self)@ == n,
                Err(f) => r is Err && install_reports(r->Err_0, f),
            },
    {
        let ghost m = self@;
        let ghost ps = imps@.map_values(|p: (String, String)| (p.0@, p.1@));
        let ghost n = imps@.len() as int;
        let mut added: Vec<(TagId, TagId)> = Vec::new();
        let mut i: usize = 0;
        proof {
            self.dag.edges_join_tags();
        }
        while i < imps.len()
            invariant
                i <= n,
                n == imps@.len(),
                m == old(self)@,
                ps == imps@.map_values(|p: (String, String)| (p.0@, p.1@)),
                self.wf(),
                linked(m, ps, i as int) == Ok::<
                    (OntologyModel, Seq<(TagId, TagId)>),
                    InstallFault,
                >((self@, added@)),
                self@.dag.edges.finite(),
                self@.dag.edges.len() <= m.dag.edges.len() + i,
                m.dag.edges.len() + n <= u32::MAX,
            decreases n - i,
        {
            let ghost before = self@;
            let from = match self.resolve(&imps[i].0) {
                Ok(t) => t,
                Err(e) => {
                    proof {
                        lemma_linked_fault(m, ps, i + 1, n);
                    }
                    return Err(e);
                },
            };
            let to = match self.resolve(&imps[i].1) {
                Ok(t) => t,
                Err(e) => {
                    proof {
                        lemma_linked_fault(m, ps, i + 1, n);
                    }
                    return Err(e);
                },
            };
            match self.dag.add_implication(from, to) {
                Ok(_) => {},
                Err(e) => {
                    proof {
                        assert(self@.tags =~= before.tags);
                        assert(self@.modules =~= before.modules);
                        lemma_linked_fault(m, ps, i + 1, n);
                    }
                    return Err(e);
                },
            }
            added.push((from, to));
            let ghost mid = *self;
            match self.tags.get_mut(&from) {
                Some(def) => {
                    if !has_tag(&def.implies, to) {
                        def.implies.push(to);
                    }
                },
                None => {},
            }
            proof {
                assert(self@.modules =~= before.modules);
                assert(mid@.tags =~= before.tags);
                assert(self@.tags =~= with_implication(before, from, to).tags);
                assert(self@ =~= with_implication(before, from, to));
            }
            i = i + 1;
        }
        Ok(added)
    }

    /// Add relations by name. Returns the relations.
    fn add_relations(&mut self, rels: &Vec<(String, TagRelation, String)>) -> (r: Result<
        Vec<(TagId, TagRelation, TagId)>,
        OntologyError,
    >)
        requires
            old(self).wf(),
        ensures
            final(self).wf(),
            match related(
                old(self)@,
                rels@.map_values(|p: (String, TagRelation, String)| (p.0@, p.1, p.2@)),
                rels@.len() as int,
            ) {
                Ok((n, added)) => r is Ok && r->Ok_0@ == added && final(self)@ == n,
                Err(f) => r is Err && install_reports(r->Err_0, f),
            },
    {
        let ghost m = self@;
        let ghost ps = rels@.map_values(
            |p: (String, TagRelation, String)| (p.0@, p.1, p.2@),
        );
        let ghost n = rels@.len() as int;
        let mut added: Vec<(TagId, TagRelation, TagId)> = Vec::new();
        let mut i: usize = 0;
        while i < rels.len()
            invariant
                i <= n,
                n == rels@.len(),
                m == old(self)@,
                ps == rels@.map_values(|p: (String, TagRelation, String)| (p.0@, p.1, p.2@)),
                self.wf(),
                related(m, ps, i as int) == Ok::<(OntologyModel, Seq<Relation>), InstallFault>(
                    (self@, added@),
                ),
            decreases n - i,
        {
            let ghost before = self@;
            let kind = rels[i].1;
            if kind == TagRelation::ImpliedBy {
                proof {
                    lemma_related_fault(m, ps, i + 1, n);
                }
                return Err(
                    OntologyError::ModuleParse(
                        "use [[implications]] instead of a relation of kind `implied-by`".to_owned(),
                    ),
                );
            }
            let from = match self.resolve(&rels[i].0) {
                Ok(t) => t,
                Err(e) => {
                    proof {
                        lemma_related_fault(m, ps, i + 1, n);
                    }
                    return Err(e);
                },
            };
            let to = match self.resolve(&rels[i].2) {
                Ok(t) => t,
                Err(e) => {
                    proof {
                        lemma_related_fault(m, ps, i + 1, n);
                    }
                    return Err(e);
                },
            };
            let edge = (from, kind, to);
            if !has_relation(&self.relations, edge) {
                self.relations.push(edge);
            }
            added.push(edge);
            proof {
                assert(self@.tags =~= before.tags);
                assert(self@.modules =~= before.modules);
                assert(self@ =~= with_relation(before, edge));
            }
            i = i + 1;
        }
        Ok(added)
    }

    /// The tags that declare an axis, ascending.
    fn declaring(&self, axis: StorageAxis) -> (r: Vec<TagId>)
        requires
            self.wf(),
        ensures
            tags_ascend(r@),
            forall|t: TagId| #[trigger] r@.contains(t) <==> declares(self@, axis, t),
    {
        let total = self.tags.len();
        let ghost s = self.tags.items();
        let mut out: Vec<TagId> = Vec::new();
        let mut i: usize = 0;
        while i < total
            invariant
                i <= total,
                self.wf(),
                s == self.tags.items(),
                total == s.len(),
                forall|j: int| 0 <= j < out@.len() ==> listed(s, i as int, #[trigger] out@[j]),
                tags_ascend(out@),
                forall|t: TagId| #[trigger] out@.contains(t) ==> declares(self@, axis, t),
                forall|k: int|
                    0 <= k < i && declares(self@, axis, #[trigger] s[k].0) ==> out@.contains(s[k].0),
            decreases total - i,
        {
            proof {
                lemma_items_map::<TagId, TagDefinition>(s);
                assert(self@.tags.contains_key(s[i as int].0));
                assert(self@.tags[s[i as int].0] == s[i as int].1@);
            }
            let t = *self.tags.key_at(i);
            let def = self.tags.value_at(i);
            let ghost before = out@;
            if declares_axis(&def.storage, axis) {
                proof {
                    assert forall|j: int| 0 <= j < before.len() implies (#[trigger] before[j]).id
                        < t.id by {
                        assert(listed(s, i as int, before[j]));
                        let k = choose|k: int| 0 <= k < i && #[trigger] s[k].0 == before[j];
                        assert(TagId::precedes(s[k].0, s[i as int].0));
                    }
                }
                out.push(t);
                proof {
                    assert(out@[before.len() as int] == t);
                    assert forall|x: TagId| #[trigger] out@.contains(x) implies declares(
                        self@,
                        axis,
                        x,
                    ) by {
                        let j = choose|j: int| 0 <= j < out@.len() && out@[j] == x;
                        if j < before.len() {
                            assert(before[j] == x);
                            assert(before.contains(x));
                        }
                    }
                    assert forall|k: int|
                        0 <= k < i + 1 && declares(self@, axis, #[trigger] s[k].0) implies
                        out@.contains(s[k].0) by {
                        if k < i {
                            let j = choose|j: int| 0 <= j < before.len() && before[j] == s[k].0;
                            assert(out@[j] == s[k].0);
                        }
                    }
                    assert forall|j: int| 0 <= j < out@.len() implies listed(
                        s,
                        i + 1,
                        #[trigger] out@[j],
                    ) by {
                        if j < before.len() {
                            assert(listed(s, i as int, before[j]));
                            let k = choose|k: int| 0 <= k < i && #[trigger] s[k].0 == before[j];
                            assert(s[k].0 == out@[j]);
                        } else {
                            assert(s[i as int].0 == out@[j]);
                        }
                    }
                }
            }
            i = i + 1;
        }
        proof {
            assert forall|t: TagId| declares(self@, axis, t) implies #[trigger] out@.contains(t) by {
                assert(self.tags@.contains_key(t));
                let k = choose|k: int| 0 <= k < s.len() && #[trigger] s[k].0 == t;
                assert(out@.contains(s[k].0));
            }
        }
        out
    }

    /// The conflict with the smallest tags on one axis, if there is one.
    fn axis_conflict(&self, axis: StorageAxis) -> (r: Option<(TagId, TagId)>)
        requires
            self.wf(),
        ensures
            match r {
                None => axis_clear(self@, axis),
                Some((a, b)) => {
                    &&& conflict(self@, axis, a, b)
                    &&& forall|c: TagId, d: TagId| #[trigger]
                        conflict(self@, axis, c, d) ==> (c, d) == (a, b) || pair_precedes(
                            (a, b),
                            (c, d),
                        )
                },
            },
    {
        let list = self.declaring(axis);
        let ghost m = self@;
        let mut i: usize = 0;
        while i < list.len()
            invariant
                i <= list@.len(),
                self.wf(),
                m == self@,
                tags_ascend(list@),
                forall|t: TagId| #[trigger] list@.contains(t) <==> declares(m, axis, t),
                forall|x: int, y: int|
                    0 <= x < i && x < y < list@.len() ==> !conflict(
                        m,
                        axis,
                        #[trigger] list@[x],
                        #[trigger] list@[y],
                    ),
            decreases list@.len() - i,
        {
            let a = list[i];
            let mut j: usize = i + 1;
            while j < list.len()
                invariant
                    i < j <= list@.len(),
                    self.wf(),
                    m == self@,
                    a == list@[i as int],
                    tags_ascend(list@),
                    forall|t: TagId| #[trigger] list@.contains(t) <==> declares(m, axis, t),
                    forall|x: int, y: int|
                        0 <= x < i && x < y < list@.len() ==> !conflict(
                            m,
                            axis,
                            #[trigger] list@[x],
                            #[trigger] list@[y],
                        ),
                    forall|y: int| i < y < j ==> !conflict(m, axis, a, #[trigger] list@[y]),
                decreases list@.len() - j,
            {
                let b = list[j];
                if !self.dag.is_a(a, b) && !self.dag.is_a(b, a) {
                    proof {
                        assert(list@.contains(a) && list@.contains(b));
                        assert forall|c: TagId, d: TagId| #[trigger]
                            conflict(m, axis, c, d) implies (c, d) == (a, b) || pair_precedes(
                            (a, b),
                            (c, d),
                        ) by {
                            assert(list@.contains(c) && list@.contains(d));
                            let x = choose|x: int| 0 <= x < list@.len() && list@[x] == c;
                            let y = choose|y: int| 0 <= y < list@.len() && list@[y] == d;
                            assert(x < y);
                            assert(list@[x] == c && list@[y] == d);
                        }
                    }
                    return Some((a, b));
                }
                j = j + 1;
            }
            i = i + 1;
        }
        proof {
            assert forall|c: TagId, d: TagId| !#[trigger] conflict(m, axis, c, d) by {
                if conflict(m, axis, c, d) {
                    assert(list@.contains(c) && list@.contains(d));
                    let x = choose|x: int| 0 <= x < list@.len() && list@[x] == c;
                    let y = choose|y: int| 0 <= y < list@.len() && list@[y] == d;
                    assert(x < y);
                    assert(!conflict(m, axis, list@[x], list@[y]));
                }
            }
        }
        None
    }

    fn axis_error(&self, axis: StorageAxis, a: TagId, b: TagId) -> (r: OntologyError)
        requires
            self.wf(),
            first_conflict(self@, axis, a, b),
        ensures
            install_reports(r, InstallFault::Axis(self@)),
    {
        let a_name = match self.tags.get(&a) {
            Some(d) => d.name.clone(),
            None => String::new(),
        };
        let b_name = match self.tags.get(&b) {
            Some(d) => d.name.clone(),
            None => String::new(),
        };
        OntologyError::AxisConflict { axis, a, a_name, b, b_name }
    }

    /// On each axis every two declaring tags must form a chain in the
    /// implication graph.
    fn check_axis_invariant(&self) -> (r: Result<(), OntologyError>)
        requires
            self.wf(),
        ensures
            match r {
                Ok(_) => axes_clear(self@),
                Err(e) => !axes_clear(self@) && install_reports(e, InstallFault::Axis(self@)),
            },
    {
        match self.axis_conflict(StorageAxis::Chunking) {
            Some((a, b)) => {
                return Err(self.axis_error(StorageAxis::Chunking, a, b));
            },
            None => {},
        }
        match self.axis_conflict(StorageAxis::Compression) {
            Some((a, b)) => {
                return Err(self.axis_error(StorageAxis::Compression, a, b));
            },
            None => {},
        }
        match self.axis_conflict(StorageAxis::Encryption) {
            Some((a, b)) => {
                return Err(self.axis_error(StorageAxis::Encryption, a, b));
            },
            None => {},
        }
        Ok(())
    }
}

/// `t` is the key of one of the first `i` entries.
spec fn listed(s: Seq<(TagId, TagDefinition)>, i: int, t: TagId) -> bool {
    exists|k: int| 0 <= k < i && #[trigger] s[k].0 == t
}

pub(crate) fn declares_axis(p: &Option<StoragePolicy>, axis: StorageAxis) -> (r: bool)
    ensures
        r == (*p is Some && axis_set(p->0, axis)),
{
    match p {
        None => false,
        Some(p) => match axis {
            StorageAxis::Chunking => p.chunking.is_some(),
            StorageAxis::Compression => p.compression.is_some(),
            StorageAxis::Encryption => p.encryption.is_some(),
        },
    }
}

/// Whether the list holds the relation.
pub(crate) fn has_relation(v: &Vec<(TagId, TagRelation, TagId)>, e: (TagId, TagRelation, TagId)) -> (r: bool)
    ensures
        r == v@.contains(e),
{
    let mut i: usize = 0;
    while i < v.len()
        invariant
            i <= v@.len(),
            forall|j: int| 0 <= j < i ==> v@[j] != e,
        decreases v@.len() - i,
    {
        let x = v[i];
        if x.0 == e.0 && x.1 == e.1 && x.2 == e.2 {
            proof {
                assert(v@[i as int] == e);
            }
            return true;
        }
        i = i + 1;
    }
    false
}

/// Whether the list holds the pair.
pub(crate) fn has_pair(v: &Vec<(TagId, TagId)>, e: (TagId, TagId)) -> (r: bool)
    ensures
        r == v@.contains(e),
{
    let mut i: usize = 0;
    while i < v.len()
        invariant
            i <= v@.len(),
            forall|j: int| 0 <= j < i ==> v@[j] != e,
        decreases v@.len() - i,
    {
        let x = v[i];
        if x.0 == e.0 && x.1 == e.1 {
            proof {
                assert(v@[i as int] == e);
            }
            return true;
        }
        i = i + 1;
    }
    false
}

pub proof fn lemma_registered_grows(m: OntologyModel, next: int, defs: Seq<TagModel>, k: int, n: int)
    requires
        0 <= k <= n,
    ensures
        registered(m, next, defs, k).next <= registered(m, next, defs, n).next,
    decreases n - k,
{
    if k < n {
        lemma_registered_grows(m, next, defs, k, n - 1);
    }
}

pub proof fn lemma_skipped_bound(m: OntologyModel, next: int, defs: Seq<TagModel>, k: int)
    requires
        0 <= k,
    ensures
        registered(m, next, defs, k).skipped <= k,
    decreases k,
{
    if k > 0 {
        lemma_skipped_bound(m, next, defs, k - 1);
    }
}

proof fn lemma_linked_fault(m: OntologyModel, imps: Seq<(Seq<char>, Seq<char>)>, k: int, n: int)
    requires
        0 <= k <= n,
        linked(m, imps, k) is Err,
    ensures
        linked(m, imps, n) == linked(m, imps, k),
    decreases n - k,
{
    if k < n {
        lemma_linked_fault(m, imps, k, n - 1);
    }
}

proof fn lemma_related_fault(
    m: OntologyModel,
    rels: Seq<(Seq<char>, TagRelation, Seq<char>)>,
    k: int,
    n: int,
)
    requires
        0 <= k <= n,
        related(m, rels, k) is Err,
    ensures
        related(m, rels, n) == related(m, rels, k),
    decreases n - k,
{
    if k < n {
        lemma_related_fault(m, rels, k, n - 1);
    }
}

} // verus!
