//! Upgrading an installed module.

use vstd::prelude::*;
use crate::ontology::error::OntologyError;
use crate::ontology::module::{IdAllocator, InstallResult, ModuleModel, OntologyModule};
use crate::ontology::scrub::names_of;
use crate::ontology::state::{copy_list, fits, has_pair, has_relation, install_reports, installed,
    lemma_registered_grows, lemma_skipped_bound, names_lead, Installed, ModuleRecord, OntologyModel,
    OntologyState, RecordModel};
use crate::ordmap::{lemma_items_map, Duplicate, Key, OrdMap};
use crate::text::{joined, same_text};
use crate::types::id::TagId;
use crate::types::tag::{copy_tags, has_tag, TagDefinition, TagModel, TagRelation};

verus! {

/// One of the definitions has this name.
pub open spec fn defines(tags: Seq<TagModel>, name: Seq<char>) -> bool {
    exists|i: int| 0 <= i < tags.len() && (#[trigger] tags[i]).name == name
}

/// The names of installed tags of the module that its new version lacks.
pub open spec fn dropped(m: OntologyModel, new: ModuleModel) -> Set<Seq<char>> {
    names_of(m.tags, m.modules[new.id].tags.to_set()).filter(
        |n: Seq<char>| !defines(new.tags, n),
    )
}

/// `n` is the first of the names in byte order.
pub open spec fn least(names: Set<Seq<char>>, n: Seq<char>) -> bool {
    &&& names.contains(n)
    &&& forall|k: Seq<char>| #[trigger] names.contains(k) ==> k == n || String::precedes(n, k)
}

/// Definition `i` of the new version has a name that is registered with
/// other semantics.
pub open spec fn changed(m: OntologyModel, new: ModuleModel, i: int) -> bool {
    &&& m.names.contains_key(new.tags[i].name)
    &&& m.tags[m.names[new.tags[i].name]].semantics != new.tags[i].semantics
}

/// No tag has a larger id.
pub open spec fn largest(tags: Map<TagId, TagModel>, t: TagId) -> bool {
    &&& tags.contains_key(t)
    &&& forall|u: TagId| #[trigger] tags.contains_key(u) ==> u.id <= t.id
}

/// The id after the largest, or `1` where there is no tag.
pub open spec fn fresh_next(tags: Map<TagId, TagModel>) -> int {
    if exists|t: TagId| largest(tags, t) {
        (choose|t: TagId| largest(tags, t)).id + 1
    } else {
        1
    }
}

/// `a`, followed by what `b` has beyond it.
pub open spec fn merged<A>(a: Seq<A>, b: Seq<A>) -> Seq<A>
    decreases b.len(),
{
    if b.len() == 0 {
        a
    } else {
        let s = merged(a, b.drop_last());
        if s.contains(b.last()) {
            s
        } else {
            s.push(b.last())
        }
    }
}

/// The record of the new version, with what the old one listed.
pub open spec fn merged_record(prev: RecordModel, new: RecordModel) -> RecordModel {
    RecordModel {
        tags: merged(prev.tags, new.tags),
        implications: merged(prev.implications, new.implications),
        relations: merged(prev.relations, new.relations),
        ..new
    }
}

/// `m` without the record of module `id`.
pub open spec fn without_record(m: OntologyModel, id: Seq<char>) -> OntologyModel {
    OntologyModel { modules: m.modules.remove(id), ..m }
}

/// The registry after the new version, whose installation came to `i`.
pub open spec fn upgraded(m: OntologyModel, new: ModuleModel, i: Installed) -> OntologyModel {
    OntologyModel {
        modules: i.model.modules.insert(
            new.id,
            merged_record(m.modules[new.id], i.model.modules[new.id]),
        ),
        ..i.model
    }
}

impl OntologyState {
    /// Upgrade an installed module. New tags, implications and relations are
    /// added; a version that lacks an installed tag or changes the semantics
    /// of a registered one is refused. After any error the registry is
    /// untouched.
    pub fn upgrade(&mut self, new: OntologyModule) -> (r: Result<InstallResult, OntologyError>)
        requires
            old(self).wf(),
            names_lead(old(self)@),
            old(self)@.modules.contains_key(new@.id) ==> fits(
                without_record(old(self)@, new@.id),
                fresh_next(old(self)@.tags),
                new@,
            ) && old(self)@.modules[new@.id].tags.len() + new@.tags.len() <= usize::MAX,
        ensures
            final(self).wf(),
            r is Err ==> *final(self) == *old(self),
            ({
                let m = old(self)@;
                if !m.modules.contains_key(new@.id) {
                    &&& r is Err
                    &&& r->Err_0 is ModuleNotInstalled
                    &&& r->Err_0->ModuleNotInstalled_0@ == new@.id
                } else if exists|n: Seq<char>| dropped(m, new@).contains(n) {
                    &&& r is Err
                    &&& r->Err_0 is ModuleParse
                    &&& exists|n: Seq<char>| #[trigger]
                        least(dropped(m, new@), n) && r->Err_0->ModuleParse_0@
                            == "upgrade would remove tag `"@ + n
                            + "`; explicit migration required"@
                } else if exists|i: int| 0 <= i < new@.tags.len() && changed(m, new@, i) {
                    &&& r is Err
                    &&& r->Err_0 is ModuleParse
                    &&& exists|i: int|
                        {
                            &&& 0 <= i < new@.tags.len()
                            &&& #[trigger] changed(m, new@, i)
                            &&& forall|j: int| 0 <= j < i ==> !#[trigger] changed(m, new@, j)
                            &&& r->Err_0->ModuleParse_0@
                                == "upgrade would change semantics of tag `"@ + new@.tags[i].name
                                + "`"@
                        }
                } else {
                    match installed(without_record(m, new@.id), fresh_next(m.tags), new@) {
                        Ok(i) => {
                            &&& r is Ok
                            &&& final(self)@ == upgraded(m, new@, i)
                            &&& r->Ok_0.tags_registered == i.registered
                            &&& r->Ok_0.tags_skipped == i.skipped + m.modules[new@.id].tags.len()
                            &&& r->Ok_0.implications_added == i.implications
                            &&& r->Ok_0.module_id@ == new@.id
                            &&& r->Ok_0.module_name@ == new@.name
                        },
                        Err(f) => r is Err && install_reports(r->Err_0, f),
                    }
                }
            }),
    {
        let ghost m = self@;
        let prev = match self.installed_modules.get(&new.id) {
            Some(r) => r.copy_value(),
            None => {
                return Err(OntologyError::ModuleNotInstalled(new.id));
            },
        };
        match self.dropped_name(&prev, &new) {
            Some(n) => {
                let text = joined(
                    "upgrade would remove tag `",
                    n.as_str(),
                    "`; explicit migration required",
                );
                return Err(OntologyError::ModuleParse(text));
            },
            None => {},
        }
        match self.changed_tag(&new) {
            Some(i) => {
                let text = joined(
                    "upgrade would change semantics of tag `",
                    new.tags[i].name.as_str(),
                    "`",
                );
                return Err(OntologyError::ModuleParse(text));
            },
            None => {},
        }
        let mut work = self.duplicate();
        work.installed_modules.remove(&new.id);
        proof {
            assert(work@.modules =~= m.modules.remove(new@.id));
            assert(work@.tags =~= m.tags);
            assert(work@ =~= without_record(m, new@.id));
            lemma_registered_grows(
                work@,
                fresh_next(m.tags),
                new@.tags,
                0,
                new@.tags.len() as int,
            );
        }
        let mut allocator = self.fresh_allocator();
        let res = match work.install_inner(&new, &mut allocator) {
            Ok(res) => res,
            Err(e) => {
                return Err(e);
            },
        };
        let ghost mid = work@;
        proof {
            assert(mid.modules.contains_key(new@.id));
            assert(work.installed_modules@.contains_key(new@.id));
        }
        match work.installed_modules.remove(&new.id) {
            Some(rec) => {
                let combined = ModuleRecord {
                    installed_tags: merge_tags(&prev.installed_tags, &rec.installed_tags),
                    installed_implications: merge_pairs(
                        &prev.installed_implications,
                        &rec.installed_implications,
                    ),
                    installed_relations: merge_relations(
                        &prev.installed_relations,
                        &rec.installed_relations,
                    ),
                    id: rec.id,
                    version: rec.version,
                    name: rec.name,
                };
                proof {
                    assert(rec@ == mid.modules[new@.id]);
                    assert(prev@ == m.modules[new@.id]);
                    assert(combined@ == merged_record(prev@, rec@));
                }
                work.installed_modules.insert(new.id.clone(), combined);
                proof {
                    assert(work@.modules =~= mid.modules.insert(new@.id, combined@));
                    assert(work@.tags =~= mid.tags);
                }
            },
            None => {},
        }
        let skipped: usize = res.tags_skipped;
        proof {
            lemma_skipped_bound(
                without_record(m, new@.id),
                fresh_next(m.tags),
                new@.tags,
                new@.tags.len() as int,
            );
        }
        *self = work;
        Ok(
            InstallResult {
                tags_registered: res.tags_registered,
                tags_skipped: skipped + prev.installed_tags.len(),
                implications_added: res.implications_added,
                module_id: res.module_id,
                module_name: res.module_name,
            },
        )
    }

    /// The first name, in byte order, of an installed tag of the module that
    /// its new version lacks.
    fn dropped_name(&self, prev: &ModuleRecord, new: &OntologyModule) -> (r: Option<String>)
        requires
            self.wf(),
            self@.modules.contains_key(new@.id),
            prev@ == self@.modules[new@.id],
        ensures
            match r {
                Some(n) => least(dropped(self@, new@), n@),
                None => forall|n: Seq<char>| !dropped(self@, new@).contains(n),
            },
    {
        let ghost m = self@;
        let ghost list = prev.installed_tags@;
        let ghost gone = dropped(m, new@);
        let mut missing: OrdMap<String, bool> = OrdMap::new();
        let mut i: usize = 0;
        while i < prev.installed_tags.len()
            invariant
                i <= list.len(),
                list == prev.installed_tags@,
                list == m.modules[new@.id].tags,
                self.wf(),
                m == self@,
                gone == dropped(m, new@),
                missing.wf(),
                forall|n: Seq<char>| #[trigger] missing@.contains_key(n) ==> gone.contains(n),
                forall|j: int|
                    0 <= j < i && m.tags.contains_key(#[trigger] list[j]) && !defines(
                        new@.tags,
                        m.tags[list[j]].name,
                    ) ==> missing@.contains_key(m.tags[list[j]].name),
            decreases list.len() - i,
        {
            let t = prev.installed_tags[i];
            match self.tags.get(&t) {
                Some(def) => {
                    if !defines_tag(&new.tags, def.name.as_str()) {
                        proof {
                            assert(list.to_set().contains(t)) by {
                                assert(list[i as int] == t);
                            }
                            assert(m.tags.contains_key(t) && m.tags[t].name == def@.name);
                            assert(names_of(m.tags, list.to_set()).contains(def@.name));
                        }
                        missing.insert(def.name.clone(), true);
                    }
                },
                None => {},
            }
            i = i + 1;
        }
        let ghost s = missing.items();
        proof {
            lemma_items_map::<String, bool>(s);
            assert forall|n: Seq<char>| gone.contains(n) implies #[trigger] missing@.contains_key(
                n,
            ) by {
                let t = choose|t: TagId| #[trigger]
                    list.to_set().contains(t) && m.tags.contains_key(t) && m.tags[t].name == n;
                let j = choose|j: int| 0 <= j < list.len() && list[j] == t;
                assert(missing@.contains_key(m.tags[list[j]].name));
            }
        }
        if missing.len() == 0 {
            proof {
                assert forall|n: Seq<char>| !gone.contains(n) by {
                    if gone.contains(n) {
                        assert(missing@.contains_key(n));
                        let j = choose|j: int| 0 <= j < s.len() && #[trigger] s[j].0 == n;
                    }
                }
            }
            None
        } else {
            let first = missing.key_at(0).clone();
            proof {
                assert(missing@.contains_key(s[0].0));
                assert forall|k: Seq<char>| #[trigger] gone.contains(k) implies k == first@
                    || String::precedes(first@, k) by {
                    assert(missing@.contains_key(k));
                    let j = choose|j: int| 0 <= j < s.len() && #[trigger] s[j].0 == k;
                    if j > 0 {
                        assert(String::precedes(s[0].0, s[j].0));
                    }
                }
            }
            Some(first)
        }
    }

    /// The first definition of the new version whose name is registered with
    /// other semantics.
    fn changed_tag(&self, new: &OntologyModule) -> (r: Option<usize>)
        requires
            self.wf(),
            names_lead(self@),
        ensures
            match r {
                Some(i) => {
                    &&& i < new@.tags.len()
                    &&& changed(self@, new@, i as int)
                    &&& forall|j: int| 0 <= j < i ==> !#[trigger] changed(self@, new@, j)
                },
                None => forall|j: int| 0 <= j < new@.tags.len() ==> !#[trigger] changed(self@, new@, j),
            },
    {
        let mut i: usize = 0;
        while i < new.tags.len()
            invariant
                i <= new.tags@.len(),
                self.wf(),
                names_lead(self@),
                forall|j: int| 0 <= j < i ==> !#[trigger] changed(self@, new@, j),
            decreases new.tags@.len() - i,
        {
            let t = &new.tags[i];
            proof {
                assert(new@.tags[i as int] == t@);
            }
            match self.names.get(&t.name) {
                Some(id) => {
                    proof {
                        assert(self@.names.contains_key(t@.name));
                        assert(self@.tags.contains_key(*id));
                    }
                    match self.tags.get(id) {
                        Some(def) => {
                            if def.semantics != t.semantics {
                                return Some(i);
                            }
                        },
                        None => {},
                    }
                },
                None => {},
            }
            i = i + 1;
        }
        None
    }

    /// An allocator that starts after the largest tag id.
    fn fresh_allocator(&self) -> (r: IdAllocator)
        requires
            self.wf(),
            fresh_next(self@.tags) <= u32::MAX,
        ensures
            r.next == fresh_next(self@.tags),
    {
        let total = self.tags.len();
        let ghost s = self.tags.items();
        proof {
            lemma_items_map::<TagId, TagDefinition>(s);
        }
        if total == 0 {
            proof {
                assert forall|t: TagId| !largest(self@.tags, t) by {
                    if largest(self@.tags, t) {
                        assert(self.tags@.contains_key(t));
                        let j = choose|j: int| 0 <= j < s.len() && #[trigger] s[j].0 == t;
                    }
                }
            }
            IdAllocator::starting_at(1)
        } else {
            let last = *self.tags.key_at(total - 1);
            proof {
                assert(self.tags@.contains_key(s[total - 1].0));
                assert(largest(self@.tags, last)) by {
                    assert forall|u: TagId| #[trigger] self@.tags.contains_key(u) implies u.id
                        <= last.id by {
                        assert(self.tags@.contains_key(u));
                        let j = choose|j: int| 0 <= j < s.len() && #[trigger] s[j].0 == u;
                        if j < total - 1 {
                            assert(TagId::precedes(s[j].0, s[total - 1].0));
                        }
                    }
                }
                let c = choose|t: TagId| largest(self@.tags, t);
                assert(largest(self@.tags, c));
                assert(self@.tags.contains_key(c) && self@.tags.contains_key(last));
            }
            IdAllocator::starting_at(last.raw() + 1)
        }
    }
}

/// Whether one of the definitions has this name.
fn defines_tag(tags: &Vec<TagDefinition>, name: &str) -> (r: bool)
    ensures
        r == defines(tags@.map_values(|d: TagDefinition| d@), name@),
{
    let ghost ms = tags@.map_values(|d: TagDefinition| d@);
    let mut i: usize = 0;
    while i < tags.len()
        invariant
            i <= tags@.len(),
            ms == tags@.map_values(|d: TagDefinition| d@),
            forall|j: int| 0 <= j < i ==> (#[trigger] ms[j]).name != name@,
        decreases tags@.len() - i,
    {
        proof {
            assert(ms[i as int] == tags@[i as int]@);
        }
        if same_text(tags[i].name.as_str(), name) {
            return true;
        }
        i = i + 1;
    }
    false
}

fn merge_tags(a: &Vec<TagId>, b: &Vec<TagId>) -> (r: Vec<TagId>)
    ensures
        r@ == merged(a@, b@),
{
    let mut out = copy_tags(a);
    let mut i: usize = 0;
    while i < b.len()
        invariant
            i <= b@.len(),
            out@ == merged(a@, b@.take(i as int)),
        decreases b@.len() - i,
    {
        proof {
            assert(b@.take(i + 1).drop_last() =~= b@.take(i as int));
        }
        if !has_tag(&out, b[i]) {
            out.push(b[i]);
        }
        i = i + 1;
    }
    proof {
        assert(b@.take(i as int) =~= b@);
    }
    out
}

fn merge_pairs(a: &Vec<(TagId, TagId)>, b: &Vec<(TagId, TagId)>) -> (r: Vec<(TagId, TagId)>)
    ensures
        r@ == merged(a@, b@),
{
    let mut out = copy_list(a);
    let mut i: usize = 0;
    while i < b.len()
        invariant
            i <= b@.len(),
            out@ == merged(a@, b@.take(i as int)),
        decreases b@.len() - i,
    {
        proof {
            assert(b@.take(i + 1).drop_last() =~= b@.take(i as int));
        }
        if !has_pair(&out, b[i]) {
            out.push(b[i]);
        }
        i = i + 1;
    }
    proof {
        assert(b@.take(i as int) =~= b@);
    }
    out
}

fn merge_relations(
    a: &Vec<(TagId, TagRelation, TagId)>,
    b: &Vec<(TagId, TagRelation, TagId)>,
) -> (r: Vec<(TagId, TagRelation, TagId)>)
    ensures
        r@ == merged(a@, b@),
{
    let mut out = copy_list(a);
    let mut i: usize = 0;
    while i < b.len()
        invariant
            i <= b@.len(),
            out@ == merged(a@, b@.take(i as int)),
        decreases b@.len() - i,
    {
        proof {
            assert(b@.take(i + 1).drop_last() =~= b@.take(i as int));
        }
        if !has_relation(&out, b[i]) {
            out.push(b[i]);
        }
        i = i + 1;
    }
    proof {
        assert(b@.take(i as int) =~= b@);
    }
    out
}

} // verus!
