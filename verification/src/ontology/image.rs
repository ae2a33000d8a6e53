//! The ontology as it is stored: one image of the whole registry.

use vstd::prelude::*;
use crate::ontology::error::OntologyError;
use crate::ontology::implication_dag::{edge_fault, edge_refused, edges_ascend, lemma_take_to_set,
    tags_ascend, DagModel, DagSnapshot, ImplicationDag};
use crate::ontology::path::{acyclic, lemma_acyclic_subset, lemma_new_edge_cycle};
use crate::ontology::state::{consistent, copy_list, empty_model, ModuleRecord, OntologyModel,
    OntologyState, RecordModel, Relation};
use crate::ordmap::{lemma_items_map, Duplicate, Key, OrdMap};
use crate::storage::block::BtreeKind;
use crate::storage::device::{storage_text, BlockDevice, StorageError};
use crate::storage::node::{LoadedNode, SortedRun};
use crate::storage::region::{codec_fits, load_node, node_loaded, node_stored, store_node,
    stored_region_loads};
use crate::text::{dec, push_dec};
use crate::types::id::TagId;
use crate::types::tag::{copy_tags, TagDefinition, TagModel, TagRelation};

verus! {

/// Size of the region that holds the ontology.
pub const ONTOLOGY_REGION_SIZE: u64 = 262144;

/// Binary logarithm of [`ONTOLOGY_REGION_SIZE`].
pub const REGION_SIZE_LOG2: u8 = 18;

/// Format version of [`OntologyImage`]. Readers refuse newer versions.
pub const ONTOLOGY_IMAGE_FORMAT_VERSION: u16 = 1;

/// The registry in a fixed order.
#[derive(Clone, Debug, PartialEq)]
pub struct OntologyImage {
    pub format_version: u16,
    /// Tag definitions, ascending by id.
    pub tags: Vec<TagDefinition>,
    /// The implication graph.
    pub dag: DagSnapshot,
    /// Relations between tags, ascending.
    pub relations: Vec<(TagId, TagRelation, TagId)>,
    /// Records of the installed modules, ascending by id.
    pub modules: Vec<ModuleRecord>,
}

/// Where a kind of relation stands among the kinds.
pub open spec fn relation_rank(k: TagRelation) -> int {
    match k {
        TagRelation::ImpliedBy => 0,
        TagRelation::MutuallyExclusive => 1,
        TagRelation::Requires => 2,
        TagRelation::Alias => 3,
    }
}

/// `a` comes before `b`: by source, then kind, then target.
pub open spec fn relation_less(a: Relation, b: Relation) -> bool {
    ||| a.0.id < b.0.id
    ||| a.0.id == b.0.id && relation_rank(a.1) < relation_rank(b.1)
    ||| a.0.id == b.0.id && relation_rank(a.1) == relation_rank(b.1) && a.2.id < b.2.id
}

/// The relations ascend.
pub open spec fn relations_ascend(s: Seq<Relation>) -> bool {
    forall|i: int, j: int| 0 <= i < j < s.len() ==> !relation_less(#[trigger] s[j], #[trigger] s[i])
}

/// The definitions of the image.
pub open spec fn image_tags(img: OntologyImage) -> Seq<TagModel> {
    img.tags@.map_values(|d: TagDefinition| d@)
}

/// The records of the image.
pub open spec fn image_modules(img: OntologyImage) -> Seq<RecordModel> {
    img.modules@.map_values(|r: ModuleRecord| r@)
}

/// `img` is the image of `m`.
pub open spec fn is_image(img: OntologyImage, m: OntologyModel) -> bool {
    let ts = image_tags(img);
    let rs = image_modules(img);
    &&& img.format_version == ONTOLOGY_IMAGE_FORMAT_VERSION
    &&& forall|i: int, j: int| 0 <= i < j < ts.len() ==> (#[trigger] ts[i]).id.id < (#[trigger] ts[j]).id.id
    &&& forall|i: int|
        0 <= i < ts.len() ==> m.tags.contains_key((#[trigger] ts[i]).id) && m.tags[ts[i].id] == ts[i]
    &&& forall|t: TagId| #[trigger]
        m.tags.contains_key(t) ==> exists|i: int| 0 <= i < ts.len() && (#[trigger] ts[i]).id == t
    &&& tags_ascend(img.dag.tags@)
    &&& img.dag.tags@.to_set() == m.dag.tags
    &&& edges_ascend(img.dag.edges@)
    &&& img.dag.edges@.to_set() == m.dag.edges
    &&& relations_ascend(img.relations@)
    &&& img.relations@.to_multiset() == m.relations.to_multiset()
    &&& forall|i: int, j: int|
        0 <= i < j < rs.len() ==> String::precedes((#[trigger] rs[i]).id, (#[trigger] rs[j]).id)
    &&& forall|i: int|
        0 <= i < rs.len() ==> m.modules.contains_key((#[trigger] rs[i]).id) && m.modules[rs[i].id]
            == rs[i]
    &&& forall|k: Seq<char>| #[trigger]
        m.modules.contains_key(k) ==> exists|i: int| 0 <= i < rs.len() && (#[trigger] rs[i]).id == k
}

/// The first `k` definitions, each under its id; a later one replaces an
/// earlier one.
pub open spec fn tags_by_id(ts: Seq<TagModel>, k: int) -> Map<TagId, TagModel>
    decreases k,
{
    if k <= 0 {
        Map::empty()
    } else {
        tags_by_id(ts, k - 1).insert(ts[k - 1].id, ts[k - 1])
    }
}

/// The ids of the first `k` definitions by name; a later one replaces an
/// earlier one.
pub open spec fn ids_by_name(ts: Seq<TagModel>, k: int) -> Map<Seq<char>, TagId>
    decreases k,
{
    if k <= 0 {
        Map::empty()
    } else {
        ids_by_name(ts, k - 1).insert(ts[k - 1].name, ts[k - 1].id)
    }
}

/// The first `k` records, each under its module's id; a later one replaces an
/// earlier one.
pub open spec fn modules_by_id(rs: Seq<RecordModel>, k: int) -> Map<Seq<char>, RecordModel>
    decreases k,
{
    if k <= 0 {
        Map::empty()
    } else {
        modules_by_id(rs, k - 1).insert(rs[k - 1].id, rs[k - 1])
    }
}

/// What a state restored from the image holds.
pub open spec fn image_model(img: OntologyImage) -> OntologyModel {
    let ts = image_tags(img);
    let rs = image_modules(img);
    OntologyModel {
        tags: tags_by_id(ts, ts.len() as int),
        names: ids_by_name(ts, ts.len() as int),
        dag: DagModel { tags: img.dag.tags@.to_set(), edges: img.dag.edges@.to_set() },
        relations: img.relations@,
        modules: modules_by_id(rs, rs.len() as int),
    }
}

/// Edge `k` of the image is the first that the graph refuses, with error `e`.
pub open spec fn first_fault(img: OntologyImage, k: int, e: OntologyError) -> bool {
    let tags = img.dag.tags@.to_set();
    let edges = img.dag.edges@;
    &&& 0 <= k < edges.len()
    &&& edge_fault(tags, edges, k)
    &&& forall|j: int| 0 <= j < k ==> !#[trigger] edge_fault(tags, edges, j)
    &&& edge_refused(
        (DagModel { tags, edges: edges.take(k).to_set() }),
        edges[k].0,
        edges[k].1,
        e,
    )
}

/// `r` is what reading the image gives.
pub open spec fn image_read(img: OntologyImage, r: Result<OntologyState, OntologyError>) -> bool {
    if img.format_version > ONTOLOGY_IMAGE_FORMAT_VERSION {
        &&& r is Err
        &&& r->Err_0 is Cbor
        &&& r->Err_0->Cbor_0@ == "ontology image format_version "@ + dec(img.format_version as nat)
            + " exceeds supported "@ + dec(ONTOLOGY_IMAGE_FORMAT_VERSION as nat)
    } else {
        match r {
            Ok(s) => {
                &&& s.wf()
                &&& s@ == image_model(img)
                &&& forall|k: int|
                    0 <= k < img.dag.edges@.len() ==> !#[trigger] edge_fault(
                        img.dag.tags@.to_set(),
                        img.dag.edges@,
                        k,
                    )
            },
            Err(e) => exists|k: int| first_fault(img, k, e),
        }
    }
}

/// The graph of the image fits: nodes and edges are counted in 32 bits.
pub open spec fn image_fits(img: OntologyImage) -> bool {
    img.dag.tags@.len() <= u32::MAX && img.dag.edges@.len() <= u32::MAX
}

fn rank(k: TagRelation) -> (r: u8)
    ensures
        r == relation_rank(k),
{
    match k {
        TagRelation::ImpliedBy => 0,
        TagRelation::MutuallyExclusive => 1,
        TagRelation::Requires => 2,
        TagRelation::Alias => 3,
    }
}

fn is_less(a: (TagId, TagRelation, TagId), b: (TagId, TagRelation, TagId)) -> (r: bool)
    ensures
        r == relation_less(a, b),
{
    a.0.id < b.0.id || (a.0.id == b.0.id && rank(a.1) < rank(b.1)) || (a.0.id == b.0.id && rank(a.1)
        == rank(b.1) && a.2.id < b.2.id)
}

/// The relations in ascending order.
fn sort_relations(v: &Vec<(TagId, TagRelation, TagId)>) -> (r: Vec<(TagId, TagRelation, TagId)>)
    ensures
        relations_ascend(r@),
        r@.to_multiset() == v@.to_multiset(),
{
    let mut out: Vec<(TagId, TagRelation, TagId)> = Vec::new();
    let mut i: usize = 0;
    proof {
        assert(v@.take(0) =~= out@);
    }
    while i < v.len()
        invariant
            i <= v@.len(),
            relations_ascend(out@),
            out@.to_multiset() == v@.take(i as int).to_multiset(),
        decreases v@.len() - i,
    {
        let e = v[i];
        let ghost before = out@;
        let mut p: usize = 0;
        while p < out.len() && !is_less(e, out[p])
            invariant
                p <= out@.len(),
                out@ == before,
                forall|j: int| 0 <= j < p ==> !relation_less(e, #[trigger] out@[j]),
            decreases out@.len() - p,
        {
            p = p + 1;
        }
        out.insert(p, e);
        proof {
            let a = out@;
            assert(a == before.insert(p as int, e));
            assert(relations_ascend(a)) by {
                assert forall|x: int, y: int| 0 <= x < y < a.len() implies !relation_less(
                    #[trigger] a[y],
                    #[trigger] a[x],
                ) by {
                    if y < p {
                        assert(a[x] == before[x] && a[y] == before[y]);
                    } else if y == p {
                        assert(a[x] == before[x]);
                    } else if x < p {
                        assert(a[x] == before[x] && a[y] == before[y - 1]);
                    } else if x == p {
                        assert(a[y] == before[y - 1]);
                        if y - 1 > p {
                            assert(!relation_less(before[y - 1], before[p as int]));
                        }
                    } else {
                        assert(a[x] == before[x - 1] && a[y] == before[y - 1]);
                    }
                }
            }
            vstd::seq_lib::to_multiset_insert(before, p as int, e);
            assert(v@.take(i + 1) =~= v@.take(i as int).push(e));
            vstd::seq_lib::to_multiset_build(v@.take(i as int), e);
        }
        i = i + 1;
    }
    proof {
        assert(v@.take(i as int) =~= v@);
    }
    out
}

impl OntologyState {
    /// The registry in a fixed order.
    pub fn to_image(&self) -> (r: OntologyImage)
        requires
            self.wf(),
        ensures
            is_image(r, self@),
    {
        let ghost m = self@;
        let total = self.tags.len();
        let ghost s = self.tags.items();
        let mut tags: Vec<TagDefinition> = Vec::new();
        let mut i: usize = 0;
        proof {
            lemma_items_map::<TagId, TagDefinition>(s);
        }
        while i < total
            invariant
                i <= total,
                s == self.tags.items(),
                total == s.len(),
                tags@.len() == i,
                forall|j: int| 0 <= j < i ==> (#[trigger] tags@[j])@ == s[j].1@,
            decreases total - i,
        {
            tags.push(self.tags.value_at(i).duplicate());
            i = i + 1;
        }
        let count = self.installed_modules.len();
        let ghost q = self.installed_modules.items();
        let mut modules: Vec<ModuleRecord> = Vec::new();
        let mut k: usize = 0;
        proof {
            lemma_items_map::<String, ModuleRecord>(q);
        }
        while k < count
            invariant
                k <= count,
                q == self.installed_modules.items(),
                count == q.len(),
                modules@.len() == k,
                forall|j: int| 0 <= j < k ==> (#[trigger] modules@[j])@ == q[j].1@,
            decreases count - k,
        {
            modules.push(self.installed_modules.value_at(k).copy_value());
            k = k + 1;
        }
        let relations = sort_relations(&self.relations);
        let img = OntologyImage {
            format_version: ONTOLOGY_IMAGE_FORMAT_VERSION,
            tags,
            dag: self.dag.snapshot(),
            relations,
            modules,
        };
        proof {
            let ts = image_tags(img);
            let rs = image_modules(img);
            assert forall|j: int| 0 <= j < ts.len() implies (#[trigger] ts[j]).id == s[j].0 && ts[j]
                == m.tags[s[j].0] && m.tags.contains_key(s[j].0) by {
                assert(ts[j] == tags@[j]@);
                assert(self.tags@.contains_key(s[j].0));
                assert(m.tags.contains_key(s[j].0));
            }
            assert forall|a: int, b: int| 0 <= a < b < ts.len() implies (#[trigger] ts[a]).id.id < (
            #[trigger] ts[b]).id.id by {
                assert(TagId::precedes(s[a].0, s[b].0));
            }
            assert forall|t: TagId| #[trigger] m.tags.contains_key(t) implies exists|i: int|
                0 <= i < ts.len() && (#[trigger] ts[i]).id == t by {
                assert(self.tags@.contains_key(t));
                let j = choose|j: int| 0 <= j < s.len() && #[trigger] s[j].0 == t;
                assert(ts[j].id == t);
            }
            assert forall|j: int| 0 <= j < rs.len() implies (#[trigger] rs[j]).id == q[j].0 && rs[j]
                == m.modules[q[j].0] && m.modules.contains_key(q[j].0) by {
                assert(rs[j] == modules@[j]@);
                assert(self.installed_modules@.contains_key(q[j].0));
                assert(m.modules.contains_key(q[j].0));
            }
            assert forall|a: int, b: int| 0 <= a < b < rs.len() implies String::precedes(
                (#[trigger] rs[a]).id,
                (#[trigger] rs[b]).id,
            ) by {
                assert(String::precedes(q[a].0, q[b].0));
            }
            assert forall|t: Seq<char>| #[trigger] m.modules.contains_key(t) implies exists|i: int|
                0 <= i < rs.len() && (#[trigger] rs[i]).id == t by {
                assert(self.installed_modules@.contains_key(t));
                let j = choose|j: int| 0 <= j < q.len() && #[trigger] q[j].0 == t;
                assert(rs[j].id == t);
            }
        }
        img
    }

    /// A tree node with one entry: the image under snapshot `0`.
    pub fn to_loaded_node(&self) -> (r: LoadedNode<u32, OntologyImage>)
        requires
            self.wf(),
        ensures
            r.fresh(BtreeKind::Ontology, REGION_SIZE_LOG2),
            r.header.sorted_run_count == 1,
            r.entries().len() == 1,
            r.entries()[0].0 == 0,
            is_image(r.entries()[0].1, self@),
    {
        let mut entries: Vec<(u32, OntologyImage)> = Vec::new();
        entries.push((0u32, self.to_image()));
        LoadedNode::with_run(BtreeKind::Ontology, 0, REGION_SIZE_LOG2, entries)
    }

    /// The state of the entry with the highest snapshot, the later one where
    /// two have it. A node without entries gives the empty state.
    pub fn from_loaded_node(node: &LoadedNode<u32, OntologyImage>) -> (r: Result<
        Self,
        OntologyError,
    >)
        requires
            forall|i: int|
                0 <= i < node.entries().len() ==> image_fits((#[trigger] node.entries()[i]).1),
        ensures
            node.entries().len() == 0 ==> r is Ok && r->Ok_0.wf() && r->Ok_0@ == empty_model(),
            forall|i: int| #[trigger]
                is_latest(node.entries(), i) ==> image_read(node.entries()[i].1, r),
    {
        let ghost all = node.entries();
        let mut best: Option<(usize, usize)> = None;
        let ghost mut best_at: int = -1;
        let mut a: usize = 0;
        let ghost mut seen: int = 0;
        proof {
            assert(node.sorted_runs@.take(0) =~= Seq::empty());
        }
        while a < node.sorted_runs.len()
            invariant
                a <= node.sorted_runs@.len(),
                all == node.entries(),
                seen == crate::storage::node::entries_of(node.sorted_runs@.take(a as int)).len(),
                crate::storage::node::entries_of(node.sorted_runs@.take(a as int)).is_prefix_of(all),
                best is None <==> seen == 0,
                best is Some ==> {
                    &&& best->Some_0.0 < node.sorted_runs@.len()
                    &&& best->Some_0.1 < node.sorted_runs@[best->Some_0.0 as int].entries@.len()
                    &&& 0 <= best_at < seen
                    &&& all[best_at] == node.sorted_runs@[best->Some_0.0 as int].entries@[best->Some_0.1 as int]
                    &&& latest_before(all, best_at, seen)
                },
            decreases node.sorted_runs@.len() - a,
        {
            let run = &node.sorted_runs[a];
            let ghost pre = crate::storage::node::entries_of(node.sorted_runs@.take(a as int));
            proof {
                let x = node.sorted_runs@.take(a + 1);
                assert(x.drop_last() =~= node.sorted_runs@.take(a as int));
                assert(x.last() == *run);
                lemma_runs_prefix(node.sorted_runs@, a + 1);
                assert(crate::storage::node::entries_of(x) == pre + run.entries@);
            }
            let mut b: usize = 0;
            while b < run.entries.len()
                invariant
                    a < node.sorted_runs@.len(),
                    *run == node.sorted_runs@[a as int],
                    b <= run.entries@.len(),
                    all == node.entries(),
                    (pre + run.entries@).is_prefix_of(all),
                    seen == pre.len() + b,
                    best is None <==> seen == 0,
                    best is Some ==> {
                        &&& best->Some_0.0 < node.sorted_runs@.len()
                        &&& best->Some_0.1 < node.sorted_runs@[best->Some_0.0 as int].entries@.len()
                        &&& 0 <= best_at < seen
                        &&& all[best_at]
                            == node.sorted_runs@[best->Some_0.0 as int].entries@[best->Some_0.1 as int]
                        &&& latest_before(all, best_at, seen)
                    },
                decreases run.entries@.len() - b,
            {
                proof {
                    assert((pre + run.entries@)[pre.len() + b] == run.entries@[b as int]);
                    assert(all[seen] == run.entries@[b as int]);
                }
                let newer = match best {
                    None => true,
                    Some((x, y)) => run.entries[b].0 >= node.sorted_runs[x].entries[y].0,
                };
                if newer {
                    best = Some((a, b));
                    proof {
                        best_at = seen;
                    }
                }
                proof {
                    seen = seen + 1;
                }
                b = b + 1;
            }
            a = a + 1;
        }
        proof {
            assert(node.sorted_runs@.take(a as int) =~= node.sorted_runs@);
        }
        match best {
            None => Ok(OntologyState::new()),
            Some((x, y)) => {
                proof {
                    assert forall|i: int| #[trigger] is_latest(all, i) implies i == best_at by {
                        if i < best_at {
                            assert(all[best_at].0 < all[i].0);
                        } else if i > best_at {
                            assert(all[i].0 < all[best_at].0);
                        }
                    }
                }
                node.sorted_runs[x].entries[y].1.into_state()
            },
        }
    }
}

/// Among the first `n` entries, `i` has the highest key, and no later one has it.
spec fn latest_before(entries: Seq<(u32, OntologyImage)>, i: int, n: int) -> bool {
    &&& 0 <= i < n
    &&& forall|j: int| 0 <= j < n ==> (#[trigger] entries[j]).0 <= entries[i].0
    &&& forall|j: int| i < j < n ==> (#[trigger] entries[j]).0 < entries[i].0
}

/// Entry `i` has the highest key, and no later one has it.
pub open spec fn is_latest(entries: Seq<(u32, OntologyImage)>, i: int) -> bool {
    &&& 0 <= i < entries.len()
    &&& forall|j: int| 0 <= j < entries.len() ==> (#[trigger] entries[j]).0 <= entries[i].0
    &&& forall|j: int| i < j < entries.len() ==> (#[trigger] entries[j]).0 < entries[i].0
}

proof fn lemma_runs_prefix<K, V>(runs: Seq<crate::storage::node::SortedRun<K, V>>, k: int)
    requires
        0 <= k <= runs.len(),
    ensures
        crate::storage::node::entries_of(runs.take(k)).is_prefix_of(
            crate::storage::node::entries_of(runs),
        ),
    decreases runs.len(),
{
    if k < runs.len() {
        let front = runs.drop_last();
        lemma_runs_prefix(front, k);
        assert(front.take(k) =~= runs.take(k));
    } else {
        assert(runs.take(k) =~= runs);
    }
}

/// The node holds the state.
pub open spec fn is_state_node(node: LoadedNode<u32, OntologyImage>, m: OntologyModel) -> bool {
    &&& node.fresh(BtreeKind::Ontology, REGION_SIZE_LOG2)
    &&& node.entries().len() == 1
    &&& node.entries()[0].0 == 0
    &&& is_image(node.entries()[0].1, m)
}

/// `r` is the state that was read.
pub open spec fn state_read(
    read: Result<Option<LoadedNode<u32, OntologyImage>>, StorageError>,
    r: Result<OntologyState, OntologyError>,
) -> bool {
    match read {
        Ok(None) => r is Ok && r->Ok_0.wf() && r->Ok_0@ == empty_model(),
        Ok(Some(node)) => if images_fit(node.entries()) {
            &&& node.entries().len() == 0 ==> r is Ok && r->Ok_0.wf() && r->Ok_0@ == empty_model()
            &&& forall|i: int| #[trigger]
                is_latest(node.entries(), i) ==> image_read(node.entries()[i].1, r)
        } else {
            r is Err && r->Err_0 is Cbor && r->Err_0->Cbor_0@ == "implication graph too large"@
        },
        Err(e) => r is Err && r->Err_0 is Cbor && r->Err_0->Cbor_0@ == storage_text(e),
    }
}

/// The graphs of all images fit.
pub open spec fn images_fit(entries: Seq<(u32, OntologyImage)>) -> bool {
    forall|i: int| 0 <= i < entries.len() ==> image_fits((#[trigger] entries[i]).1)
}

/// Whether the graphs of all images fit.
fn check_images(node: &LoadedNode<u32, OntologyImage>) -> (r: bool)
    ensures
        r == images_fit(node.entries()),
{
    let all = node.merge_iter();
    let mut i: usize = 0;
    while i < all.len()
        invariant
            i <= all@.len(),
            all@.len() == node.entries().len(),
            forall|j: int| 0 <= j < all@.len() ==> *(#[trigger] all@[j]) == node.entries()[j],
            forall|j: int| 0 <= j < i ==> image_fits((#[trigger] node.entries()[j]).1),
        decreases all@.len() - i,
    {
        let e = all[i];
        proof {
            assert(*all@[i as int] == node.entries()[i as int]);
        }
        if e.1.dag.tags.len() > 0xFFFF_FFFF || e.1.dag.edges.len() > 0xFFFF_FFFF {
            proof {
                assert(!image_fits(node.entries()[i as int].1));
            }
            return false;
        }
        i = i + 1;
    }
    true
}

impl OntologyState {
    /// Write the state to the region at `offset` on `device`. `encode` turns the
    /// runs of the node into bytes.
    pub fn flush_to_region<
        D: BlockDevice,
        F: Fn(&Vec<SortedRun<u32, OntologyImage>>) -> Result<Vec<u8>, StorageError>,
    >(&self, device: &mut D, offset: u64, encode: F) -> (r: Result<(), OntologyError>)
        requires
            self.wf(),
            forall|runs: &Vec<SortedRun<u32, OntologyImage>>| encode.requires((runs,)),
        ensures
            old(device).reliable() ==> final(device).reliable(),
            exists|
                node: LoadedNode<u32, OntologyImage>,
                encoded: Result<Vec<u8>, StorageError>,
                stored: Result<(), StorageError>,
            |
                {
                    &&& #[trigger] is_state_node(node, self@)
                    &&& #[trigger] encode.ensures((&node.sorted_runs,), encoded)
                    &&& #[trigger] node_stored(
                        old(device).contents(),
                        final(device).contents(),
                        old(device).reliable(),
                        offset as int,
                        node.header,
                        encoded,
                        stored,
                    )
                    &&& match stored {
                        Ok(_) => r is Ok,
                        Err(e) => r is Err && r->Err_0 is Cbor && r->Err_0->Cbor_0@ == storage_text(e),
                    }
                },
    {
        let node = self.to_loaded_node();
        proof {
            assert(is_state_node(node, self@));
        }
        match store_node(device, offset, &node, encode) {
            Ok(_) => Ok(()),
            Err(e) => Err(OntologyError::Cbor(e.message())),
        }
    }

    /// Read the state from the region at `offset` on `device`; a blank region
    /// is the empty state. `decode` turns the bytes of the runs into runs.
    pub fn load_from_region<
        D: BlockDevice,
        G: Fn(Vec<u8>) -> Result<Vec<SortedRun<u32, OntologyImage>>, StorageError>,
    >(device: &D, offset: u64, decode: G) -> (r: Result<Self, OntologyError>)
        requires
            forall|bytes: Vec<u8>| decode.requires((bytes,)),
        ensures
            exists|read: Result<Option<LoadedNode<u32, OntologyImage>>, StorageError>|
                #[trigger] node_loaded(
                    device.contents(),
                    device.reliable(),
                    offset as int,
                    None,
                    decode,
                    read,
                ) && state_read(read, r),
    {
        match load_node(device, offset, None, decode) {
            Ok(Some(node)) => {
                if check_images(&node) {
                    OntologyState::from_loaded_node(&node)
                } else {
                    Err(OntologyError::Cbor("implication graph too large".to_owned()))
                }
            },
            Ok(None) => Ok(OntologyState::new()),
            Err(e) => Err(OntologyError::Cbor(e.message())),
        }
    }
}

impl OntologyImage {
    /// The state that the image holds.
    pub fn into_state(&self) -> (r: Result<OntologyState, OntologyError>)
        requires
            image_fits(*self),
        ensures
            image_read(*self, r),
    {
        if self.format_version > ONTOLOGY_IMAGE_FORMAT_VERSION {
            let mut text = String::new();
            text.push_str("ontology image format_version ");
            push_dec(&mut text, self.format_version as u64);
            text.push_str(" exceeds supported ");
            push_dec(&mut text, ONTOLOGY_IMAGE_FORMAT_VERSION as u64);
            proof {
                assert(text@ =~= "ontology image format_version "@ + dec(
                    self.format_version as nat,
                ) + " exceeds supported "@ + dec(ONTOLOGY_IMAGE_FORMAT_VERSION as nat));
            }
            return Err(OntologyError::Cbor(text));
        }
        let ghost ts = image_tags(*self);
        let mut tags: OrdMap<TagId, TagDefinition> = OrdMap::new();
        let mut names: OrdMap<String, TagId> = OrdMap::new();
        let mut i: usize = 0;
        proof {
            assert(tags@.map_values(|d: TagDefinition| d@) =~= tags_by_id(ts, 0));
        }
        while i < self.tags.len()
            invariant
                i <= self.tags@.len(),
                ts == image_tags(*self),
                tags.wf(),
                names.wf(),
                tags@.map_values(|d: TagDefinition| d@) == tags_by_id(ts, i as int),
                names@ == ids_by_name(ts, i as int),
                forall|t: TagId| #[trigger] tags@.contains_key(t) ==> tags@[t]@.id == t,
            decreases self.tags@.len() - i,
        {
            let ghost before = tags@;
            let def = self.tags[i].duplicate();
            proof {
                assert(ts[i as int] == def@);
            }
            names.insert(def.name.clone(), def.id);
            tags.insert(def.id, def);
            proof {
                assert(tags@.map_values(|d: TagDefinition| d@) =~= before.map_values(
                    |d: TagDefinition| d@,
                ).insert(def@.id, def@));
            }
            i = i + 1;
        }
        let snap = DagSnapshot {
            tags: copy_tags(&self.dag.tags),
            edges: copy_list(&self.dag.edges),
        };
        let dag = match ImplicationDag::from_snapshot(snap) {
            Ok(d) => d,
            Err(e) => {
                proof {
                    let k = choose|k: int|
                        {
                            &&& 0 <= k < snap.edges@.len()
                            &&& #[trigger] edge_fault(snap.tags@.to_set(), snap.edges@, k)
                            &&& forall|j: int|
                                0 <= j < k ==> !#[trigger] edge_fault(
                                    snap.tags@.to_set(),
                                    snap.edges@,
                                    j,
                                )
                            &&& edge_refused(
                                (DagModel {
                                    tags: snap.tags@.to_set(),
                                    edges: snap.edges@.take(k).to_set(),
                                }),
                                snap.edges@[k].0,
                                snap.edges@[k].1,
                                e,
                            )
                        };
                    assert(first_fault(*self, k, e));
                }
                return Err(e);
            },
        };
        let ghost rs = image_modules(*self);
        let mut modules: OrdMap<String, ModuleRecord> = OrdMap::new();
        let mut k: usize = 0;
        proof {
            assert(modules@.map_values(|r: ModuleRecord| r@) =~= modules_by_id(rs, 0));
        }
        while k < self.modules.len()
            invariant
                k <= self.modules@.len(),
                rs == image_modules(*self),
                modules.wf(),
                modules@.map_values(|r: ModuleRecord| r@) == modules_by_id(rs, k as int),
                forall|t: Seq<char>| #[trigger] modules@.contains_key(t) ==> modules@[t]@.id == t,
            decreases self.modules@.len() - k,
        {
            let ghost before = modules@;
            let rec = self.modules[k].copy_value();
            proof {
                assert(rs[k as int] == rec@);
            }
            modules.insert(rec.id.clone(), rec);
            proof {
                assert(modules@.map_values(|r: ModuleRecord| r@) =~= before.map_values(
                    |r: ModuleRecord| r@,
                ).insert(rec@.id, rec@));
            }
            k = k + 1;
        }
        let state = OntologyState {
            tags,
            names,
            dag,
            relations: copy_list(&self.relations),
            installed_modules: modules,
        };
        proof {
            assert(state@.dag =~= image_model(*self).dag);
            assert(state@ =~= image_model(*self));
        }
        Ok(state)
    }
}

proof fn lemma_tags_by_id(ts: Seq<TagModel>, k: int)
    requires
        0 <= k <= ts.len(),
        forall|i: int, j: int| 0 <= i < j < ts.len() ==> (#[trigger] ts[i]).id.id < (#[trigger] ts[j]).id.id,
    ensures
        forall|i: int|
            0 <= i < k ==> tags_by_id(ts, k).contains_key((#[trigger] ts[i]).id) && tags_by_id(ts, k)[ts[i].id]
                == ts[i],
        forall|t: TagId| #[trigger]
            tags_by_id(ts, k).contains_key(t) ==> exists|i: int|
                0 <= i < k && (#[trigger] ts[i]).id == t,
    decreases k,
{
    if k > 0 {
        lemma_tags_by_id(ts, k - 1);
        assert forall|t: TagId| #[trigger] tags_by_id(ts, k).contains_key(t) implies exists|i: int|
            0 <= i < k && (#[trigger] ts[i]).id == t by {
            if t == ts[k - 1].id {
            } else {
                assert(tags_by_id(ts, k - 1).contains_key(t));
                let i = choose|i: int| 0 <= i < k - 1 && (#[trigger] ts[i]).id == t;
                assert(ts[i].id == t);
            }
        }
    }
}

proof fn lemma_ids_by_name(ts: Seq<TagModel>, k: int)
    requires
        0 <= k <= ts.len(),
        forall|i: int, j: int|
            0 <= i < j < ts.len() ==> (#[trigger] ts[i]).name != (#[trigger] ts[j]).name,
    ensures
        forall|i: int|
            0 <= i < k ==> ids_by_name(ts, k).contains_key((#[trigger] ts[i]).name) && ids_by_name(
                ts,
                k,
            )[ts[i].name] == ts[i].id,
        forall|n: Seq<char>| #[trigger]
            ids_by_name(ts, k).contains_key(n) ==> exists|i: int|
                0 <= i < k && (#[trigger] ts[i]).name == n,
    decreases k,
{
    if k > 0 {
        lemma_ids_by_name(ts, k - 1);
        assert forall|n: Seq<char>| #[trigger] ids_by_name(ts, k).contains_key(n) implies exists|
            i: int,
        |
            0 <= i < k && (#[trigger] ts[i]).name == n by {
            if n == ts[k - 1].name {
            } else {
                assert(ids_by_name(ts, k - 1).contains_key(n));
                let i = choose|i: int| 0 <= i < k - 1 && (#[trigger] ts[i]).name == n;
                assert(ts[i].name == n);
            }
        }
    }
}

proof fn lemma_modules_by_id(rs: Seq<RecordModel>, k: int)
    requires
        0 <= k <= rs.len(),
        forall|i: int, j: int|
            0 <= i < j < rs.len() ==> (#[trigger] rs[i]).id != (#[trigger] rs[j]).id,
    ensures
        forall|i: int|
            0 <= i < k ==> modules_by_id(rs, k).contains_key((#[trigger] rs[i]).id) && modules_by_id(
                rs,
                k,
            )[rs[i].id] == rs[i],
        forall|n: Seq<char>| #[trigger]
            modules_by_id(rs, k).contains_key(n) ==> exists|i: int|
                0 <= i < k && (#[trigger] rs[i]).id == n,
    decreases k,
{
    if k > 0 {
        lemma_modules_by_id(rs, k - 1);
        assert forall|n: Seq<char>| #[trigger] modules_by_id(rs, k).contains_key(n) implies exists|
            i: int,
        |
            0 <= i < k && (#[trigger] rs[i]).id == n by {
            if n == rs[k - 1].id {
            } else {
                assert(modules_by_id(rs, k - 1).contains_key(n));
                let i = choose|i: int| 0 <= i < k - 1 && (#[trigger] rs[i]).id == n;
                assert(rs[i].id == n);
            }
        }
    }
}

/// A graph without cycles whose edges connect its nodes can be rebuilt from
/// its edges, in whatever order these are listed.
pub proof fn snapshot_restores(d: DagModel, tags: Seq<TagId>, edges: Seq<(TagId, TagId)>)
    requires
        acyclic(d.edges),
        forall|x: TagId, y: TagId| #[trigger]
            d.edges.contains((x, y)) ==> d.tags.contains(x) && d.tags.contains(y),
        tags.to_set() == d.tags,
        edges.to_set() == d.edges,
    ensures
        forall|k: int| 0 <= k < edges.len() ==> !#[trigger] edge_fault(tags.to_set(), edges, k),
{
    assert forall|k: int| 0 <= k < edges.len() implies !#[trigger] edge_fault(
        tags.to_set(),
        edges,
        k,
    ) by {
        let (a, b) = edges[k];
        assert(edges.to_set().contains((a, b)));
        let before = edges.take(k).to_set();
        let after = edges.take(k + 1).to_set();
        lemma_take_to_set(edges, k);
        assert(after.subset_of(d.edges)) by {
            assert forall|e: (TagId, TagId)| after.contains(e) implies d.edges.contains(e) by {
                let upto = edges.take(k + 1);
                assert(upto.contains(e));
                let i = choose|i: int| 0 <= i < upto.len() && upto[i] == e;
                assert(edges[i] == e);
                assert(edges.to_set().contains(e));
            }
        }
        lemma_acyclic_subset(after, d.edges);
        lemma_acyclic_subset(before, after);
        lemma_new_edge_cycle(before, a, b);
    }
}

/// Reading the image of a registry whose tables agree gives the registry
/// back, its relations in ascending order.
pub proof fn image_round_trip(img: OntologyImage, m: OntologyModel)
    requires
        is_image(img, m),
        consistent(m),
        acyclic(m.dag.edges),
        forall|x: TagId, y: TagId| #[trigger]
            m.dag.edges.contains((x, y)) ==> m.dag.tags.contains(x) && m.dag.tags.contains(y),
    ensures
        image_model(img) == (OntologyModel { relations: img.relations@, ..m }),
        img.relations@.to_multiset() == m.relations.to_multiset(),
        forall|k: int|
            0 <= k < img.dag.edges@.len() ==> !#[trigger] edge_fault(
                img.dag.tags@.to_set(),
                img.dag.edges@,
                k,
            ),
{
    let ts = image_tags(img);
    let rs = image_modules(img);
    let out = image_model(img);
    lemma_tags_by_id(ts, ts.len() as int);
    assert forall|i: int, j: int| 0 <= i < j < ts.len() implies (#[trigger] ts[i]).name != (
    #[trigger] ts[j]).name by {
        assert(m.tags.contains_key(ts[i].id) && m.tags.contains_key(ts[j].id));
        assert(m.names[ts[i].name] == ts[i].id);
        assert(m.names[ts[j].name] == ts[j].id);
    }
    lemma_ids_by_name(ts, ts.len() as int);
    assert forall|i: int, j: int| 0 <= i < j < rs.len() implies (#[trigger] rs[i]).id != (
    #[trigger] rs[j]).id by {
        String::precedes_is_order(rs[i].id, rs[j].id, rs[j].id);
    }
    lemma_modules_by_id(rs, rs.len() as int);
    assert(out.tags =~= m.tags) by {
        assert forall|t: TagId| out.tags.contains_key(t) <==> m.tags.contains_key(t) by {
            if m.tags.contains_key(t) {
                let i = choose|i: int| 0 <= i < ts.len() && (#[trigger] ts[i]).id == t;
                assert(out.tags.contains_key(ts[i].id));
            }
        }
    }
    assert(out.names =~= m.names) by {
        assert forall|n: Seq<char>| out.names.contains_key(n) <==> m.names.contains_key(n) by {
            if m.names.contains_key(n) {
                let t = m.names[n];
                assert(m.tags.contains_key(t));
                let i = choose|i: int| 0 <= i < ts.len() && (#[trigger] ts[i]).id == t;
                assert(ts[i].name == n);
                assert(out.names.contains_key(ts[i].name));
            }
            if out.names.contains_key(n) {
                let i = choose|i: int| 0 <= i < ts.len() && (#[trigger] ts[i]).name == n;
                assert(m.tags.contains_key(ts[i].id));
            }
        }
        assert forall|n: Seq<char>| out.names.contains_key(n) implies out.names[n] == m.names[n] by {
            let i = choose|i: int| 0 <= i < ts.len() && (#[trigger] ts[i]).name == n;
            assert(m.tags.contains_key(ts[i].id));
        }
    }
    assert(out.modules =~= m.modules) by {
        assert forall|n: Seq<char>| out.modules.contains_key(n) <==> m.modules.contains_key(n) by {
            if m.modules.contains_key(n) {
                let i = choose|i: int| 0 <= i < rs.len() && (#[trigger] rs[i]).id == n;
                assert(out.modules.contains_key(rs[i].id));
            }
        }
    }
    assert(out.dag =~= m.dag);
    snapshot_restores(m.dag, img.dag.tags@, img.dag.edges@);
}

/// Images with the same content.
pub open spec fn same_image(a: OntologyImage, b: OntologyImage) -> bool {
    &&& a.format_version == b.format_version
    &&& image_tags(a) == image_tags(b)
    &&& a.dag.tags@ == b.dag.tags@
    &&& a.dag.edges@ == b.dag.edges@
    &&& a.relations@ == b.relations@
    &&& image_modules(a) == image_modules(b)
}

/// Entries with the same snapshots and images.
pub open spec fn same_images() -> spec_fn(
    Seq<(u32, OntologyImage)>,
    Seq<(u32, OntologyImage)>,
) -> bool {
    |a: Seq<(u32, OntologyImage)>, b: Seq<(u32, OntologyImage)>|
        a.len() == b.len() && forall|i: int|
            0 <= i < a.len() ==> (#[trigger] a[i]).0 == b[i].0 && same_image(a[i].1, b[i].1)
}

/// A registry that was flushed is loaded again as it was, its relations in
/// ascending order, if the two functions for its runs belong together.
pub proof fn state_flush_then_load<
    F: Fn(&Vec<SortedRun<u32, OntologyImage>>) -> Result<Vec<u8>, StorageError>,
    G: Fn(Vec<u8>) -> Result<Vec<SortedRun<u32, OntologyImage>>, StorageError>,
>(
    m: OntologyModel,
    before: Seq<u8>,
    after: Seq<u8>,
    offset: int,
    node: LoadedNode<u32, OntologyImage>,
    encode: F,
    encoded: Result<Vec<u8>, StorageError>,
    decode: G,
    read: Result<Option<LoadedNode<u32, OntologyImage>>, StorageError>,
    r: Result<OntologyState, OntologyError>,
)
    requires
        consistent(m),
        acyclic(m.dag.edges),
        forall|x: TagId, y: TagId| #[trigger]
            m.dag.edges.contains((x, y)) ==> m.dag.tags.contains(x) && m.dag.tags.contains(y),
        0 <= offset <= u64::MAX - 4096,
        codec_fits(encode, decode, same_images()),
        is_state_node(node, m),
        image_fits(node.entries()[0].1),
        encode.ensures((&node.sorted_runs,), encoded),
        node_stored(before, after, true, offset, node.header, encoded, Ok(())),
        node_loaded(after, true, offset, None, decode, read),
        state_read(read, r),
    ensures
        r is Ok,
        r->Ok_0@ == (OntologyModel { relations: r->Ok_0@.relations, ..m }),
        relations_ascend(r->Ok_0@.relations),
        r->Ok_0@.relations.to_multiset() == m.relations.to_multiset(),
{
    stored_region_loads(
        before,
        after,
        offset,
        node,
        BtreeKind::Ontology,
        None,
        encode,
        encoded,
        decode,
        same_images(),
        read,
    );
    let entries = read->Ok_0->Some_0.entries();
    let img = entries[0].1;
    assert(node.entries()[0].0 == entries[0].0 && same_image(node.entries()[0].1, img));
    assert(is_image(img, m));
    assert(images_fit(entries));
    assert(is_latest(entries, 0));
    assert(image_read(img, r));
    image_round_trip(img, m);
}

} // verus!
