use mimisbrunnr::ontology::error::{OntologyError, StorageAxis};
use mimisbrunnr::ontology::image::OntologyImage;
use mimisbrunnr::ontology::implication_dag::ImplicationDag;
use mimisbrunnr::ontology::materializer::Materializer;
use mimisbrunnr::ontology::module::{
    encode_storage, parse_storage, IdAllocator, OntologyModule, TomlChunkParams, TomlCompression, TomlEncryption, TomlHeader,
    TomlImplication, TomlModule, TomlRelation, TomlStoragePolicy, TomlTag,
};
use mimisbrunnr::ontology::state::{ModuleRecord, OntologyState};
use mimisbrunnr::storage::block::BtreeKind;
use mimisbrunnr::storage::device::MemoryDevice;
use mimisbrunnr::storage::node::{LoadedNode, SortedRun};
use mimisbrunnr::types::id::TagId;
use mimisbrunnr::types::policy::{
    ChunkParams, ChunkingAlgo, CompressionAlgo, EncryptionMode, StoragePolicy,
};
use mimisbrunnr::types::tag::{TagDefinition, TagRelation, TagSemantics, ValueType};
use std::cell::RefCell;

fn t(id: u32) -> TagId {
    TagId::new(id)
}

fn named(state: &OntologyState, name: &str) -> TagId {
    *state.names.get(&name.to_string()).unwrap()
}

fn has_name(state: &OntologyState, name: &str) -> bool {
    state.names.contains_key(&name.to_string())
}

// ---------- implication graph ----------

#[test]
fn add_tag_idempotent() {
    let mut d = ImplicationDag::new();
    d.add_tag(t(1));
    d.add_tag(t(1));
    assert_eq!(d.tag_count(), 1);
}

#[test]
fn implication_unknown_tag_is_error() {
    let mut d = ImplicationDag::new();
    d.add_tag(t(1));
    assert!(matches!(d.add_implication(t(1), t(2)), Err(OntologyError::TagNotFound(_))));
}

#[test]
fn closure_direct_and_transitive() {
    let mut d = ImplicationDag::new();
    for id in 1..=3 {
        d.add_tag(t(id));
    }
    d.add_implication(t(1), t(2)).unwrap();
    d.add_implication(t(2), t(3)).unwrap();

    let c = d.closure(&vec![t(1)]);
    assert_eq!(c, vec![t(1), t(2), t(3)]);
}

#[test]
fn closure_deduplicates() {
    let mut d = ImplicationDag::new();
    for id in 1..=4 {
        d.add_tag(t(id));
    }
    d.add_implication(t(1), t(2)).unwrap();
    d.add_implication(t(1), t(3)).unwrap();
    d.add_implication(t(2), t(4)).unwrap();
    d.add_implication(t(3), t(4)).unwrap();

    let c = d.closure(&vec![t(1)]);
    assert_eq!(c, vec![t(1), t(2), t(3), t(4)]);
}

#[test]
fn closure_keeps_tags_the_graph_does_not_have() {
    let d = ImplicationDag::new();
    assert_eq!(d.closure(&vec![t(7), t(3)]), vec![t(3), t(7)]);
}

#[test]
fn cycle_detected_and_rolled_back() {
    let mut d = ImplicationDag::new();
    for id in 1..=3 {
        d.add_tag(t(id));
    }
    d.add_implication(t(1), t(2)).unwrap();
    d.add_implication(t(2), t(3)).unwrap();
    let err = d.add_implication(t(3), t(1)).unwrap_err();
    assert!(matches!(err, OntologyError::CycleDetected { .. }));
    assert_eq!(d.edge_count(), 2);
}

#[test]
fn self_loop_rejected() {
    let mut d = ImplicationDag::new();
    d.add_tag(t(1));
    assert!(matches!(
        d.add_implication(t(1), t(1)),
        Err(OntologyError::CycleDetected { .. })
    ));
}

#[test]
fn is_a_basics() {
    let mut d = ImplicationDag::new();
    for id in 1..=3 {
        d.add_tag(t(id));
    }
    d.add_implication(t(1), t(2)).unwrap();
    d.add_implication(t(2), t(3)).unwrap();

    assert!(d.is_a(t(1), t(1)));
    assert!(d.is_a(t(1), t(2)));
    assert!(d.is_a(t(1), t(3)));
    assert!(!d.is_a(t(3), t(1)));
    assert!(!d.is_a(t(1), t(99)));
}

#[test]
fn topological_sort_works() {
    let mut d = ImplicationDag::new();
    for id in 1..=3 {
        d.add_tag(t(id));
    }
    d.add_implication(t(1), t(2)).unwrap();
    d.add_implication(t(2), t(3)).unwrap();
    let order = d.topological_sort().unwrap();
    let pos = |x: TagId| order.iter().position(|y| *y == x).unwrap();
    assert!(pos(t(1)) < pos(t(2)));
    assert!(pos(t(2)) < pos(t(3)));
}

#[test]
fn tags_and_edges_come_in_index_order() {
    let mut d = ImplicationDag::new();
    for id in [5, 2, 9, 4] {
        d.add_tag(t(id));
    }
    d.add_tag(t(2));
    d.add_implication(t(9), t(2)).unwrap();
    d.add_implication(t(5), t(9)).unwrap();
    d.add_implication(t(5), t(4)).unwrap();
    assert_eq!(d.tags(), vec![t(5), t(2), t(9), t(4)]);
    assert_eq!(d.edges(), vec![(t(9), t(2)), (t(5), t(9)), (t(5), t(4))]);
    // Of what a tag implies, what was added last comes first.
    assert_eq!(d.direct_implies(t(5)), vec![t(4), t(9)]);
    // The last takes the place of the one that goes.
    d.remove_implication(t(9), t(2));
    assert_eq!(d.edges(), vec![(t(5), t(4)), (t(5), t(9))]);
    d.remove_tag(t(2));
    assert_eq!(d.tags(), vec![t(5), t(4), t(9)]);
    let order = d.topological_sort().unwrap();
    assert_eq!(order.len(), 3);
    assert_eq!(order[0], t(5));
    assert_eq!(d.direct_implies(t(5)), vec![t(4), t(9)]);
    d.add_tag(t(7));
    d.add_implication(t(5), t(7)).unwrap();
    assert_eq!(d.direct_implies(t(5)), vec![t(7), t(4), t(9)]);
    assert!(d.add_implication(t(7), t(5)).is_err());
    assert!(d.direct_implies(t(7)).is_empty());
    d.remove_tag(t(4));
    assert_eq!(d.tags(), vec![t(5), t(7), t(9)]);
    assert_eq!(d.direct_implies(t(5)), vec![t(7), t(9)]);
    let back = ImplicationDag::from_snapshot(d.snapshot()).unwrap();
    assert_eq!(back.tags(), vec![t(5), t(7), t(9)]);
    assert_eq!(back.edges(), vec![(t(5), t(7)), (t(5), t(9))]);
    assert_eq!(back.direct_implies(t(5)), vec![t(9), t(7)]);
}

#[test]
fn remove_tag_drops_incident_edges() {
    let mut d = ImplicationDag::new();
    for id in 1..=3 {
        d.add_tag(t(id));
    }
    d.add_implication(t(1), t(2)).unwrap();
    d.add_implication(t(2), t(3)).unwrap();
    d.remove_tag(t(2));
    assert_eq!(d.tag_count(), 2);
    assert_eq!(d.edge_count(), 0);
    assert!(!d.contains(t(2)));
}

#[test]
fn removing_a_tag_keeps_the_others_in_place() {
    // The graph moves its last node into the place of the one that goes.
    let mut d = ImplicationDag::new();
    for id in 1..=5 {
        d.add_tag(t(id));
    }
    d.add_implication(t(5), t(4)).unwrap();
    d.add_implication(t(4), t(3)).unwrap();
    d.remove_tag(t(1));
    assert!(d.is_a(t(5), t(3)));
    assert!(d.contains(t(5)));
    assert!(!d.contains(t(1)));
    d.remove_implication(t(5), t(4));
    assert!(!d.is_a(t(5), t(3)));
    assert_eq!(d.direct_implies(t(4)), vec![t(3)]);
}

#[test]
fn duplicate_implication_idempotent() {
    let mut d = ImplicationDag::new();
    d.add_tag(t(1));
    d.add_tag(t(2));
    d.add_implication(t(1), t(2)).unwrap();
    d.add_implication(t(1), t(2)).unwrap();
    assert_eq!(d.edge_count(), 1);
}

#[test]
fn snapshot_round_trip() {
    let mut d = ImplicationDag::new();
    for id in 1..=4 {
        d.add_tag(t(id));
    }
    d.add_implication(t(1), t(2)).unwrap();
    d.add_implication(t(2), t(3)).unwrap();
    d.add_implication(t(2), t(4)).unwrap();

    let snap = d.snapshot();
    let d2 = ImplicationDag::from_snapshot(snap).unwrap();
    assert_eq!(d.tag_count(), d2.tag_count());
    assert_eq!(d.edge_count(), d2.edge_count());
    assert_eq!(d.closure(&vec![t(1)]), d2.closure(&vec![t(1)]));
}

#[test]
fn acyclic_graph_passes_the_cycle_check() {
    let mut d = ImplicationDag::new();
    d.add_tag(t(1));
    d.add_tag(t(2));
    d.add_implication(t(1), t(2)).unwrap();
    assert!(d.cycle_check().is_ok());
    assert_eq!(d.edges(), vec![(t(1), t(2))]);
    let copy = d.duplicate();
    assert_eq!(copy.tags(), d.tags());
}

// ---------- materializer ----------

fn vehicle_dag() -> ImplicationDag {
    let mut d = ImplicationDag::new();
    for id in 1..=4 {
        d.add_tag(t(id));
    }
    d.add_implication(t(1), t(3)).unwrap();
    d.add_implication(t(2), t(3)).unwrap();
    d.add_implication(t(3), t(4)).unwrap();
    d
}

#[test]
fn materialise_car_includes_ancestors() {
    let d = vehicle_dag();
    let m = Materializer::new(&d);
    assert_eq!(m.materialise(&vec![t(1)]), vec![t(1), t(3), t(4)]);
}

#[test]
fn materialise_dedupes_overlap() {
    let d = vehicle_dag();
    let m = Materializer::new(&d);
    assert_eq!(m.materialise(&vec![t(1), t(2)]), vec![t(1), t(2), t(3), t(4)]);
}

#[test]
fn is_a_query() {
    let d = vehicle_dag();
    let m = Materializer::new(&d);
    assert!(m.is_a(t(1), t(3)));
    assert!(m.is_a(t(1), t(4)));
    assert!(!m.is_a(t(3), t(1)));
}

// ---------- modules ----------

#[test]
fn id_allocator_starts_at_one() {
    let mut a = IdAllocator::new();
    assert_eq!(a.next_id().raw(), 1);
    assert_eq!(a.next_id().raw(), 2);
}

#[test]
fn id_allocator_observe_advances() {
    let mut a = IdAllocator::new();
    a.observe(TagId::new(42));
    assert_eq!(a.next_id().raw(), 43);
}

fn text(t: &toml::Table, key: &str) -> Option<String> {
    t.get(key).and_then(|v| v.as_str()).map(|s| s.to_string())
}

fn rows<'a>(t: &'a toml::Table, key: &str) -> Vec<&'a toml::Table> {
    match t.get(key).and_then(|v| v.as_array()) {
        Some(a) => a.iter().filter_map(|v| v.as_table()).collect(),
        None => Vec::new(),
    }
}

fn number(t: &toml::Table, key: &str) -> u32 {
    t.get(key).and_then(|v| v.as_integer()).unwrap() as u32
}

fn storage_of(t: &toml::Table) -> Option<TomlStoragePolicy> {
    let s = t.get("storage")?.as_table()?;
    let chunking = s.get("chunking").and_then(|v| v.as_table()).map(|c| TomlChunkParams {
        algo: text(c, "algo").unwrap(),
        min_size: number(c, "min_size"),
        avg_size: number(c, "avg_size"),
        max_size: number(c, "max_size"),
    });
    let compression = s.get("compression").map(|v| match v.as_str() {
        Some(a) => TomlCompression::Plain(a.to_string()),
        None => {
            let c = v.as_table().unwrap();
            TomlCompression::Levelled {
                algo: text(c, "algo").unwrap(),
                level: c.get("level").and_then(|l| l.as_integer()).unwrap() as i32,
            }
        }
    });
    let encryption =
        s.get("encryption").and_then(|v| v.as_str()).map(|m| TomlEncryption::Plain(m.to_string()));
    Some(TomlStoragePolicy { chunking, compression, encryption })
}

/// The module that a TOML text holds.
fn module_of(src: &str) -> Result<OntologyModule, OntologyError> {
    let t: toml::Table =
        src.parse().map_err(|e: toml::de::Error| OntologyError::ModuleParse(e.to_string()))?;
    let header = match t.get("module").and_then(|m| m.as_table()) {
        Some(m) => m,
        None => return Err(OntologyError::ModuleParse("missing field `module`".to_string())),
    };
    let parsed = TomlModule {
        module: TomlHeader {
            id: text(header, "id").unwrap(),
            version: text(header, "version").unwrap(),
            name: text(header, "name").unwrap(),
        },
        tags: rows(&t, "tags")
            .iter()
            .map(|r| TomlTag {
                name: text(r, "name").unwrap(),
                semantics: text(r, "semantics").unwrap(),
                value_type: text(r, "value_type"),
                element_constraint: text(r, "element_constraint"),
                storage: storage_of(r),
            })
            .collect(),
        implications: rows(&t, "implications")
            .iter()
            .map(|r| TomlImplication {
                from: text(r, "from").unwrap(),
                to: text(r, "to").unwrap(),
            })
            .collect(),
        relations: rows(&t, "relations")
            .iter()
            .map(|r| TomlRelation {
                from: text(r, "from").unwrap(),
                kind: text(r, "kind").unwrap(),
                to: text(r, "to").unwrap(),
            })
            .collect(),
    };
    OntologyModule::from_toml(parsed)
}

#[test]
fn parse_design_42_example() {
    let src = r#"
[module]
id = "systems.metta.music"
version = "2.1.0"
name = "Music Ontology"

[[tags]]
name = "artist"
semantics = "attribute"
value_type = "text"

[[tags]]
name = "playlist"
semantics = "ordered-collection"

[[tags]]
name = "genre"
semantics = "grouping"

[[implications]]
from = "rock"
to = "genre"

[[implications]]
from = "flac"
to = "audio"
"#;
    let m = module_of(src).unwrap();
    assert_eq!(m.id, "systems.metta.music");
    assert_eq!(m.version, "2.1.0");
    assert_eq!(m.tags.len(), 3);
    assert_eq!(m.implications.len(), 2);
    assert_eq!(m.tags[0].name, "artist");
    assert!(matches!(
        m.tags[0].semantics,
        TagSemantics::Attribute { value_type: ValueType::Text }
    ));
    assert!(matches!(m.tags[1].semantics, TagSemantics::OrderedCollection { .. }));
    assert_eq!(m.tags[2].semantics, TagSemantics::Grouping);
}

#[test]
fn round_trip_via_toml() {
    let module = OntologyModule {
        id: "test.example".into(),
        version: "0.1.0".into(),
        name: "Test".into(),
        tags: vec![
            TagDefinition {
                id: TagId::new(0),
                name: "file".into(),
                semantics: TagSemantics::Label,
                implies: vec![],
                storage: Some(StoragePolicy {
                    chunking: Some(ChunkParams {
                        algo: ChunkingAlgo::FastCDC,
                        min_size: 1024,
                        avg_size: 4096,
                        max_size: 16384,
                    }),
                    compression: Some(CompressionAlgo::Zstd(9)),
                    encryption: Some(EncryptionMode::Xts),
                }),
            },
            TagDefinition {
                id: TagId::new(0),
                name: "binary".into(),
                semantics: TagSemantics::Label,
                implies: vec![],
                storage: None,
            },
        ],
        implications: vec![("binary".into(), "file".into())],
        relations: Vec::new(),
    };
    let s = module.to_toml();
    let back = OntologyModule::from_toml(s).unwrap();
    assert_eq!(module, back);
}

#[test]
fn parse_relations_section() {
    let src = r#"
[module]
id = "x"
version = "0.0.1"
name = "x"

[[tags]]
name = "active"
semantics = "label"

[[tags]]
name = "discontinued"
semantics = "label"

[[tags]]
name = "usb-c"
semantics = "label"

[[tags]]
name = "electronics"
semantics = "label"

[[relations]]
from = "active"
kind = "mutually-exclusive"
to = "discontinued"

[[relations]]
from = "usb-c"
kind = "requires"
to = "electronics"
"#;
    let m = module_of(src).unwrap();
    assert_eq!(m.relations.len(), 2);
    assert_eq!(m.relations[0].1, TagRelation::MutuallyExclusive);
    assert_eq!(m.relations[1].1, TagRelation::Requires);
}

#[test]
fn parse_relation_kind_implies_redirects() {
    let src = r#"
[module]
id = "x"
version = "0.0.1"
name = "x"

[[tags]]
name = "a"
semantics = "label"

[[relations]]
from = "a"
kind = "implies"
to = "a"
"#;
    let err = module_of(src).unwrap_err();
    let msg = format!("{err:?}");
    assert!(msg.contains("[[implications]]"), "got {msg}");
}

#[test]
fn round_trip_via_toml_with_relations() {
    let module = OntologyModule {
        id: "rel.example".into(),
        version: "0.1.0".into(),
        name: "Rel".into(),
        tags: vec![label("active"), label("discontinued")],
        implications: vec![],
        relations: vec![(
            "active".into(),
            TagRelation::MutuallyExclusive,
            "discontinued".into(),
        )],
    };
    let s = module.to_toml();
    let back = OntologyModule::from_toml(s).unwrap();
    assert_eq!(module, back);
}

#[test]
fn unknown_semantics_errors() {
    let src = r#"
[module]
id = "x"
version = "0.0.1"
name = "x"

[[tags]]
name = "x"
semantics = "quantum"
"#;
    assert!(module_of(src).is_err());
}

#[test]
fn missing_module_header_errors() {
    let src = r#"
[[tags]]
name = "x"
semantics = "label"
"#;
    assert!(module_of(src).is_err());
}

// ---------- state ----------

fn label(name: &str) -> TagDefinition {
    TagDefinition {
        id: TagId::new(0),
        name: name.into(),
        semantics: TagSemantics::Label,
        implies: vec![],
        storage: None,
    }
}

fn label_with_storage(name: &str, storage: StoragePolicy) -> TagDefinition {
    TagDefinition {
        id: TagId::new(0),
        name: name.into(),
        semantics: TagSemantics::Label,
        implies: vec![],
        storage: Some(storage),
    }
}

fn module(id: &str, tags: Vec<TagDefinition>, imps: &[(&str, &str)]) -> OntologyModule {
    module_with_relations(id, tags, imps, &[])
}

fn module_with_relations(
    id: &str,
    tags: Vec<TagDefinition>,
    imps: &[(&str, &str)],
    rels: &[(&str, TagRelation, &str)],
) -> OntologyModule {
    OntologyModule {
        id: id.into(),
        version: "0.1.0".into(),
        name: id.into(),
        tags,
        implications: imps.iter().map(|(a, b)| (a.to_string(), b.to_string())).collect(),
        relations: rels.iter().map(|(a, k, b)| (a.to_string(), *k, b.to_string())).collect(),
    }
}

fn chunk_only() -> StoragePolicy {
    StoragePolicy {
        chunking: Some(ChunkParams {
            algo: ChunkingAlgo::FastCDC,
            min_size: 1024,
            avg_size: 4096,
            max_size: 16384,
        }),
        ..Default::default()
    }
}

fn compress_only(level: i32) -> StoragePolicy {
    StoragePolicy { compression: Some(CompressionAlgo::Zstd(level)), ..Default::default() }
}

#[test]
fn install_basic() {
    let mut state = OntologyState::new();
    let mut alloc = IdAllocator::new();
    let m = module(
        "core",
        vec![label("file"), label("binary"), label("vehicle")],
        &[("binary", "file")],
    );
    let res = state.install(m, &mut alloc).unwrap();
    assert_eq!(res.tags_registered, 3);
    assert_eq!(res.tags_skipped, 0);
    assert_eq!(res.implications_added, 1);
    assert_eq!(state.tags.len(), 3);
    assert_eq!(state.dag.edge_count(), 1);
}

#[test]
fn install_idempotent_re_install_skips() {
    let mut state = OntologyState::new();
    let mut alloc = IdAllocator::new();
    let m = module("core", vec![label("file"), label("binary")], &[]);
    state.install(m, &mut alloc).unwrap();

    let m2 = module("ext", vec![label("file"), label("media")], &[]);
    let res = state.install(m2, &mut alloc).unwrap();
    assert_eq!(res.tags_registered, 1);
    assert_eq!(res.tags_skipped, 1);
    assert_eq!(state.tags.len(), 3);
}

#[test]
fn install_duplicate_module_id_errors() {
    let mut state = OntologyState::new();
    let mut alloc = IdAllocator::new();
    state.install(module("core", vec![label("a")], &[]), &mut alloc).unwrap();
    let err = state.install(module("core", vec![label("b")], &[]), &mut alloc).unwrap_err();
    assert!(matches!(err, OntologyError::ModuleAlreadyInstalled(_)));
}

#[test]
fn axis_conflict_blocks_install() {
    let mut state = OntologyState::new();
    let mut alloc = IdAllocator::new();
    let m = module(
        "core",
        vec![
            label_with_storage("archive", chunk_only()),
            label_with_storage("log", chunk_only()),
        ],
        &[],
    );
    let err = state.install(m, &mut alloc).unwrap_err();
    match err {
        OntologyError::AxisConflict { axis, a_name, b_name, .. } => {
            assert_eq!(axis, StorageAxis::Chunking);
            let names = (a_name.as_str(), b_name.as_str());
            assert!(names == ("archive", "log") || names == ("log", "archive"));
        }
        other => panic!("expected AxisConflict, got {other:?}"),
    }
    assert!(state.tags.is_empty());
    assert!(state.installed_modules.is_empty());
}

#[test]
fn axis_chain_install_succeeds() {
    let mut state = OntologyState::new();
    let mut alloc = IdAllocator::new();
    let m = module(
        "chain",
        vec![
            label_with_storage("file", chunk_only()),
            label_with_storage("binary", chunk_only()),
            label_with_storage("vm-disk", chunk_only()),
        ],
        &[("binary", "file"), ("vm-disk", "binary")],
    );
    let res = state.install(m, &mut alloc);
    assert!(res.is_ok(), "got {res:?}");
}

#[test]
fn resolve_policy_inherits_from_ancestor() {
    let mut state = OntologyState::new();
    let mut alloc = IdAllocator::new();
    let m = module(
        "x",
        vec![label_with_storage("file", compress_only(9)), label("binary")],
        &[("binary", "file")],
    );
    state.install(m, &mut alloc).unwrap();
    let binary = named(&state, "binary");
    let resolved = state.resolve_policy(&vec![binary], &StoragePolicy::default());
    assert_eq!(resolved.compression, Some(CompressionAlgo::Zstd(9)));
}

#[test]
fn resolve_policy_descendant_overrides() {
    let mut state = OntologyState::new();
    let mut alloc = IdAllocator::new();
    let m = module(
        "x",
        vec![
            label_with_storage("file", compress_only(9)),
            label_with_storage(
                "binary",
                StoragePolicy { compression: Some(CompressionAlgo::Lz4), ..Default::default() },
            ),
        ],
        &[("binary", "file")],
    );
    state.install(m, &mut alloc).unwrap();
    let binary = named(&state, "binary");
    let resolved = state.resolve_policy(&vec![binary], &StoragePolicy::default());
    assert_eq!(resolved.compression, Some(CompressionAlgo::Lz4));
}

#[test]
fn resolve_policy_falls_back_to_default() {
    let mut state = OntologyState::new();
    let mut alloc = IdAllocator::new();
    state.install(module("x", vec![label("plain")], &[]), &mut alloc).unwrap();
    let plain = named(&state, "plain");
    let default =
        StoragePolicy { compression: Some(CompressionAlgo::Lz4), ..Default::default() };
    let resolved = state.resolve_policy(&vec![plain], &default);
    assert_eq!(resolved.compression, Some(CompressionAlgo::Lz4));
}

#[test]
fn scrub_removes_exclusive_keeps_shared() {
    let mut state = OntologyState::new();
    let mut alloc = IdAllocator::new();
    state.install(module("A", vec![label("media"), label("audio")], &[]), &mut alloc).unwrap();
    state.install(module("B", vec![label("media"), label("video")], &[]), &mut alloc).unwrap();

    let media_id = named(&state, "media");
    state
        .installed_modules
        .get_mut(&"B".to_string())
        .unwrap()
        .installed_tags
        .push(media_id);

    let removed = state.scrub(&"A".to_string()).unwrap();
    assert_eq!(removed, 1);
    assert!(has_name(&state, "media"));
    assert!(!has_name(&state, "audio"));
    assert!(has_name(&state, "video"));
}

#[test]
fn scrub_unknown_module_errors() {
    let mut state = OntologyState::new();
    let err = state.scrub(&"ghost".to_string()).unwrap_err();
    assert!(matches!(err, OntologyError::ModuleNotInstalled(_)));
}

#[test]
fn scrub_after_install_restores_the_registry() {
    let mut state = OntologyState::new();
    let mut alloc = IdAllocator::new();
    state
        .install(
            module_with_relations(
                "A",
                vec![label("a"), label("z")],
                &[("a", "z")],
                &[("a", TagRelation::Requires, "z")],
            ),
            &mut alloc,
        )
        .unwrap();
    let before = state.to_image();
    state
        .install(
            module_with_relations(
                "B",
                vec![label("b"), label("c"), label("a")],
                &[("b", "c"), ("a", "z"), ("z", "c")],
                &[("b", TagRelation::Alias, "c"), ("a", TagRelation::Requires, "z")],
            ),
            &mut alloc,
        )
        .unwrap();
    assert_eq!(state.scrub(&"B".to_string()).unwrap(), 2);
    assert_eq!(state.to_image(), before);
    assert_eq!(state.tags.len(), 2);
    assert_eq!(state.dag.edge_count(), 1);
    assert!(has_name(&state, "a"));
}

#[test]
fn upgrade_adds_new_tags() {
    let mut state = OntologyState::new();
    let mut alloc = IdAllocator::new();
    state.install(module("m", vec![label("a")], &[]), &mut alloc).unwrap();
    let upgrade = OntologyModule {
        id: "m".into(),
        version: "0.2.0".into(),
        name: "m".into(),
        tags: vec![label("a"), label("b")],
        implications: vec![("b".into(), "a".into())],
        relations: Vec::new(),
    };
    let res = state.upgrade(upgrade).unwrap();
    assert_eq!(res.tags_registered, 1);
    assert!(has_name(&state, "b"));
    assert_eq!(state.dag.edge_count(), 1);
}

#[test]
fn lone_module_leaves_any_registry_as_it_was() {
    // The implication in the graph is listed by no module.
    let mut state = OntologyState::new();
    let mut alloc = IdAllocator::new();
    state.install(module("A", vec![label("a"), label("z")], &[]), &mut alloc).unwrap();
    let (a, z) = (named(&state, "a"), named(&state, "z"));
    state.dag.add_implication(a, z).unwrap();
    let before = state.to_image();
    state
        .install(
            module_with_relations(
                "B",
                vec![label("b"), label("c"), label("b")],
                &[("b", "c")],
                &[("b", TagRelation::Requires, "c")],
            ),
            &mut alloc,
        )
        .unwrap();
    assert_eq!(state.scrub(&"B".to_string()).unwrap(), 2);
    assert_eq!(state.to_image(), before);
    assert!(matches!(
        state.scrub(&"B".to_string()),
        Err(OntologyError::ModuleNotInstalled(_))
    ));
    assert_eq!(state.to_image(), before);
}

#[test]
fn scrub_after_upgrade_restores_the_registry() {
    let mut state = OntologyState::new();
    let mut alloc = IdAllocator::new();
    state.install(module("A", vec![label("a"), label("z")], &[("a", "z")]), &mut alloc).unwrap();
    let next = module("A", vec![label("a"), label("z"), label("y")], &[("z", "y")]);
    state.upgrade(next).unwrap();
    let before = state.to_image();
    let mut alloc = IdAllocator::starting_at(4);
    state.install(module("B", vec![label("b"), label("y")], &[("a", "b")]), &mut alloc).unwrap();
    assert_eq!(state.scrub(&"B".to_string()).unwrap(), 1);
    assert_eq!(state.to_image(), before);
}

#[test]
fn installs_keep_the_registry_sound() {
    let mut state = OntologyState::new();
    let mut alloc = IdAllocator::new();
    let top = label_with_storage("top", chunk_only());
    state.install(module("A", vec![top, label("x")], &[]), &mut alloc).unwrap();
    let low = label_with_storage("low", chunk_only());
    state.install(module("B", vec![low, label("x")], &[("low", "top")]), &mut alloc).unwrap();
    let (top, low) = (named(&state, "top"), named(&state, "low"));
    assert!(state.dag.is_a(low, top) && !state.dag.is_a(top, low));
    assert_eq!(state.tags.len(), 3);
    assert_eq!(state.names.len(), 3);
    assert_eq!(state.dag.tag_count(), 3);
    assert!(state.dag.topological_sort().is_ok());
    let lone = label_with_storage("lone", chunk_only());
    assert!(state.install(module("C", vec![lone], &[]), &mut alloc).is_err());
    assert_eq!(state.tags.len(), 3);
}

#[test]
fn storage_policies_survive_their_tables() {
    let chunks = [None, chunk_only().chunking];
    let compressions = [
        None,
        Some(CompressionAlgo::Lz4),
        Some(CompressionAlgo::Zstd(-7)),
        Some(CompressionAlgo::Zstd(19)),
    ];
    let encryptions = [
        None,
        Some(EncryptionMode::Off),
        Some(EncryptionMode::Xts),
        Some(EncryptionMode::AesGcm),
        Some(EncryptionMode::ChaCha20Poly1305),
        Some(EncryptionMode::Hctr2 { object_id: u64::MAX }),
    ];
    for chunking in chunks {
        for compression in compressions {
            for encryption in encryptions {
                let p = Some(StoragePolicy { chunking, compression, encryption });
                assert_eq!(parse_storage(&encode_storage(&p)).unwrap(), p);
            }
        }
    }
    assert_eq!(parse_storage(&encode_storage(&None)).unwrap(), None);
}

#[test]
fn upgrade_unknown_module_errors() {
    let mut state = OntologyState::new();
    let upgrade = module("ghost", vec![label("x")], &[]);
    assert!(matches!(state.upgrade(upgrade), Err(OntologyError::ModuleNotInstalled(_))));
}

#[test]
fn upgrade_takes_nothing_away() {
    let mut state = OntologyState::new();
    let mut alloc = IdAllocator::new();
    state.install(module("m", vec![label("b"), label("a")], &[("b", "a")]), &mut alloc).unwrap();
    let before = state.to_image();

    let err = state.upgrade(module("m", vec![label("c")], &[])).unwrap_err();
    assert_eq!(
        err,
        OntologyError::ModuleParse(
            "upgrade would remove tag `a`; explicit migration required".to_string()
        )
    );
    assert_eq!(state.to_image(), before);

    let mut other = label("a");
    other.semantics = TagSemantics::Grouping;
    let err = state.upgrade(module("m", vec![label("b"), other], &[])).unwrap_err();
    assert_eq!(
        err,
        OntologyError::ModuleParse("upgrade would change semantics of tag `a`".to_string())
    );
    assert_eq!(state.to_image(), before);

    let next = module("m", vec![label("a"), label("b"), label("c")], &[("c", "b")]);
    let res = state.upgrade(next).unwrap();
    assert_eq!((res.tags_registered, res.tags_skipped, res.implications_added), (1, 4, 1));
    assert!(state.dag.is_a(named(&state, "b"), named(&state, "a")));
    assert!(state.dag.is_a(named(&state, "c"), named(&state, "a")));
    let rec = state.installed_modules.get(&"m".to_string()).unwrap();
    assert_eq!(rec.installed_tags.len(), 3);
    assert_eq!(rec.installed_implications.len(), 2);
}

#[test]
fn newer_image_is_refused() {
    let mut image = OntologyState::new().to_image();
    image.format_version = 2;
    assert_eq!(
        image.into_state().err().unwrap(),
        OntologyError::Cbor("ontology image format_version 2 exceeds supported 1".to_string())
    );
}

#[test]
fn state_cbor_round_trip() {
    let mut state = OntologyState::new();
    let mut alloc = IdAllocator::new();
    state
        .install(
            module(
                "core",
                vec![label_with_storage("file", compress_only(9)), label("binary")],
                &[("binary", "file")],
            ),
            &mut alloc,
        )
        .unwrap();

    let back = state.to_image().into_state().unwrap();
    assert_eq!(state.tags.len(), back.tags.len());
    assert_eq!(state.dag.edge_count(), back.dag.edge_count());
    assert_eq!(state.installed_modules.len(), back.installed_modules.len());
    let bin = named(&back, "binary");
    let resolved = back.resolve_policy(&vec![bin], &StoragePolicy::default());
    assert_eq!(resolved.compression, Some(CompressionAlgo::Zstd(9)));
}

/// The state that comes back from its region. The image is kept aside while the
/// region holds a mark in its place.
fn region_at(dev: &mut MemoryDevice, state: &OntologyState) -> OntologyState {
    let aside = RefCell::new(Vec::new());
    state
        .flush_to_region(dev, 0, |runs: &Vec<SortedRun<u32, OntologyImage>>| {
            for run in runs {
                aside.borrow_mut().push(SortedRun { entries: run.entries.clone() });
            }
            Ok(b"mark".to_vec())
        })
        .unwrap();
    OntologyState::load_from_region(dev, 0, |bytes| {
        assert_eq!(bytes, b"mark");
        Ok(aside.take())
    })
    .unwrap()
}

fn region_back(state: &OntologyState) -> OntologyState {
    region_at(&mut MemoryDevice::new(1 << 20), state)
}

#[test]
fn ontology_region_round_trip_empty_returns_default() {
    let dev = MemoryDevice::new(4096);
    let state = OntologyState::load_from_region(&dev, 0, |_| panic!()).unwrap();
    assert!(state.tags.is_empty());
    assert!(state.installed_modules.is_empty());
    assert_eq!(state.dag.edge_count(), 0);
    let err = OntologyState::load_from_region(&dev, 5000, |_| panic!());
    assert_eq!(
        err.err().unwrap(),
        OntologyError::Cbor("8 bytes at offset 5000 are out of bounds".to_string())
    );
    let node = LoadedNode::new(BtreeKind::Ontology, 0, 18);
    let state = OntologyState::from_loaded_node(&node).unwrap();
    assert!(state.tags.is_empty());
    assert!(state.installed_modules.is_empty());
    assert_eq!(state.dag.edge_count(), 0);
}

#[test]
fn ontology_region_round_trip_preserves_state() {
    let mut state = OntologyState::new();
    let mut alloc = IdAllocator::new();
    state
        .install(
            module(
                "core",
                vec![
                    label_with_storage("file", compress_only(9)),
                    label("binary"),
                    label("vehicle"),
                ],
                &[("binary", "file")],
            ),
            &mut alloc,
        )
        .unwrap();
    state.install(module("ext", vec![label("media"), label("audio")], &[]), &mut alloc).unwrap();

    let back = region_back(&state);
    assert_eq!(back.tags.len(), state.tags.len());
    assert_eq!(back.dag.edge_count(), state.dag.edge_count());
    assert_eq!(back.installed_modules.len(), state.installed_modules.len());
    let bin = named(&back, "binary");
    let resolved = back.resolve_policy(&vec![bin], &StoragePolicy::default());
    assert_eq!(resolved.compression, Some(CompressionAlgo::Zstd(9)));
    assert!(back.installed_modules.contains_key(&"core".to_string()));
    assert!(back.installed_modules.contains_key(&"ext".to_string()));
}

#[test]
fn ontology_region_overwrite_replaces_state() {
    let mut first = OntologyState::new();
    let mut alloc = IdAllocator::new();
    first.install(module("a", vec![label("x"), label("y")], &[]), &mut alloc).unwrap();
    let mut dev = MemoryDevice::new(1 << 20);
    assert!(has_name(&region_at(&mut dev, &first), "x"));

    let mut second = OntologyState::new();
    let mut alloc2 = IdAllocator::new();
    second.install(module("b", vec![label("z")], &[]), &mut alloc2).unwrap();
    let back = region_at(&mut dev, &second);
    assert!(back.installed_modules.contains_key(&"b".to_string()));
    assert!(!back.installed_modules.contains_key(&"a".to_string()));
    assert!(has_name(&back, "z"));
    assert!(!has_name(&back, "x"));
}

#[test]
fn install_records_relations() {
    let mut state = OntologyState::new();
    let mut alloc = IdAllocator::new();
    let m = module_with_relations(
        "core",
        vec![label("active"), label("discontinued"), label("usb-c"), label("electronics")],
        &[],
        &[
            ("active", TagRelation::MutuallyExclusive, "discontinued"),
            ("usb-c", TagRelation::Requires, "electronics"),
        ],
    );
    state.install(m, &mut alloc).unwrap();
    assert_eq!(state.relations.len(), 2);
    let active = named(&state, "active");
    let discontinued = named(&state, "discontinued");
    let usb_c = named(&state, "usb-c");
    let electronics = named(&state, "electronics");
    assert!(state.relations.contains(&(active, TagRelation::MutuallyExclusive, discontinued)));
    assert!(state.relations.contains(&(usb_c, TagRelation::Requires, electronics)));

    let rec = state.installed_modules.get(&"core".to_string()).unwrap();
    assert_eq!(rec.installed_relations.len(), 2);
}

#[test]
fn install_rejects_implied_by_in_relations() {
    let mut state = OntologyState::new();
    let mut alloc = IdAllocator::new();
    let m = module_with_relations(
        "x",
        vec![label("car"), label("vehicle")],
        &[],
        &[("car", TagRelation::ImpliedBy, "vehicle")],
    );
    let err = state.install(m, &mut alloc).unwrap_err();
    assert!(matches!(err, OntologyError::ModuleParse(_)));
    assert!(state.tags.is_empty());
}

#[test]
fn install_relation_unknown_tag_errors() {
    let mut state = OntologyState::new();
    let mut alloc = IdAllocator::new();
    let m = module_with_relations(
        "x",
        vec![label("a")],
        &[],
        &[("a", TagRelation::Requires, "ghost")],
    );
    let err = state.install(m, &mut alloc).unwrap_err();
    assert!(matches!(err, OntologyError::UnknownTag(_)));
    assert!(state.tags.is_empty());
}

#[test]
fn ontology_region_round_trip_preserves_relations() {
    let mut state = OntologyState::new();
    let mut alloc = IdAllocator::new();
    state
        .install(
            module_with_relations(
                "core",
                vec![label("active"), label("discontinued"), label("laptop"), label("notebook")],
                &[],
                &[
                    ("active", TagRelation::MutuallyExclusive, "discontinued"),
                    ("laptop", TagRelation::Alias, "notebook"),
                ],
            ),
            &mut alloc,
        )
        .unwrap();

    let back = region_back(&state);
    assert_eq!(back.relations.len(), 2);
    let active = named(&back, "active");
    let discontinued = named(&back, "discontinued");
    let laptop = named(&back, "laptop");
    let notebook = named(&back, "notebook");
    assert!(back.relations.contains(&(active, TagRelation::MutuallyExclusive, discontinued)));
    assert!(back.relations.contains(&(laptop, TagRelation::Alias, notebook)));
    let rec = back.installed_modules.get(&"core".to_string()).unwrap();
    assert_eq!(rec.installed_relations.len(), 2);
}

#[test]
fn cbor_round_trip_preserves_relations() {
    let mut state = OntologyState::new();
    let mut alloc = IdAllocator::new();
    state
        .install(
            module_with_relations(
                "x",
                vec![label("a"), label("b")],
                &[],
                &[("a", TagRelation::Requires, "b")],
            ),
            &mut alloc,
        )
        .unwrap();
    let back = state.to_image().into_state().unwrap();
    assert_eq!(state.relations, back.relations);
}

#[test]
fn scrub_removes_exclusive_relations_keeps_shared() {
    let mut state = OntologyState::new();
    let mut alloc = IdAllocator::new();
    state
        .install(
            module_with_relations(
                "A",
                vec![label("a"), label("b"), label("c")],
                &[],
                &[("a", TagRelation::Requires, "b"), ("a", TagRelation::Requires, "c")],
            ),
            &mut alloc,
        )
        .unwrap();
    let a = named(&state, "a");
    let b = named(&state, "b");
    let b_record = ModuleRecord {
        id: "B".into(),
        version: "0.1.0".into(),
        name: "B".into(),
        installed_tags: vec![],
        installed_implications: vec![],
        installed_relations: vec![(a, TagRelation::Requires, b)],
    };
    state.installed_modules.insert("B".into(), b_record);

    state.scrub(&"A".to_string()).unwrap();
    assert_eq!(state.relations.len(), 1);
    assert_eq!(state.relations[0], (a, TagRelation::Requires, b));
}

// ---------- tag definitions ----------

#[test]
fn label_tag() {
    let def = TagDefinition::new(TagId::new(1), "electronic", TagSemantics::Label);
    assert_eq!(def.name, "electronic");
    assert_eq!(def.semantics, TagSemantics::Label);
    assert!(def.implies.is_empty());
}

#[test]
fn attribute_tag() {
    let def = TagDefinition::new(
        TagId::new(2),
        "artist",
        TagSemantics::Attribute { value_type: ValueType::Text },
    );
    assert!(matches!(
        def.semantics,
        TagSemantics::Attribute { value_type: ValueType::Text }
    ));
}

#[test]
fn ordered_collection_tag() {
    let audio_tag = TagId::new(100);
    let def = TagDefinition::new(
        TagId::new(3),
        "playlist",
        TagSemantics::OrderedCollection { element_constraint: Some(audio_tag) },
    );
    assert!(matches!(
        def.semantics,
        TagSemantics::OrderedCollection { element_constraint: Some(_) }
    ));
}

#[test]
fn with_implies() {
    let vehicle = TagId::new(10);
    let physical = TagId::new(11);
    let def = TagDefinition::new(TagId::new(1), "car", TagSemantics::Label)
        .with_implies(vec![vehicle, physical]);
    assert_eq!(def.implies, vec![vehicle, physical]);
}
