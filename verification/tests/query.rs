use mimisbrunnr::index::forward_index::ForwardIndex;
use mimisbrunnr::index::kv_index::KvIndex;
use mimisbrunnr::index::range_index::RangeIndex;
use mimisbrunnr::index::tag_index::TagIndex;
use mimisbrunnr::ontology::module::{IdAllocator, OntologyModule};
use mimisbrunnr::ontology::state::OntologyState;
use mimisbrunnr::query::error::QueryError;
use mimisbrunnr::query::executor::QueryExecutor;
use mimisbrunnr::query::facets::FacetedExplorer;
use mimisbrunnr::query::parser::QueryParser;
use mimisbrunnr::types::assertion::{Assertion, TagOrigin};
use mimisbrunnr::types::id::{ObjectId, TagId};
use mimisbrunnr::types::query::{CmpOp, Query};
use mimisbrunnr::types::tag::{TagDefinition, TagSemantics};
use mimisbrunnr::types::value::Value;
use roaring::RoaringBitmap;

fn t(id: u32) -> TagId {
    TagId::new(id)
}

fn oid(local: u64) -> ObjectId {
    ObjectId::from_parts(0, local)
}

fn float(x: f64) -> Value {
    Value::Float(x.to_bits())
}

struct Fixture {
    tag: TagIndex,
    kv: KvIndex,
    range: RangeIndex,
    fwd: ForwardIndex,
    ont: OntologyState,
}

impl Fixture {
    fn new() -> Self {
        Self {
            tag: TagIndex::new(),
            kv: KvIndex::new(),
            range: RangeIndex::new(),
            fwd: ForwardIndex::new(),
            ont: OntologyState::new(),
        }
    }

    fn exec(&self) -> QueryExecutor<'_> {
        QueryExecutor::new(&self.tag, &self.kv, &self.range, &self.fwd, &self.ont)
    }

    fn found(&self, q: &Query) -> Vec<u32> {
        bm_to_vec(&self.exec().evaluate(q).unwrap())
    }
}

fn label(name: &str) -> TagDefinition {
    TagDefinition {
        id: TagId::new(0),
        name: name.into(),
        semantics: TagSemantics::Label,
        implies: vec![],
        storage: None,
    }
}

fn install_chain(state: &mut OntologyState, names: &[&str], implications: &[(&str, &str)]) {
    let mut alloc = IdAllocator::new();
    let module = OntologyModule {
        id: "test".into(),
        version: "0.1.0".into(),
        name: "test".into(),
        tags: names.iter().map(|n| label(n)).collect(),
        implications: implications.iter().map(|(a, b)| (a.to_string(), b.to_string())).collect(),
        relations: vec![],
    };
    state.install(module, &mut alloc).unwrap();
}

fn bm_to_vec(bm: &RoaringBitmap) -> Vec<u32> {
    bm.iter().collect()
}

fn attr(key: TagId, op: CmpOp, value: Value) -> Query {
    Query::HasAttr { key, op, value }
}

fn two_tags() -> Fixture {
    let mut f = Fixture::new();
    f.tag.add_member(t(1), oid(1));
    f.tag.add_member(t(1), oid(2));
    f.tag.add_member(t(1), oid(3));
    f.tag.add_member(t(2), oid(2));
    f.tag.add_member(t(2), oid(3));
    f.tag.add_member(t(2), oid(4));
    f
}

// ---------- evaluation ----------

#[test]
fn has_tag_round_trip() {
    let f = two_tags();
    let r = f.exec().evaluate(&Query::HasTag(t(1))).unwrap();
    assert_eq!(bm_to_vec(&r), vec![1, 2, 3]);
}

#[test]
fn and_intersection() {
    let f = two_tags();
    let q = Query::And(vec![Query::HasTag(t(1)), Query::HasTag(t(2))]);
    let r = f.exec().evaluate(&q).unwrap();
    assert_eq!(bm_to_vec(&r), vec![2, 3]);
}

#[test]
fn or_union() {
    let f = two_tags();
    let q = Query::Or(vec![Query::HasTag(t(1)), Query::HasTag(t(2))]);
    let r = f.exec().evaluate(&q).unwrap();
    assert_eq!(bm_to_vec(&r), vec![1, 2, 3, 4]);
}

#[test]
fn empty_combinations_mean_nothing() {
    let f = two_tags();
    assert!(f.found(&Query::And(vec![])).is_empty());
    assert!(f.found(&Query::Or(vec![])).is_empty());
}

#[test]
fn not_against_universe() {
    let mut f = Fixture::new();
    for i in 1..=4 {
        f.tag.add_member(t(0), oid(i));
    }
    f.tag.add_member(t(1), oid(1));
    f.tag.add_member(t(1), oid(2));
    f.tag.add_member(t(1), oid(3));

    let q = Query::Not(Box::new(Query::HasTag(t(1))));
    let r = f.exec().evaluate(&q).unwrap();
    assert_eq!(bm_to_vec(&r), vec![4]);
}

#[test]
fn negation_of_a_negation() {
    let f = two_tags();
    let once = Query::Not(Box::new(Query::HasTag(t(1))));
    assert_eq!(f.found(&once), vec![4]);
    assert_eq!(f.found(&Query::Not(Box::new(once))), vec![1, 2, 3]);
}

#[test]
fn not_on_empty_universe_yields_empty() {
    let f = Fixture::new();
    let q = Query::Not(Box::new(Query::HasTag(t(99))));
    let r = f.exec().evaluate(&q).unwrap();
    assert!(r.is_empty());
}

#[test]
fn has_attr_eq_round_trip() {
    let mut f = Fixture::new();
    let year = t(10);
    f.kv.insert(year, &Value::Int(2024), 1);
    f.kv.insert(year, &Value::Int(2024), 2);
    f.kv.insert(year, &Value::Int(2023), 3);

    let q = attr(year, CmpOp::Eq, Value::Int(2024));
    let r = f.exec().evaluate(&q).unwrap();
    assert_eq!(bm_to_vec(&r), vec![1, 2]);
}

fn years() -> Fixture {
    let mut f = Fixture::new();
    for y in 2020..2025i64 {
        f.range.insert(t(10), &Value::Int(y), y as u32);
    }
    f
}

#[test]
fn has_attr_lt_via_range_index() {
    let f = years();
    let q = attr(t(10), CmpOp::Lt, Value::Int(2024));
    let r = f.exec().evaluate(&q).unwrap();
    let mut got = bm_to_vec(&r);
    got.sort();
    assert_eq!(got, vec![2020, 2021, 2022, 2023]);
}

#[test]
fn has_attr_gt_via_range_index() {
    let f = years();
    let q = attr(t(10), CmpOp::Gt, Value::Int(2022));
    let r = f.exec().evaluate(&q).unwrap();
    let mut got = bm_to_vec(&r);
    got.sort();
    assert_eq!(got, vec![2023, 2024]);
}

#[test]
fn inclusive_bounds() {
    let f = years();
    assert_eq!(f.found(&attr(t(10), CmpOp::Le, Value::Int(2021))), vec![2020, 2021]);
    assert_eq!(f.found(&attr(t(10), CmpOp::Ge, Value::Int(2023))), vec![2023, 2024]);
    assert!(f.found(&attr(t(11), CmpOp::Ge, Value::Int(0))).is_empty());
}

#[test]
fn the_greatest_values_are_within_reach() {
    let mut f = Fixture::new();
    f.range.insert(t(1), &Value::Int(i64::MAX), 7);
    f.range.insert(t(1), &Value::Int(i64::MIN), 8);
    f.range.insert(t(2), &float(f64::INFINITY), 9);
    f.range.insert(t(2), &float(-1.5), 10);
    f.range.insert(t(3), &Value::Text("\u{10FFFF}".repeat(6)), 11);
    assert_eq!(f.found(&attr(t(1), CmpOp::Ge, Value::Int(i64::MAX))), vec![7]);
    assert_eq!(f.found(&attr(t(1), CmpOp::Gt, Value::Int(5))), vec![7]);
    assert!(f.found(&attr(t(1), CmpOp::Gt, Value::Int(i64::MAX))).is_empty());
    assert_eq!(f.found(&attr(t(1), CmpOp::Lt, Value::Int(5))), vec![8]);
    assert_eq!(f.found(&attr(t(2), CmpOp::Gt, float(0.0))), vec![9]);
    assert_eq!(f.found(&attr(t(2), CmpOp::Le, float(-1.5))), vec![10]);
    assert_eq!(f.found(&attr(t(3), CmpOp::Gt, Value::Text("zebra".into()))), vec![11]);
}

#[test]
fn has_attr_ne() {
    let mut f = Fixture::new();
    let key = t(10);
    for (o, y) in [(1, 2024), (2, 2024), (3, 2023)] {
        f.fwd.add_assertion(
            oid(o),
            Assertion::Attr { key, value: Value::Int(y) },
            TagOrigin::Direct,
        );
    }
    f.kv.insert(key, &Value::Int(2024), 1);
    f.kv.insert(key, &Value::Int(2024), 2);
    f.kv.insert(key, &Value::Int(2023), 3);

    let q = attr(key, CmpOp::Ne, Value::Int(2024));
    let r = f.exec().evaluate(&q).unwrap();
    assert_eq!(bm_to_vec(&r), vec![3]);
}

#[test]
fn prefixes_of_texts() {
    let mut f = Fixture::new();
    for (o, s) in [(1, "Aphex Twin"), (2, "Autechre"), (3, "Aphelion")] {
        f.fwd.add_assertion(
            oid(o),
            Assertion::Attr { key: t(4), value: Value::Text(s.into()) },
            TagOrigin::Direct,
        );
    }
    assert_eq!(f.found(&attr(t(4), CmpOp::Prefix, Value::Text("Aphe".into()))), vec![1, 3]);
    assert_eq!(f.found(&attr(t(4), CmpOp::Prefix, Value::Text("".into()))), vec![1, 2, 3]);
    assert!(f.found(&attr(t(4), CmpOp::Prefix, Value::Int(1))).is_empty());
    assert!(f.found(&attr(t(5), CmpOp::Prefix, Value::Text("A".into()))).is_empty());
}

#[test]
fn contains_returns_unsupported() {
    let f = Fixture::new();
    let q = attr(t(1), CmpOp::Contains, Value::Text("foo".into()));
    let err = f.exec().evaluate(&q).unwrap_err();
    assert!(matches!(err, QueryError::UnsupportedCmpOp { op: "Contains" }));
    let err = f.exec().evaluate_full(&Query::Not(Box::new(q))).unwrap_err();
    assert!(matches!(err, QueryError::UnsupportedCmpOp { op: "Contains" }));
}

#[test]
fn isa_resolves_descendants() {
    let mut f = Fixture::new();
    install_chain(&mut f.ont, &["car", "vehicle"], &[("car", "vehicle")]);
    let car = *f.ont.names.get(&"car".to_string()).unwrap();
    let vehicle = *f.ont.names.get(&"vehicle".to_string()).unwrap();

    f.tag.add_member(car, oid(1));
    f.tag.add_member(vehicle, oid(2));

    let r = f.exec().evaluate(&Query::IsA(vehicle)).unwrap();
    let mut got = bm_to_vec(&r);
    got.sort();
    assert_eq!(got, vec![1, 2]);
    assert_eq!(f.found(&Query::IsA(car)), vec![1]);
}

#[test]
fn related_linear_scan() {
    let mut f = Fixture::new();
    let pred = t(7);
    let target = oid(900);
    f.fwd.add_assertion(
        oid(1),
        Assertion::Relation { predicate: pred, target },
        TagOrigin::Direct,
    );
    f.fwd.add_assertion(
        oid(2),
        Assertion::Relation { predicate: pred, target: oid(901) },
        TagOrigin::Direct,
    );
    let q = Query::Related { predicate: pred, target };
    let r = f.exec().evaluate(&q).unwrap();
    assert_eq!(bm_to_vec(&r), vec![1]);
}

#[test]
fn evaluate_full_reconstructs_object_ids() {
    let mut f = Fixture::new();
    f.tag.add_member(t(1), oid(10));
    f.tag.add_member(t(1), oid(20));
    let ids = f.exec().evaluate_full(&Query::HasTag(t(1))).unwrap();
    let mut locals: Vec<u64> = ids.iter().map(|o| o.local_seq()).collect();
    locals.sort();
    assert_eq!(locals, vec![10, 20]);
}

#[test]
fn complex_query_from_design_doc() {
    let mut f = Fixture::new();
    let electronics = t(1);
    let portable = t(2);
    let discontinued = t(3);
    let year = t(10);

    for id in 1..=10u64 {
        f.tag.add_member(electronics, oid(id));
    }
    for id in [3u64, 5, 7, 8] {
        f.tag.add_member(portable, oid(id));
    }
    for id in [5u32, 7, 8, 9] {
        f.kv.insert(year, &Value::Int(2024), id);
    }
    f.tag.add_member(discontinued, oid(7));

    let q = Query::And(vec![
        Query::HasTag(electronics),
        Query::HasTag(portable),
        attr(year, CmpOp::Eq, Value::Int(2024)),
        Query::Not(Box::new(Query::HasTag(discontinued))),
    ]);
    let r = f.exec().evaluate(&q).unwrap();
    let mut got = bm_to_vec(&r);
    got.sort();
    assert_eq!(got, vec![5, 8]);
}

// ---------- plans ----------

fn write_float(bits: u64) -> String {
    f64::from_bits(bits).to_string()
}

fn explain(q: &Query) -> String {
    mimisbrunnr::query::explain::explain(q, write_float)
}

#[test]
fn explain_three_levels_deep() {
    let q = Query::And(vec![
        Query::Or(vec![Query::HasTag(t(1)), Query::HasTag(t(2))]),
        Query::Not(Box::new(attr(t(10), CmpOp::Eq, Value::Int(2024)))),
    ]);
    let plan = explain(&q);

    assert!(plan.contains("And [2 children]"));
    assert!(plan.contains("Or [2 children]"));
    assert!(plan.contains("HasTag(1)"));
    assert!(plan.contains("HasTag(2)"));
    assert!(plan.contains("Not"));
    assert!(plan.contains("HasAttr"));
    assert!(plan.contains("    HasTag(1)\n"));
    assert!(plan.contains("  Or [2 children]\n"));
    assert_eq!(
        plan,
        "And [2 children]\n  Or [2 children]\n    HasTag(1)\n    HasTag(2)\n  Not\n    \
         HasAttr(key=10, op==, value=2024)\n"
    );
}

#[test]
fn explain_leaf_no_indent() {
    let q = Query::HasTag(t(7));
    assert_eq!(explain(&q), "HasTag(7)\n");
    assert_eq!(explain(&Query::IsA(t(8))), "IsA(8)\n");
    assert_eq!(
        explain(&attr(t(1), CmpOp::Lt, float(2.5))),
        "HasAttr(key=1, op=<, value=2.5)\n"
    );
}

// ---------- facets ----------

#[test]
fn explore_orders_by_count_desc() {
    let mut f = Fixture::new();
    for i in 1..=5u64 {
        f.tag.add_member(t(1), oid(i));
    }
    f.tag.add_member(t(2), oid(2));
    f.tag.add_member(t(2), oid(3));
    f.tag.add_member(t(3), oid(3));

    let exec = f.exec();
    let explorer = FacetedExplorer::new(&exec);
    let groups = explorer.explore(&Query::HasTag(t(1)), 10).unwrap();

    assert_eq!(groups[0].tag, t(1));
    assert_eq!(groups[0].count, 5);
    assert_eq!(groups[1].tag, t(2));
    assert_eq!(groups[1].count, 2);
    assert_eq!(groups[2].tag, t(3));
    assert_eq!(groups[2].count, 1);
}

#[test]
fn explore_respects_max_facets() {
    let mut f = Fixture::new();
    for i in 1..=10u64 {
        f.tag.add_member(t(1), oid(i));
    }
    f.tag.add_member(t(2), oid(1));
    f.tag.add_member(t(3), oid(1));
    f.tag.add_member(t(4), oid(1));

    let exec = f.exec();
    let explorer = FacetedExplorer::new(&exec);
    let groups = explorer.explore(&Query::HasTag(t(1)), 2).unwrap();
    assert_eq!(groups.len(), 2);
}

#[test]
fn explore_empty_selection() {
    let f = Fixture::new();
    let exec = f.exec();
    let explorer = FacetedExplorer::new(&exec);
    let groups = explorer.explore(&Query::HasTag(t(99)), 5).unwrap();
    assert!(groups.is_empty());
}

// ---------- texts of queries ----------

fn resolver(name: &str) -> Option<TagId> {
    match name {
        "a" => Some(TagId::new(1)),
        "b" => Some(TagId::new(2)),
        "year" => Some(TagId::new(10)),
        "vehicle" => Some(TagId::new(20)),
        _ => None,
    }
}

fn name_lookup(t: TagId) -> String {
    match t.raw() {
        1 => "a".into(),
        2 => "b".into(),
        10 => "year".into(),
        20 => "vehicle".into(),
        other => format!("@{other}"),
    }
}

fn read_float(word: &str) -> Option<u64> {
    word.parse::<f64>().ok().map(f64::to_bits)
}

fn parse(input: &str) -> Result<Query, QueryError> {
    QueryParser::parse(input, resolver, read_float)
}

fn to_sexpr(q: &Query) -> String {
    mimisbrunnr::query::render::to_sexpr(q, name_lookup, write_float)
}

#[test]
fn parse_has_tag() {
    let q = parse("(tag a)").unwrap();
    assert_eq!(q, Query::HasTag(TagId::new(1)));
}

#[test]
fn parse_and_two_children() {
    let q = parse("(and (tag a) (tag b))").unwrap();
    assert_eq!(
        q,
        Query::And(vec![Query::HasTag(TagId::new(1)), Query::HasTag(TagId::new(2))])
    );
}

#[test]
fn parse_round_trip_and() {
    let src = "(and (tag a) (tag b))";
    let q = parse(src).unwrap();
    let back = to_sexpr(&q);
    assert_eq!(back, src);
}

#[test]
fn parse_attr_eq_int() {
    let q = parse("(attr year = 2024)").unwrap();
    assert_eq!(q, attr(TagId::new(10), CmpOp::Eq, Value::Int(2024)));
}

#[test]
fn parse_attr_quoted_text() {
    let q = parse(r#"(attr year = "twenty-four")"#).unwrap();
    assert_eq!(q, attr(TagId::new(10), CmpOp::Eq, Value::Text("twenty-four".into())));
}

#[test]
fn parse_isa() {
    let q = parse("(isa vehicle)").unwrap();
    assert_eq!(q, Query::IsA(TagId::new(20)));
}

#[test]
fn parse_complex_query() {
    let src = "(and (tag a) (attr year = 2024) (not (tag b)))";
    let q = parse(src).unwrap();
    let back = to_sexpr(&q);
    assert_eq!(back, src);
}

#[test]
fn parse_unbalanced_paren() {
    let err = parse("(and (tag a) (tag b)").unwrap_err();
    assert!(matches!(err, QueryError::Parse { .. }));
}

#[test]
fn parse_unknown_operator() {
    let err = parse("(xor (tag a) (tag b))").unwrap_err();
    assert!(matches!(err, QueryError::UnknownOp { .. }));
}

#[test]
fn parse_unknown_tag_name() {
    let err = parse("(tag ghost)").unwrap_err();
    assert!(matches!(err, QueryError::UnknownTag { .. }));
}

#[test]
fn parse_at_id_bypasses_resolver() {
    let q = parse("(tag @42)").unwrap();
    assert_eq!(q, Query::HasTag(TagId::new(42)));
}

#[test]
fn parse_or_round_trip() {
    let src = "(or (tag a) (tag b))";
    let q = parse(src).unwrap();
    let back = to_sexpr(&q);
    assert_eq!(back, src);
}

#[test]
fn parse_not_round_trip() {
    let src = "(not (tag a))";
    let q = parse(src).unwrap();
    let back = to_sexpr(&q);
    assert_eq!(back, src);
}

#[test]
fn texts_of_all_forms() {
    for src in [
        "(related a obj:1f:300)",
        "(attr year != -5)",
        "(attr year >= 2.5)",
        "(attr @77 prefix \"say \\\"hi\\\" \\\\ \")",
        "(attr year contains \"\")",
        "(attr year = \"na\u{ef}ve \u{65e5}\u{672c} \\\"\u{1f600}\\\"\")",
        "(and)",
        "(or (not (isa vehicle)) (and (tag b)))",
    ] {
        assert_eq!(to_sexpr(&parse(src).unwrap()), src);
    }
    assert_eq!(
        parse("(attr year < @9)").unwrap(),
        attr(t(10), CmpOp::Lt, Value::Int(9))
    );
    assert_eq!(
        parse("  (attr\tyear <= 1e3 )\n").unwrap(),
        attr(t(10), CmpOp::Le, float(1000.0))
    );
    assert_eq!(to_sexpr(&attr(t(1), CmpOp::Gt, Value::Timestamp(12))), "(attr a > ts:12)");
    assert_eq!(to_sexpr(&attr(t(1), CmpOp::Gt, Value::Blob(vec![1, 2]))), "(attr a > blob[2])");
    let scoped = Value::scoped(t(3), Value::Int(4)).unwrap();
    assert_eq!(to_sexpr(&attr(t(1), CmpOp::Gt, scoped)), "(attr a > scoped(@3,4))");
}

fn fault(input: &str) -> (usize, String) {
    match parse(input).unwrap_err() {
        QueryError::Parse { position, message } => (position, message),
        other => panic!("{other:?}"),
    }
}

#[test]
fn faults_stand_at_bytes() {
    assert_eq!(fault("(tag a) (tag b)"), (8, "trailing token: LParen".to_string()));
    assert_eq!(fault("(tag   )"), (7, "expected tag name, got RParen".to_string()));
    assert_eq!(fault("(tag a  b)"), (8, "expected RParen, got Word(\"b\")".to_string()));
    assert_eq!(fault("(attr year)"), (10, "expected operator, got RParen".to_string()));
    assert_eq!(fault("(attr year = )"), (13, "expected value, got RParen".to_string()));
    assert_eq!(fault("(related a b)"), (11, "expected ObjectId, got Word(\"b\")".to_string()));
    assert_eq!(
        fault("(related a "),
        (11, "expected ObjectId after `related <pred>`".to_string())
    );
    assert_eq!(fault("( (tag a))"), (2, "expected operator name, got LParen".to_string()));
    // Characters of more than one byte in front of the fault.
    assert_eq!(
        fault("(attr year = \"\u{e9}\u{20ac}\") x"),
        (22, "trailing token: Word(\"x\")".to_string())
    );
    assert_eq!(fault("(tag \"\u{e9}"), (8, "unterminated string literal".to_string()));
    assert_eq!(
        fault("(and (attr year = \"\u{e9}\") (tag @))"),
        (29, "expected digits after `@`".to_string())
    );
}

#[test]
fn quoted_text_keeps_its_characters() {
    let q = parse("(attr year = \"caf\u{e9} \\\u{e9} \u{1f600}\")").unwrap();
    let want = Value::Text("caf\u{e9} \u{e9} \u{1f600}".to_string());
    assert_eq!(q, attr(t(10), CmpOp::Eq, want));
}

#[test]
fn faults_of_texts() {
    assert_eq!(fault("(tag a"), (6, "expected RParen, got EOF".to_string()));
    assert_eq!(fault("tag"), (0, "expected LParen, got Word(\"tag\")".to_string()));
    assert_eq!(fault("(tag a) \"x\n\""), (8, "trailing token: Str(\"x\\n\")".to_string()));
    assert_eq!(fault("(tag \"abc"), (9, "unterminated string literal".to_string()));
    assert_eq!(fault("(tag @x)"), (5, "expected digits after `@`".to_string()));
    assert_eq!(fault("(tag @4294967296)"), (5, "@id literal does not fit u32".to_string()));
    assert_eq!(fault("(related a obj:xyz:1)"), (11, "bad ObjectId node `xyz`".to_string()));
    assert_eq!(fault("(related a obj:1:)"), (11, "bad ObjectId local ``".to_string()));
    assert_eq!(fault("("), (1, "expected operator after `(`".to_string()));
    assert_eq!(
        parse("(attr year ~ 3)").unwrap_err(),
        QueryError::UnknownOp { op: "~".to_string() }
    );
    assert_eq!(
        parse("(isa ghost)").unwrap_err(),
        QueryError::UnknownTag { name: "ghost".to_string() }
    );
}
