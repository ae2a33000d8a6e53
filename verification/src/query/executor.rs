//! Evaluation of queries by set algebra on bitmaps.
//!
//! An object is represented by the low 32 bits of its number. Objects whose
//! number does not fit are not found by scans of the forward index.

use vstd::prelude::*;
use crate::bytes::lemma_lex_total;
use crate::index::bitmap::{bitmap_and, bitmap_clone, bitmap_insert, bitmap_is_empty, bitmap_len,
    bitmap_new, bitmap_numbers, bitmap_or, bitmap_set, bitmap_sub, numbers_ascend};
use crate::index::forward_index::{list_model, ForwardIndex};
use crate::index::kv_index::KvIndex;
use crate::index::normalised_key::{key_of, NormalisedKey};
use crate::index::postings::posting;
use crate::index::range_index::{in_interval, KeyBound, RangeIndex};
use crate::index::tag_index::{tag_members, TagIndex};
use crate::index::tag_store::{lists_members, StoreModel};
use crate::index::value_hash::hash_of;
use crate::ontology::implication_dag::{closure_set, DagModel};
use crate::ontology::state::OntologyState;
use crate::query::bounds::{key_below, key_from, type_max_key, type_min};
use crate::query::error::{QueryError, QueryFault};
use crate::query::lexer::chars_of;
use crate::types::assertion::{Assertion, AssertionModel, TagOrigin};
use crate::types::id::{ObjectId, TagId};
use crate::types::query::{lemma_query_models, query_model, query_models, CmpOp, Query, QueryModel};
use crate::types::value::{Value, ValueModel};

verus! {

/// What the indexes hold.
pub ghost struct Indexes {
    pub tags: Map<TagId, StoreModel>,
    pub kv: Map<(TagId, u64), Set<u32>>,
    pub secret: Seq<u8>,
    pub range: Map<(TagId, Seq<u8>), Set<u32>>,
    pub forward: Map<u64, Seq<(AssertionModel, TagOrigin)>>,
    pub dag: DagModel,
}

/// The bitmap number of an object, if its number within the node fits.
pub open spec fn low32(raw: u64) -> Option<u32> {
    if raw % 0x1_0000_0000_0000 > u32::MAX {
        None
    } else {
        Some((raw % 0x1_0000_0000_0000) as u32)
    }
}

fn oid_low32(oid_raw: u64) -> (r: Option<u32>)
    ensures
        r == low32(oid_raw),
{
    let local48: u64 = oid_raw % 0x1_0000_0000_0000;
    if local48 > 0xFFFF_FFFF {
        None
    } else {
        Some(local48 as u32)
    }
}

/// What a scan of the forward index looks for.
pub ghost enum Sought {
    /// Any value of the attribute.
    Key(TagId),
    /// A text that starts so.
    Prefix(TagId, Seq<char>),
    /// The relation to the object.
    Relation(TagId, ObjectId),
}

/// The assertion is what the scan looks for.
pub open spec fn fits(s: Sought, a: AssertionModel) -> bool {
    match s {
        Sought::Key(k) => a is Attr && a->Attr_0 == k,
        Sought::Prefix(k, p) => match a {
            AssertionModel::Attr(key, ValueModel::Text(t)) => key == k && p.len() <= t.len()
                && t.take(p.len() as int) == p,
            _ => false,
        },
        Sought::Relation(p, o) => a == AssertionModel::Relation(p, o),
    }
}

/// Assertion `i` about `oid` makes the scan find `x`.
pub open spec fn finds(
    forward: Map<u64, Seq<(AssertionModel, TagOrigin)>>,
    s: Sought,
    oid: u64,
    i: int,
    x: u32,
) -> bool {
    &&& forward.contains_key(oid)
    &&& 0 <= i < forward[oid].len()
    &&& fits(s, forward[oid][i].0)
    &&& low32(oid) == Some(x)
}

/// What the scan finds.
pub open spec fn scanned(forward: Map<u64, Seq<(AssertionModel, TagOrigin)>>, s: Sought) -> Set<u32> {
    Set::new(|x: u32| exists|oid: u64, i: int| #[trigger] finds(forward, s, oid, i, x))
}

/// All objects that have a tag.
pub open spec fn universe_of(tags: Map<TagId, StoreModel>) -> Set<u32> {
    Set::new(|x: u32| exists|t: TagId| #[trigger] tags.contains_key(t) && tags[t].members().contains(x))
}

/// The objects that have a tag that is or implies `tag`.
pub open spec fn is_a_members(tags: Map<TagId, StoreModel>, dag: DagModel, tag: TagId) -> Set<u32> {
    Set::new(
        |x: u32|
            exists|t: TagId| #[trigger]
                tags.contains_key(t) && closure_set(dag, seq![t]).contains(tag)
                    && tags[t].members().contains(x),
    )
}

/// The objects with a key less than that of `v`.
pub open spec fn below_value(
    range: Map<(TagId, Seq<u8>), Set<u32>>,
    tag: TagId,
    v: ValueModel,
) -> Set<u32> {
    Set::new(
        |x: u32|
            exists|k: Seq<u8>| #[trigger] posting(range, (tag, k)).contains(x) && key_below(k, v),
    )
}

/// The objects with a key no less than that of `v`.
pub open spec fn from_value_on(
    range: Map<(TagId, Seq<u8>), Set<u32>>,
    tag: TagId,
    v: ValueModel,
) -> Set<u32> {
    Set::new(
        |x: u32|
            exists|k: Seq<u8>| #[trigger] posting(range, (tag, k)).contains(x) && key_from(k, v),
    )
}

/// The objects whose attribute compares with the value as `op` says.
pub open spec fn attr_members(ix: Indexes, key: TagId, op: CmpOp, v: ValueModel) -> Result<
    Set<u32>,
    QueryFault,
> {
    let same = posting(ix.kv, (key, hash_of(v, ix.secret)));
    let same_key = posting(ix.range, (key, key_of(v)));
    match op {
        CmpOp::Eq => Ok(same),
        CmpOp::Ne => Ok(scanned(ix.forward, Sought::Key(key)).difference(same)),
        CmpOp::Lt => Ok(below_value(ix.range, key, v)),
        CmpOp::Le => Ok(below_value(ix.range, key, v).union(same_key)),
        CmpOp::Gt => Ok(from_value_on(ix.range, key, v).difference(same_key)),
        CmpOp::Ge => Ok(from_value_on(ix.range, key, v).union(same_key)),
        CmpOp::Prefix => match v {
            ValueModel::Text(p) => Ok(scanned(ix.forward, Sought::Prefix(key, p))),
            _ => Ok(Set::empty()),
        },
        CmpOp::Contains => Err(QueryFault::UnsupportedCmpOp("Contains"@)),
    }
}

/// What is in every set.
pub open spec fn in_all(sets: Seq<Set<u32>>) -> Set<u32> {
    Set::new(|x: u32| forall|i: int| 0 <= i < sets.len() ==> (#[trigger] sets[i]).contains(x))
}

/// What is in some set.
pub open spec fn in_any(sets: Seq<Set<u32>>) -> Set<u32> {
    Set::new(|x: u32| exists|i: int| 0 <= i < sets.len() && (#[trigger] sets[i]).contains(x))
}

/// The objects that a query means.
pub open spec fn evaluated(ix: Indexes, q: QueryModel) -> Result<Set<u32>, QueryFault>
    decreases q, 0int,
{
    match q {
        QueryModel::HasTag(t) => Ok(tag_members(ix.tags, t)),
        QueryModel::HasAttr(key, op, v) => attr_members(ix, key, op, v),
        QueryModel::Related(p, o) => Ok(scanned(ix.forward, Sought::Relation(p, o))),
        QueryModel::And(v) => if v.len() == 0 {
            Ok(Set::empty())
        } else {
            match evaluated_list(ix, v, v.len() as int) {
                Ok(sets) => Ok(in_all(sets)),
                Err(f) => Err(f),
            }
        },
        QueryModel::Or(v) => match evaluated_list(ix, v, v.len() as int) {
            Ok(sets) => Ok(in_any(sets)),
            Err(f) => Err(f),
        },
        QueryModel::Not(inner) => match evaluated(ix, *inner) {
            Ok(set) => Ok(universe_of(ix.tags).difference(set)),
            Err(f) => Err(f),
        },
        QueryModel::IsA(t) => Ok(is_a_members(ix.tags, ix.dag, t)),
    }
}

/// The objects that each of the first `k` queries means; the fault of the
/// first that has one.
pub open spec fn evaluated_list(ix: Indexes, v: Seq<QueryModel>, k: int) -> Result<
    Seq<Set<u32>>,
    QueryFault,
>
    decreases v, k,
{
    if k <= 0 || k > v.len() {
        Ok(Seq::empty())
    } else {
        match evaluated_list(ix, v, k - 1) {
            Err(f) => Err(f),
            Ok(sets) => match evaluated(ix, v[k - 1]) {
                Err(f) => Err(f),
                Ok(set) => Ok(sets.push(set)),
            },
        }
    }
}

/// The contents of some bitmaps.
spec fn sets_of(v: Seq<roaring::RoaringBitmap>) -> Seq<Set<u32>> {
    v.map_values(|b: roaring::RoaringBitmap| bitmap_set(b))
}

/// The evaluator, over the indexes of a pool.
pub struct QueryExecutor<'a> {
    pub tag_index: &'a TagIndex,
    pub kv_index: &'a KvIndex,
    pub range_index: &'a RangeIndex,
    pub forward_index: &'a ForwardIndex,
    pub ontology: &'a OntologyState,
}

/// What a scan of the forward index looks for.
enum Wanted<'b> {
    Key(TagId),
    Prefix(TagId, &'b str),
    Relation(TagId, ObjectId),
}

impl<'b> Wanted<'b> {
    spec fn model(&self) -> Sought {
        match self {
            Wanted::Key(k) => Sought::Key(*k),
            Wanted::Prefix(k, p) => Sought::Prefix(*k, p@),
            Wanted::Relation(p, o) => Sought::Relation(*p, *o),
        }
    }

    fn fits(&self, a: &Assertion) -> (r: bool)
        ensures
            r == fits(self.model(), a@),
    {
        match (self, a) {
            (Wanted::Key(k), Assertion::Attr { key, value: _ }) => *k == *key,
            (Wanted::Prefix(k, p), Assertion::Attr { key, value }) => match value {
                Value::Text(t) => *k == *key && starts_with(t.as_str(), p),
                _ => false,
            },
            (Wanted::Relation(p, o), Assertion::Relation { predicate, target }) => *p == *predicate
                && *o == *target,
            _ => false,
        }
    }
}

fn starts_with(text: &str, prefix: &str) -> (r: bool)
    ensures
        r == (prefix@.len() <= text@.len() && text@.take(prefix@.len() as int) == prefix@),
{
    let t = chars_of(text);
    let p = chars_of(prefix);
    if p.len() > t.len() {
        return false;
    }
    let mut i: usize = 0;
    while i < p.len()
        invariant
            i <= p@.len(),
            p@.len() <= t@.len(),
            p@ == prefix@,
            t@ == text@,
            forall|j: int| 0 <= j < i ==> p@[j] == t@[j],
        decreases p@.len() - i,
    {
        if p[i] != t[i] {
            proof {
                assert(text@.take(prefix@.len() as int)[i as int] != prefix@[i as int]);
            }
            return false;
        }
        i = i + 1;
    }
    proof {
        assert(text@.take(prefix@.len() as int) =~= prefix@);
    }
    true
}

impl<'a> QueryExecutor<'a> {
    /// What the indexes hold.
    pub open spec fn indexes(&self) -> Indexes {
        Indexes {
            tags: self.tag_index@,
            kv: self.kv_index@,
            secret: self.kv_index.secret_bytes(),
            range: self.range_index@,
            forward: self.forward_index@,
            dag: self.ontology@.dag,
        }
    }

    pub open spec fn wf(&self) -> bool {
        &&& self.tag_index.wf()
        &&& self.kv_index.wf()
        &&& self.range_index.wf()
        &&& self.forward_index.wf()
        &&& self.ontology.wf()
    }

    /// An evaluator over these indexes.
    pub fn new(
        tag_index: &'a TagIndex,
        kv_index: &'a KvIndex,
        range_index: &'a RangeIndex,
        forward_index: &'a ForwardIndex,
        ontology: &'a OntologyState,
    ) -> (r: Self)
        ensures
            r.tag_index == tag_index,
            r.kv_index == kv_index,
            r.range_index == range_index,
            r.forward_index == forward_index,
            r.ontology == ontology,
    {
        QueryExecutor { tag_index, kv_index, range_index, forward_index, ontology }
    }

    /// The objects that a query means.
    pub fn evaluate(&self, query: &Query) -> (r: Result<roaring::RoaringBitmap, QueryError>)
        requires
            self.wf(),
        ensures
            match evaluated(self.indexes(), query@) {
                Ok(set) => r is Ok && bitmap_set(r->Ok_0) == set,
                Err(f) => r is Err && r->Err_0@ == f,
            },
        decreases query, 0int,
    {
        match query {
            Query::HasTag(tag) => Ok(self.eval_has_tag(*tag)),
            Query::HasAttr { key, op, value } => self.eval_has_attr(*key, *op, value),
            Query::Related { predicate, target } => Ok(
                self.scan_forward(&Wanted::Relation(*predicate, *target)),
            ),
            Query::And(qs) => {
                proof {
                    lemma_query_models(*qs, qs@.len() as int);
                }
                self.eval_and(qs)
            },
            Query::Or(qs) => self.eval_or(qs),
            Query::Not(q) => {
                let mut acc = self.universe();
                match self.evaluate(q) {
                    Ok(inner) => {
                        bitmap_sub(&mut acc, &inner);
                        Ok(acc)
                    },
                    Err(e) => Err(e),
                }
            },
            Query::IsA(tag) => Ok(self.eval_isa(*tag)),
        }
    }

    /// The objects that a query means, in ascending order, as objects of node
    /// zero.
    pub fn evaluate_full(&self, query: &Query) -> (r: Result<Vec<ObjectId>, QueryError>)
        requires
            self.wf(),
        ensures
            match evaluated(self.indexes(), query@) {
                Ok(set) => r is Ok && lists_members(r->Ok_0@, set),
                Err(f) => r is Err && r->Err_0@ == f,
            },
    {
        let found = match self.evaluate(query) {
            Ok(b) => b,
            Err(e) => {
                return Err(e);
            },
        };
        let numbers = bitmap_numbers(&found);
        let mut out: Vec<ObjectId> = Vec::new();
        let mut i: usize = 0;
        while i < numbers.len()
            invariant
                i <= numbers@.len(),
                out@.len() == i,
                forall|j: int| 0 <= j < i ==> (#[trigger] out@[j]).raw == numbers@[j],
            decreases numbers@.len() - i,
        {
            out.push(ObjectId::from_parts(0, numbers[i] as u64));
            i = i + 1;
        }
        proof {
            let m = bitmap_set(found);
            assert(numbers_ascend(numbers@));
            assert forall|j: int| 0 <= j < out@.len() implies (#[trigger] out@[j]).raw <= u32::MAX
                && m.contains(out@[j].raw as u32) by {
                assert(numbers@.contains(numbers@[j]));
                assert(numbers@.to_set().contains(numbers@[j]));
            }
            assert forall|x: u32| #[trigger] m.contains(x) implies exists|j: int|
                0 <= j < out@.len() && (#[trigger] out@[j]).raw == x by {
                assert(numbers@.to_set().contains(x));
                let j = choose|j: int| 0 <= j < numbers@.len() && numbers@[j] == x;
                assert(out@[j].raw == x);
            }
        }
        Ok(out)
    }

    fn eval_has_tag(&self, tag: TagId) -> (r: roaring::RoaringBitmap)
        requires
            self.wf(),
        ensures
            bitmap_set(r) == tag_members(self.tag_index@, tag),
    {
        match self.tag_index.get(tag) {
            Some(store) => bitmap_clone(store.members()),
            None => bitmap_new(),
        }
    }

    fn eval_has_attr(&self, key: TagId, op: CmpOp, value: &Value) -> (r: Result<
        roaring::RoaringBitmap,
        QueryError,
    >)
        requires
            self.wf(),
        ensures
            match attr_members(self.indexes(), key, op, value@) {
                Ok(set) => r is Ok && bitmap_set(r->Ok_0) == set,
                Err(f) => r is Err && r->Err_0@ == f,
            },
    {
        match op {
            CmpOp::Eq => Ok(self.kv_index.lookup(key, value)),
            CmpOp::Ne => {
                let mut acc = self.scan_forward(&Wanted::Key(key));
                bitmap_sub(&mut acc, &self.kv_index.lookup(key, value));
                Ok(acc)
            },
            CmpOp::Lt => Ok(self.eval_below(key, value)),
            CmpOp::Le => {
                let mut acc = self.eval_below(key, value);
                bitmap_or(&mut acc, &self.range_index.lookup(key, value));
                Ok(acc)
            },
            CmpOp::Gt => {
                let mut acc = self.eval_from(key, value);
                bitmap_sub(&mut acc, &self.range_index.lookup(key, value));
                Ok(acc)
            },
            CmpOp::Ge => {
                let mut acc = self.eval_from(key, value);
                bitmap_or(&mut acc, &self.range_index.lookup(key, value));
                Ok(acc)
            },
            CmpOp::Prefix => match value {
                Value::Text(s) => Ok(self.scan_forward(&Wanted::Prefix(key, s.as_str()))),
                _ => Ok(bitmap_new()),
            },
            CmpOp::Contains => Err(QueryError::UnsupportedCmpOp { op: "Contains" }),
        }
    }

    fn eval_below(&self, key: TagId, value: &Value) -> (r: roaring::RoaringBitmap)
        requires
            self.wf(),
        ensures
            bitmap_set(r) == below_value(self.range_index@, key, value@),
    {
        let min = type_min(value);
        let low = KeyBound { key: NormalisedKey::from_value(&min), inclusive: true };
        let high = KeyBound { key: NormalisedKey::from_value(value), inclusive: false };
        let r = self.range_index.scan_keys(key, &low, &high);
        proof {
            let m = self.range_index@;
            let want = below_value(m, key, value@);
            assert forall|x: u32| #[trigger] bitmap_set(r).contains(x) == want.contains(x) by {
                if in_interval(m, key, low, high, x) {
                    let k = choose|k: Seq<u8>| #[trigger]
                        posting(m, (key, k)).contains(x) && low.admits_above(k)
                            && high.admits_below(k);
                    lemma_lex_total(k, low.key.0@);
                    assert(posting(m, (key, k)).contains(x) && key_below(k, value@));
                }
                if want.contains(x) {
                    let k = choose|k: Seq<u8>| #[trigger]
                        posting(m, (key, k)).contains(x) && key_below(k, value@);
                    lemma_lex_total(k, low.key.0@);
                    assert(posting(m, (key, k)).contains(x) && low.admits_above(k)
                        && high.admits_below(k));
                }
            }
            assert(bitmap_set(r) =~= want);
        }
        r
    }

    fn eval_from(&self, key: TagId, value: &Value) -> (r: roaring::RoaringBitmap)
        requires
            self.wf(),
        ensures
            bitmap_set(r) == from_value_on(self.range_index@, key, value@),
    {
        let low = KeyBound { key: NormalisedKey::from_value(value), inclusive: true };
        let high = KeyBound { key: type_max_key(value), inclusive: true };
        let r = self.range_index.scan_keys(key, &low, &high);
        proof {
            let m = self.range_index@;
            let want = from_value_on(m, key, value@);
            assert forall|x: u32| #[trigger] bitmap_set(r).contains(x) == want.contains(x) by {
                if in_interval(m, key, low, high, x) {
                    let k = choose|k: Seq<u8>| #[trigger]
                        posting(m, (key, k)).contains(x) && low.admits_above(k)
                            && high.admits_below(k);
                    lemma_lex_total(k, low.key.0@);
                    lemma_lex_total(k, high.key.0@);
                    assert(posting(m, (key, k)).contains(x) && key_from(k, value@));
                }
                if want.contains(x) {
                    let k = choose|k: Seq<u8>| #[trigger]
                        posting(m, (key, k)).contains(x) && key_from(k, value@);
                    lemma_lex_total(k, low.key.0@);
                    lemma_lex_total(k, high.key.0@);
                    assert(posting(m, (key, k)).contains(x) && low.admits_above(k)
                        && high.admits_below(k));
                }
            }
            assert(bitmap_set(r) =~= want);
        }
        r
    }

    /// Look through everything that is asserted.
    fn scan_forward(&self, wanted: &Wanted) -> (r: roaring::RoaringBitmap)
        requires
            self.wf(),
        ensures
            bitmap_set(r) == scanned(self.forward_index@, wanted.model()),
    {
        let all = self.forward_index.iter();
        let ghost items = self.forward_index.items();
        let ghost m = self.forward_index@;
        let ghost s = wanted.model();
        let mut acc = bitmap_new();
        let mut i: usize = 0;
        proof {
            self.forward_index.lemma_items();
        }
        while i < all.len()
            invariant
                i <= all@.len(),
                self.wf(),
                items == self.forward_index.items(),
                m == self.forward_index@,
                s == wanted.model(),
                all@.len() == items.len(),
                forall|j: int|
                    0 <= j < all@.len() ==> (#[trigger] all@[j]).0.raw == items[j].0 && *all@[j].1
                        == items[j].1,
                forall|j: int|
                    0 <= j < items.len() ==> m.contains_key((#[trigger] items[j]).0)
                        && m[items[j].0] == list_model(items[j].1@),
                forall|x: u32| #[trigger]
                    bitmap_set(acc).contains(x) == exists|a: int, b: int|
                        0 <= a < i && #[trigger] finds(m, s, items[a].0, b, x),
            decreases all@.len() - i,
        {
            let oid = all[i].0;
            let list = all[i].1;
            proof {
                assert(all@[i as int].0.raw == items[i as int].0);
                assert(m[items[i as int].0] == list_model(list@));
            }
            let mut hit = false;
            let mut j: usize = 0;
            while j < list.len()
                invariant
                    j <= list@.len(),
                    s == wanted.model(),
                    m[oid.raw] == list_model(list@),
                    hit == exists|b: int| 0 <= b < j && #[trigger] fits(s, m[oid.raw][b].0),
                decreases list@.len() - j,
            {
                proof {
                    assert(m[oid.raw][j as int].0 == list@[j as int].0@);
                }
                if wanted.fits(&list[j].0) {
                    hit = true;
                    proof {
                        assert(fits(s, m[oid.raw][j as int].0));
                    }
                }
                j = j + 1;
            }
            let ghost before = bitmap_set(acc);
            let low = oid_low32(oid.to_u64());
            if hit {
                match low {
                    Some(x) => {
                        bitmap_insert(&mut acc, x);
                    },
                    None => {},
                }
            }
            proof {
                assert forall|x: u32| #[trigger] bitmap_set(acc).contains(x) == exists|
                    a: int,
                    b: int,
                |
                    0 <= a < i + 1 && #[trigger] finds(m, s, items[a].0, b, x) by {
                    if before.contains(x) {
                        let (a, b) = choose|a: int, b: int|
                            0 <= a < i && #[trigger] finds(m, s, items[a].0, b, x);
                        assert(finds(m, s, items[a].0, b, x));
                    }
                    if hit && low == Some(x) {
                        let b = choose|b: int|
                            0 <= b < list@.len() && #[trigger] fits(s, m[oid.raw][b].0);
                        assert(finds(m, s, items[i as int].0, b, x));
                    }
                    if exists|a: int, b: int|
                        0 <= a < i + 1 && #[trigger] finds(m, s, items[a].0, b, x) {
                        let (a, b) = choose|a: int, b: int|
                            0 <= a < i + 1 && #[trigger] finds(m, s, items[a].0, b, x);
                        if a == i {
                            assert(fits(s, m[oid.raw][b].0));
                        } else {
                            assert(finds(m, s, items[a].0, b, x));
                            assert(before.contains(x));
                        }
                    }
                }
            }
            i = i + 1;
        }
        proof {
            let want = scanned(m, s);
            assert forall|x: u32| #[trigger] bitmap_set(acc).contains(x) == want.contains(x) by {
                if want.contains(x) {
                    let (oid, b) = choose|oid: u64, b: int| #[trigger] finds(m, s, oid, b, x);
                    let a = choose|a: int| 0 <= a < items.len() && (#[trigger] items[a]).0 == oid;
                    assert(finds(m, s, items[a].0, b, x));
                }
            }
            assert(bitmap_set(acc) =~= want);
        }
        acc
    }

    fn eval_isa(&self, tag: TagId) -> (r: roaring::RoaringBitmap)
        requires
            self.wf(),
        ensures
            bitmap_set(r) == is_a_members(self.tag_index@, self.ontology@.dag, tag),
    {
        let tags = self.tag_index.all_tags();
        let ghost m = self.tag_index@;
        let ghost dag = self.ontology@.dag;
        let mut acc = bitmap_new();
        let mut i: usize = 0;
        while i < tags.len()
            invariant
                i <= tags@.len(),
                self.wf(),
                m == self.tag_index@,
                dag == self.ontology@.dag,
                forall|t: TagId| #[trigger] tags@.contains(t) == m.contains_key(t),
                forall|x: u32| #[trigger]
                    bitmap_set(acc).contains(x) == exists|a: int|
                        0 <= a < i && #[trigger] leads(m, dag, tags@[a], tag, x),
            decreases tags@.len() - i,
        {
            let own = tags[i];
            let ghost before = bitmap_set(acc);
            let mut direct: Vec<TagId> = Vec::new();
            direct.push(own);
            let closure = self.ontology.materialise(&direct);
            let hit = crate::types::tag::has_tag(&closure, tag);
            proof {
                assert(tags@.contains(own));
                assert(direct@ =~= seq![own]);
                assert(closure@.to_set().contains(tag) == closure@.contains(tag));
            }
            if hit {
                match self.tag_index.get(own) {
                    Some(store) => {
                        bitmap_or(&mut acc, store.members());
                    },
                    None => {},
                }
            }
            proof {
                assert forall|x: u32| #[trigger] bitmap_set(acc).contains(x) == exists|a: int|
                    0 <= a < i + 1 && #[trigger] leads(m, dag, tags@[a], tag, x) by {
                    let now = leads(m, dag, tags@[i as int], tag, x);
                    assert(bitmap_set(acc).contains(x) == (before.contains(x) || now));
                    if before.contains(x) {
                        let a = choose|a: int|
                            0 <= a < i && #[trigger] leads(m, dag, tags@[a], tag, x);
                        assert(leads(m, dag, tags@[a], tag, x));
                    }
                }
            }
            i = i + 1;
        }
        proof {
            let want = is_a_members(m, dag, tag);
            assert forall|x: u32| #[trigger] bitmap_set(acc).contains(x) == want.contains(x) by {
                if bitmap_set(acc).contains(x) {
                    let a = choose|a: int| 0 <= a < i && #[trigger] leads(m, dag, tags@[a], tag, x);
                    assert(m.contains_key(tags@[a]));
                }
                if want.contains(x) {
                    let t = choose|t: TagId| #[trigger]
                        m.contains_key(t) && closure_set(dag, seq![t]).contains(tag)
                            && m[t].members().contains(x);
                    assert(tags@.contains(t));
                    let a = choose|a: int| 0 <= a < tags@.len() && tags@[a] == t;
                    assert(leads(m, dag, tags@[a], tag, x));
                }
            }
            assert(bitmap_set(acc) =~= want);
        }
        acc
    }

    /// The results of some queries, in order.
    fn eval_all(&self, qs: &Vec<Query>) -> (r: Result<Vec<roaring::RoaringBitmap>, QueryError>)
        requires
            self.wf(),
        ensures
            match evaluated_list(
                self.indexes(),
                query_models(*qs, qs@.len() as int),
                qs@.len() as int,
            ) {
                Ok(sets) => r is Ok && sets_of(r->Ok_0@) == sets,
                Err(f) => r is Err && r->Err_0@ == f,
            },
        decreases qs, 0int,
    {
        let ghost ix = self.indexes();
        let ghost v = query_models(*qs, qs@.len() as int);
        let mut out: Vec<roaring::RoaringBitmap> = Vec::new();
        let mut i: usize = 0;
        proof {
            lemma_query_models(*qs, qs@.len() as int);
            assert(sets_of(out@) =~= Seq::empty());
        }
        while i < qs.len()
            invariant
                i <= qs@.len(),
                self.wf(),
                ix == self.indexes(),
                v == query_models(*qs, qs@.len() as int),
                v.len() == qs@.len(),
                forall|j: int| 0 <= j < v.len() ==> #[trigger] v[j] == query_model(qs@[j]),
                evaluated_list(ix, v, i as int) == Ok::<Seq<Set<u32>>, QueryFault>(
                    sets_of(out@),
                ),
            decreases qs@.len() - i,
        {
            let ghost before = sets_of(out@);
            proof {
                assert(v[i as int] == query_model(qs@[i as int]));
            }
            match self.evaluate(&qs[i]) {
                Ok(b) => {
                    out.push(b);
                    proof {
                        assert(sets_of(out@) =~= before.push(bitmap_set(b)));
                    }
                },
                Err(e) => {
                    proof {
                        lemma_list_fault(ix, v, i + 1, v.len() as int);
                    }
                    return Err(e);
                },
            }
            i = i + 1;
        }
        Ok(out)
    }

    /// The objects that all of the queries mean; the smallest result first.
    fn eval_and(&self, qs: &Vec<Query>) -> (r: Result<roaring::RoaringBitmap, QueryError>)
        requires
            self.wf(),
        ensures
            match evaluated(
                self.indexes(),
                QueryModel::And(query_models(*qs, qs@.len() as int)),
            ) {
                Ok(set) => r is Ok && bitmap_set(r->Ok_0) == set,
                Err(f) => r is Err && r->Err_0@ == f,
            },
        decreases qs, 1int,
    {
        proof {
            lemma_query_models(*qs, qs@.len() as int);
            lemma_list_len(
                self.indexes(),
                query_models(*qs, qs@.len() as int),
                qs@.len() as int,
            );
        }
        if qs.len() == 0 {
            return Ok(bitmap_new());
        }
        let bitmaps = match self.eval_all(qs) {
            Ok(b) => b,
            Err(e) => {
                return Err(e);
            },
        };
        let ghost sets = sets_of(bitmaps@);
        let mut first: usize = 0;
        let mut i: usize = 1;
        while i < bitmaps.len()
            invariant
                bitmaps@.len() > 0,
                i <= bitmaps@.len(),
                first < bitmaps@.len(),
            decreases bitmaps@.len() - i,
        {
            if bitmap_len(&bitmaps[i]) < bitmap_len(&bitmaps[first]) {
                first = i;
            }
            i = i + 1;
        }
        let mut acc = bitmap_clone(&bitmaps[first]);
        let mut j: usize = 0;
        while j < bitmaps.len() && !bitmap_is_empty(&acc)
            invariant
                j <= bitmaps@.len(),
                first < bitmaps@.len(),
                sets == sets_of(bitmaps@),
                forall|x: u32| #[trigger]
                    bitmap_set(acc).contains(x) == (sets[first as int].contains(x) && forall|a: int|
                        0 <= a < j ==> (#[trigger] sets[a]).contains(x)),
            decreases bitmaps@.len() - j,
        {
            let ghost before = bitmap_set(acc);
            bitmap_and(&mut acc, &bitmaps[j]);
            proof {
                assert(sets[j as int] == bitmap_set(bitmaps@[j as int]));
                assert forall|x: u32| #[trigger] bitmap_set(acc).contains(x) == (
                sets[first as int].contains(x) && forall|a: int|
                    0 <= a < j + 1 ==> (#[trigger] sets[a]).contains(x)) by {
                    assert(bitmap_set(acc).contains(x) == (before.contains(x)
                        && sets[j as int].contains(x)));
                }
            }
            j = j + 1;
        }
        proof {
            let want = in_all(sets);
            assert forall|x: u32| #[trigger] bitmap_set(acc).contains(x) == want.contains(x) by {
                if want.contains(x) {
                    assert(sets[first as int].contains(x));
                    assert(bitmap_set(acc).contains(x));
                }
            }
            assert(bitmap_set(acc) =~= want);
        }
        Ok(acc)
    }

    /// The objects that some of the queries mean.
    fn eval_or(&self, qs: &Vec<Query>) -> (r: Result<roaring::RoaringBitmap, QueryError>)
        requires
            self.wf(),
        ensures
            match evaluated(self.indexes(), QueryModel::Or(query_models(*qs, qs@.len() as int))) {
                Ok(set) => r is Ok && bitmap_set(r->Ok_0) == set,
                Err(f) => r is Err && r->Err_0@ == f,
            },
        decreases qs, 1int,
    {
        proof {
            lemma_query_models(*qs, qs@.len() as int);
        }
        let bitmaps = match self.eval_all(qs) {
            Ok(b) => b,
            Err(e) => {
                return Err(e);
            },
        };
        let ghost sets = sets_of(bitmaps@);
        let mut acc = bitmap_new();
        let mut j: usize = 0;
        while j < bitmaps.len()
            invariant
                j <= bitmaps@.len(),
                sets == sets_of(bitmaps@),
                forall|x: u32| #[trigger]
                    bitmap_set(acc).contains(x) == exists|a: int|
                        0 <= a < j && (#[trigger] sets[a]).contains(x),
            decreases bitmaps@.len() - j,
        {
            let ghost before = bitmap_set(acc);
            bitmap_or(&mut acc, &bitmaps[j]);
            proof {
                assert(sets[j as int] == bitmap_set(bitmaps@[j as int]));
                assert forall|x: u32| #[trigger] bitmap_set(acc).contains(x) == exists|a: int|
                    0 <= a < j + 1 && (#[trigger] sets[a]).contains(x) by {
                    assert(bitmap_set(acc).contains(x) == (before.contains(x)
                        || sets[j as int].contains(x)));
                    if before.contains(x) {
                        let a = choose|a: int| 0 <= a < j && (#[trigger] sets[a]).contains(x);
                        assert(sets[a].contains(x));
                    }
                }
            }
            j = j + 1;
        }
        proof {
            assert(bitmap_set(acc) =~= in_any(sets));
        }
        Ok(acc)
    }

    /// All objects that have a tag.
    fn universe(&self) -> (r: roaring::RoaringBitmap)
        requires
            self.wf(),
        ensures
            bitmap_set(r) == universe_of(self.tag_index@),
    {
        let tags = self.tag_index.all_tags();
        let r = self.tag_index.union(tags.as_slice());
        proof {
            let m = self.tag_index@;
            let want = universe_of(m);
            assert forall|x: u32| #[trigger] bitmap_set(r).contains(x) == want.contains(x) by {
                if bitmap_set(r).contains(x) {
                    let i = choose|i: int|
                        0 <= i < tags@.len() && tag_members(m, #[trigger] tags@[i]).contains(x);
                    assert(tags@.contains(tags@[i]));
                    assert(m.contains_key(tags@[i]));
                }
                if want.contains(x) {
                    let t = choose|t: TagId| #[trigger]
                        m.contains_key(t) && m[t].members().contains(x);
                    assert(tags@.contains(t));
                    let i = choose|i: int| 0 <= i < tags@.len() && tags@[i] == t;
                    assert(tag_members(m, tags@[i]).contains(x));
                }
            }
            assert(bitmap_set(r) =~= want);
        }
        r
    }
}

/// The tag `own` makes `x` an instance of `tag`.
spec fn leads(m: Map<TagId, StoreModel>, dag: DagModel, own: TagId, tag: TagId, x: u32) -> bool {
    m.contains_key(own) && closure_set(dag, seq![own]).contains(tag) && m[own].members().contains(x)
}

proof fn lemma_list_fault(ix: Indexes, v: Seq<QueryModel>, k: int, n: int)
    requires
        0 <= k <= n <= v.len(),
        evaluated_list(ix, v, k) is Err,
    ensures
        evaluated_list(ix, v, n) == evaluated_list(ix, v, k),
    decreases n - k,
{
    if k < n {
        lemma_list_fault(ix, v, k, n - 1);
    }
}

proof fn lemma_list_len(ix: Indexes, v: Seq<QueryModel>, k: int)
    requires
        0 <= k <= v.len(),
    ensures
        evaluated_list(ix, v, k) is Ok ==> evaluated_list(ix, v, k)->Ok_0.len() == k,
    decreases k,
{
    if k > 0 {
        lemma_list_len(ix, v, k - 1);
    }
}

} // verus!
