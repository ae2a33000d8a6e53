//! Facets: how a selection of objects spreads over the tags.

use vstd::prelude::*;
use crate::index::bitmap::{bitmap_and, bitmap_clone, bitmap_len, bitmap_set};
use crate::index::tag_index::TagIndex;
use crate::index::tag_store::StoreModel;
use crate::sorting::{stable_sort, Ranked};
use crate::types::id::TagId;

verus! {

/// How many objects of the selection have the tag.
#[derive(Clone, Copy, Debug, PartialEq, Eq, Structural)]
pub struct FacetCount {
    pub tag: TagId,
    pub count: u64,
}

impl Ranked for FacetCount {
    /// The highest count first, then the lowest tag.
    open spec fn rank(&self) -> int {
        self.tag.id - self.count * 0x1_0000_0000
    }

    fn ranks_before(&self, other: &Self) -> (r: bool) {
        self.count > other.count || (self.count == other.count && self.tag.id < other.tag.id)
    }
}

/// `a` is listed before `b`.
pub open spec fn listed_before(a: FacetCount, b: FacetCount) -> bool {
    a.count > b.count || (a.count == b.count && a.tag.id < b.tag.id)
}

/// How many objects of the selection have the tag.
pub open spec fn facet_size(m: Map<TagId, StoreModel>, selection: Set<u32>, tag: TagId) -> nat {
    selection.intersect(m[tag].members()).len()
}

/// The facets of a selection.
pub struct FacetedExplorer;

impl FacetedExplorer {
    /// Each tag that an object of the selection has, with the number of such
    /// objects: the highest count first, then the lowest tag.
    pub fn facets_for(idx: &TagIndex, selection: &roaring::RoaringBitmap) -> (r: Vec<FacetCount>)
        requires
            idx.wf(),
        ensures
            forall|i: int, j: int|
                0 <= i < j < r@.len() ==> listed_before(#[trigger] r@[i], #[trigger] r@[j]),
            forall|f: FacetCount| #[trigger]
                r@.contains(f) == (idx@.contains_key(f.tag) && f.count > 0 && f.count == facet_size(
                    idx@,
                    bitmap_set(*selection),
                    f.tag,
                )),
    {
        let all = idx.iter();
        let ghost items = idx.items();
        let ghost sel = bitmap_set(*selection);
        let mut out: Vec<FacetCount> = Vec::new();
        let mut i: usize = 0;
        proof {
            idx.lemma_items();
        }
        while i < all.len()
            invariant
                i <= all@.len(),
                idx.wf(),
                items == idx.items(),
                sel == bitmap_set(*selection),
                all@.len() == items.len(),
                forall|j: int|
                    0 <= j < all@.len() ==> (#[trigger] all@[j]).0 == items[j].0 && *all@[j].1
                        == items[j].1,
                forall|a: int, b: int|
                    0 <= a < b < items.len() ==> (#[trigger] items[a]).0.id < (
                    #[trigger] items[b]).0.id,
                forall|f: FacetCount| #[trigger]
                    out@.contains(f) ==> exists|a: int|
                        0 <= a < i && #[trigger] counts_for(items[a], sel, f),
                forall|a: int, f: FacetCount|
                    0 <= a < i && #[trigger] counts_for(items[a], sel, f) ==> out@.contains(f),
                forall|a: int, b: int|
                    0 <= a < b < out@.len() ==> (#[trigger] out@[a]).tag.id < (
                    #[trigger] out@[b]).tag.id,
            decreases all@.len() - i,
        {
            let tag = all[i].0;
            let mut inter = bitmap_clone(selection);
            bitmap_and(&mut inter, all[i].1.members());
            let count = bitmap_len(&inter);
            let ghost before = out@;
            if count != 0 {
                out.push(FacetCount { tag, count });
            }
            proof {
                assert(all@[i as int].0 == items[i as int].0);
                assert forall|f: FacetCount| #[trigger] out@.contains(f) implies exists|a: int|
                    0 <= a < i + 1 && #[trigger] counts_for(items[a], sel, f) by {
                    let k = choose|k: int| 0 <= k < out@.len() && out@[k] == f;
                    if k < before.len() {
                        assert(before[k] == f);
                        assert(before.contains(f));
                        let a = choose|a: int|
                            0 <= a < i && #[trigger] counts_for(items[a], sel, f);
                        assert(counts_for(items[a], sel, f));
                    } else {
                        assert(counts_for(items[i as int], sel, f));
                    }
                }
                assert forall|a: int, f: FacetCount|
                    0 <= a < i + 1 && #[trigger] counts_for(items[a], sel, f) implies out@.contains(
                    f,
                ) by {
                    if a < i {
                        assert(before.contains(f));
                        let k = choose|k: int| 0 <= k < before.len() && before[k] == f;
                        assert(out@[k] == f);
                    } else {
                        assert(out@[before.len() as int] == f);
                    }
                }
                assert forall|a: int, b: int| 0 <= a < b < out@.len() implies (
                #[trigger] out@[a]).tag.id < (#[trigger] out@[b]).tag.id by {
                    if b == before.len() {
                        assert(before[a] == out@[a]);
                        assert(before.contains(out@[a]));
                        let k = choose|k: int|
                            0 <= k < i && #[trigger] counts_for(items[k], sel, out@[a]);
                        assert(items[k].0.id < items[i as int].0.id);
                    }
                }
            }
            i = i + 1;
        }
        let ghost plain = out@;
        let r = stable_sort(out);
        proof {
            lemma_same_content(plain, r@);
            assert forall|f: FacetCount| #[trigger] r@.contains(f) == (idx@.contains_key(f.tag)
                && f.count > 0 && f.count == facet_size(idx@, sel, f.tag)) by {
                if plain.contains(f) {
                    let a = choose|a: int| 0 <= a < i && #[trigger] counts_for(items[a], sel, f);
                    assert(idx@.contains_key(items[a].0));
                }
                if idx@.contains_key(f.tag) && f.count > 0 && f.count == facet_size(
                    idx@,
                    sel,
                    f.tag,
                ) {
                    let a = choose|a: int| 0 <= a < items.len() && (#[trigger] items[a]).0 == f.tag;
                    assert(counts_for(items[a], sel, f));
                }
            }
            assert forall|a: int, b: int| 0 <= a < b < r@.len() implies listed_before(
                #[trigger] r@[a],
                #[trigger] r@[b],
            ) by {
                lemma_rank_order(r@[a], r@[b]);
                if r@[a].tag == r@[b].tag {
                    lemma_distinct_tags(plain, r@, a, b);
                }
            }
        }
        r
    }
}

/// The facet of a tag.
spec fn counts_for(
    item: (TagId, crate::index::tag_store::TagStore),
    selection: Set<u32>,
    f: FacetCount,
) -> bool {
    &&& f.tag == item.0
    &&& f.count > 0
    &&& f.count == selection.intersect(item.1@.members()).len()
}

proof fn lemma_rank_order(a: FacetCount, b: FacetCount)
    requires
        a.rank() <= b.rank(),
    ensures
        listed_before(a, b) || (a.count == b.count && a.tag == b.tag),
{
}

proof fn lemma_same_content(a: Seq<FacetCount>, b: Seq<FacetCount>)
    requires
        a.to_multiset() == b.to_multiset(),
    ensures
        forall|f: FacetCount| #[trigger] b.contains(f) == a.contains(f),
{
    broadcast use vstd::seq_lib::group_to_multiset_ensures;

    assert forall|f: FacetCount| #[trigger] b.contains(f) == a.contains(f) by {
        assert(a.contains(f) == (a.to_multiset().count(f) > 0));
        assert(b.contains(f) == (b.to_multiset().count(f) > 0));
    }
}

/// No tag is listed twice.
proof fn lemma_distinct_tags(a: Seq<FacetCount>, b: Seq<FacetCount>, i: int, j: int)
    requires
        a.to_multiset() == b.to_multiset(),
        forall|i: int, j: int|
            0 <= i < j < a.len() ==> (#[trigger] a[i]).tag.id < (#[trigger] a[j]).tag.id,
        0 <= i < j < b.len(),
    ensures
        b[i].tag != b[j].tag,
{
    broadcast use vstd::seq_lib::group_to_multiset_ensures;

    lemma_same_content(a, b);
    assert(b.contains(b[i]) && b.contains(b[j]));
    let p = choose|p: int| 0 <= p < a.len() && a[p] == b[i];
    let q = choose|q: int| 0 <= q < a.len() && a[q] == b[j];
    if b[i].tag == b[j].tag {
        assert(p == q);
        let f = b[i];
        assert(a.no_duplicates()) by {
            assert forall|x: int, y: int| 0 <= x < a.len() && 0 <= y < a.len() && x != y implies a[x]
                != a[y] by {
                if x < y {
                    assert(a[x].tag.id < a[y].tag.id);
                } else {
                    assert(a[y].tag.id < a[x].tag.id);
                }
            }
        }
        a.lemma_multiset_has_no_duplicates();
        assert(a.to_multiset().count(f) <= 1);
        b.lemma_multiset_has_no_duplicates_conv();
        assert(b.no_duplicates());
    }
}

} // verus!
