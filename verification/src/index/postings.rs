//! Posting lists: a bitmap of objects for each key.

use vstd::prelude::*;
use crate::index::bitmap::{bitmap_bytes, bitmap_clone, bitmap_decoded, bitmap_from_bytes, bitmap_insert,
    bitmap_is_empty, bitmap_new, bitmap_remove, bitmap_set, bitmap_to_bytes};
use crate::index::error::IndexError;
use crate::ordmap::{lemma_items_map, Key, OrdMap};

verus! {

/// The objects of a key; none where there is no list for it.
pub open spec fn posting<M>(m: Map<M, Set<u32>>, k: M) -> Set<u32> {
    if m.contains_key(k) {
        m[k]
    } else {
        Set::empty()
    }
}

/// The lists after an object left that of a key. An empty list goes, too.
pub open spec fn posting_removed<M>(m: Map<M, Set<u32>>, k: M, x: u32) -> Map<M, Set<u32>> {
    if !m.contains_key(k) {
        m
    } else if m[k].remove(x) == Set::<u32>::empty() {
        m.remove(k)
    } else {
        m.insert(k, m[k].remove(x))
    }
}

/// The lists that the first `k` serialised entries make up, if all of their
/// bytes are those of bitmaps. Of two entries for a key the later counts.
pub open spec fn decoded_postings<M>(s: Seq<(M, Seq<u8>)>, k: int) -> Option<Map<M, Set<u32>>>
    decreases k,
{
    if k <= 0 {
        Some(Map::empty())
    } else {
        match decoded_postings(s, k - 1) {
            None => None,
            Some(m) => match bitmap_decoded(s[k - 1].1) {
                None => None,
                Some(x) => Some(m.insert(s[k - 1].0, x)),
            },
        }
    }
}

/// The content of a list of serialised entries.
pub open spec fn entry_models<K: Key>(s: Seq<(K, Vec<u8>)>) -> Seq<(K::Model, Seq<u8>)> {
    s.map_values(|e: (K, Vec<u8>)| (e.0.model(), e.1@))
}

/// A bitmap of objects for each key.
#[derive(Clone, Debug)]
pub struct Postings<K: Key> {
    map: OrdMap<K, roaring::RoaringBitmap>,
}

impl<K: Key> Postings<K> {
    pub closed spec fn view(&self) -> Map<K::Model, Set<u32>> {
        self.map@.map_values(|b: roaring::RoaringBitmap| bitmap_set(b))
    }

    pub closed spec fn wf(&self) -> bool {
        self.map.wf()
    }

    /// The keys and lists in ascending order of keys.
    pub closed spec fn items(&self) -> Seq<(K::Model, roaring::RoaringBitmap)> {
        self.map.items()
    }

    /// The entries are those of the map.
    pub proof fn lemma_items(&self)
        requires
            self.wf(),
        ensures
            forall|i: int, j: int|
                0 <= i < j < self.items().len() ==> K::precedes(
                    (#[trigger] self.items()[i]).0,
                    (#[trigger] self.items()[j]).0,
                ),
            forall|i: int|
                0 <= i < self.items().len() ==> self@.contains_key((#[trigger] self.items()[i]).0)
                    && self@[self.items()[i].0] == bitmap_set(self.items()[i].1),
            forall|k: K::Model| #[trigger]
                self@.contains_key(k) ==> exists|i: int|
                    0 <= i < self.items().len() && (#[trigger] self.items()[i]).0 == k,
            self@.len() == self.items().len(),
            self@.dom().finite(),
    {
        let s = self.items();
        lemma_items_map::<K, roaring::RoaringBitmap>(s);
        assert(self@.dom() =~= self.map@.dom());
        assert forall|i: int, j: int| 0 <= i < j < s.len() implies K::precedes(
            (#[trigger] s[i]).0,
            (#[trigger] s[j]).0,
        ) by {
            assert(K::precedes(s[i].0, s[j].0));
        }
        assert forall|i: int| 0 <= i < s.len() implies self@.contains_key((#[trigger] s[i]).0)
            && self@[s[i].0] == bitmap_set(s[i].1) by {
            assert(self.map@.contains_key(s[i].0));
        }
        assert forall|k: K::Model| #[trigger] self@.contains_key(k) implies exists|i: int|
            0 <= i < s.len() && (#[trigger] s[i]).0 == k by {
            assert(self.map@.contains_key(k));
            let i = choose|i: int| 0 <= i < s.len() && #[trigger] s[i].0 == k;
            assert(s[i].0 == k);
        }
    }

    /// No lists.
    pub fn new() -> (r: Self)
        ensures
            r.wf(),
            r@ == Map::<K::Model, Set<u32>>::empty(),
    {
        let r = Postings { map: OrdMap::new() };
        proof {
            assert(r@ =~= Map::<K::Model, Set<u32>>::empty());
        }
        r
    }

    /// Add an object to the list of a key.
    pub fn insert(&mut self, key: K, x: u32)
        requires
            old(self).wf(),
        ensures
            final(self).wf(),
            final(self)@ == old(self)@.insert(
                key.model(),
                posting(old(self)@, key.model()).insert(x),
            ),
    {
        let ghost m = self@;
        let ghost k = key.model();
        let mut list = match self.map.remove(&key) {
            Some(b) => b,
            None => bitmap_new(),
        };
        bitmap_insert(&mut list, x);
        self.map.insert(key, list);
        proof {
            assert(self@ =~= m.insert(k, bitmap_set(list)));
        }
    }

    /// Set the list of a key.
    pub fn set(&mut self, key: K, list: roaring::RoaringBitmap)
        requires
            old(self).wf(),
        ensures
            final(self).wf(),
            final(self)@ == old(self)@.insert(key.model(), bitmap_set(list)),
    {
        let ghost m = self@;
        let ghost k = key.model();
        self.map.insert(key, list);
        proof {
            assert(self@ =~= m.insert(k, bitmap_set(list)));
        }
    }

    /// Take an object out of the list of a key. Whether it was there.
    pub fn remove(&mut self, key: K, x: u32) -> (r: bool)
        requires
            old(self).wf(),
        ensures
            final(self).wf(),
            r == posting(old(self)@, key.model()).contains(x),
            final(self)@ == posting_removed(old(self)@, key.model(), x),
    {
        let ghost m = self@;
        let ghost k = key.model();
        match self.map.remove(&key) {
            Some(b) => {
                let mut list = b;
                let was = bitmap_remove(&mut list, x);
                if bitmap_is_empty(&list) {
                    proof {
                        assert(self@ =~= m.remove(k));
                    }
                } else {
                    self.map.insert(key, list);
                    proof {
                        assert(self@ =~= m.insert(k, bitmap_set(list)));
                    }
                }
                was
            },
            None => false,
        }
    }

    /// The list of a key; empty where there is none.
    pub fn lookup(&self, key: &K) -> (r: roaring::RoaringBitmap)
        requires
            self.wf(),
        ensures
            bitmap_set(r) == posting(self@, key.model()),
    {
        match self.map.get(key) {
            Some(b) => bitmap_clone(b),
            None => bitmap_new(),
        }
    }

    /// Number of keys.
    pub fn len(&self) -> (r: usize)
        requires
            self.wf(),
        ensures
            r == self@.len(),
            r == self.items().len(),
    {
        proof {
            self.lemma_items();
        }
        self.map.len()
    }

    /// The key at position `i`.
    pub fn key_at(&self, i: usize) -> (r: &K)
        requires
            i < self.items().len(),
        ensures
            r.model() == self.items()[i as int].0,
    {
        self.map.key_at(i)
    }

    /// The list at position `i`.
    pub fn list_at(&self, i: usize) -> (r: &roaring::RoaringBitmap)
        requires
            i < self.items().len(),
        ensures
            *r == self.items()[i as int].1,
    {
        self.map.value_at(i)
    }

    /// Every key with its list in serialised form, in ascending order of keys.
    pub fn to_entries(&self) -> (r: Vec<(K, Vec<u8>)>)
        requires
            self.wf(),
        ensures
            serialises(r@, self.items()),
    {
        let total = self.map.len();
        let mut out: Vec<(K, Vec<u8>)> = Vec::new();
        let mut i: usize = 0;
        while i < total
            invariant
                i <= total,
                total == self.items().len(),
                out@.len() == i,
                forall|j: int|
                    0 <= j < i ==> (#[trigger] out@[j]).0.model() == self.items()[j].0
                        && out@[j].1@ == bitmap_bytes(self.items()[j].1) && bitmap_decoded(out@[j].1@)
                        == Some(bitmap_set(self.items()[j].1)),
            decreases total - i,
        {
            out.push((self.map.key_at(i).copy_key(), bitmap_to_bytes(self.map.value_at(i))));
            i = i + 1;
        }
        out
    }

    /// The lists that serialised entries make up.
    pub fn from_entries(entries: &Vec<(K, Vec<u8>)>) -> (r: Result<Self, IndexError>)
        ensures
            match decoded_postings(entry_models(entries@), entries@.len() as int) {
                Some(m) => r is Ok && r->Ok_0.wf() && r->Ok_0@ == m,
                None => r is Err && r->Err_0 is Roaring,
            },
    {
        let mut out: Postings<K> = Postings::new();
        let ghost s = entry_models(entries@);
        let mut i: usize = 0;
        while i < entries.len()
            invariant
                i <= entries@.len(),
                s == entry_models(entries@),
                out.wf(),
                decoded_postings(s, i as int) == Some(out@),
            decreases entries@.len() - i,
        {
            proof {
                assert(s[i as int] == (entries@[i as int].0.model(), entries@[i as int].1@));
            }
            match bitmap_from_bytes(entries[i].1.as_slice()) {
                Ok(b) => {
                    out.set(entries[i].0.copy_key(), b);
                },
                Err(m) => {
                    proof {
                        lemma_decoded_fault(s, i + 1, entries@.len() as int);
                    }
                    return Err(IndexError::Roaring(m));
                },
            }
            i = i + 1;
        }
        Ok(out)
    }
}

/// The serialised entries are those of the lists.
pub open spec fn serialises<K: Key>(
    entries: Seq<(K, Vec<u8>)>,
    items: Seq<(K::Model, roaring::RoaringBitmap)>,
) -> bool {
    &&& entries.len() == items.len()
    &&& forall|j: int|
        0 <= j < entries.len() ==> (#[trigger] entries[j]).0.model() == items[j].0
            && entries[j].1@ == bitmap_bytes(items[j].1) && bitmap_decoded(entries[j].1@) == Some(
            bitmap_set(items[j].1),
        )
}

proof fn lemma_decoded_fault<M>(s: Seq<(M, Seq<u8>)>, k: int, n: int)
    requires
        0 <= k <= n,
        decoded_postings(s, k) is None,
    ensures
        decoded_postings(s, n) is None,
    decreases n - k,
{
    if k < n {
        lemma_decoded_fault(s, k, n - 1);
    }
}

/// Serialised entries make up the lists that they came from.
pub proof fn postings_round_trip<K: Key>(p: &Postings<K>, s: Seq<(K::Model, Seq<u8>)>)
    requires
        p.wf(),
        s.len() == p.items().len(),
        forall|j: int|
            0 <= j < s.len() ==> (#[trigger] s[j]).0 == p.items()[j].0 && bitmap_decoded(s[j].1)
                == Some(bitmap_set(p.items()[j].1)),
    ensures
        decoded_postings(s, s.len() as int) == Some(p@),
{
    p.lemma_items();
    lemma_round_trip(p, s, s.len() as int);
    let m = decoded_postings(s, s.len() as int)->Some_0;
    let items = p.items();
    assert forall|k: K::Model| #[trigger] m.contains_key(k) == p@.contains_key(k) by {
        if p@.contains_key(k) {
            let i = choose|i: int| 0 <= i < items.len() && (#[trigger] items[i]).0 == k;
            assert(m.contains_key(items[i].0));
        }
    }
    assert(m =~= p@);
}

proof fn lemma_round_trip<K: Key>(p: &Postings<K>, s: Seq<(K::Model, Seq<u8>)>, k: int)
    requires
        p.wf(),
        0 <= k <= s.len(),
        s.len() == p.items().len(),
        forall|j: int|
            0 <= j < s.len() ==> (#[trigger] s[j]).0 == p.items()[j].0 && bitmap_decoded(s[j].1)
                == Some(bitmap_set(p.items()[j].1)),
    ensures
        decoded_postings(s, k) is Some,
        forall|i: int|
            0 <= i < k ==> decoded_postings(s, k)->Some_0.contains_key(
                (#[trigger] p.items()[i]).0,
            ) && decoded_postings(s, k)->Some_0[p.items()[i].0] == bitmap_set(p.items()[i].1),
        forall|t: K::Model| #[trigger]
            decoded_postings(s, k)->Some_0.contains_key(t) ==> exists|i: int|
                0 <= i < k && (#[trigger] p.items()[i]).0 == t,
    decreases k,
{
    let items = p.items();
    if k > 0 {
        lemma_round_trip(p, s, k - 1);
        p.lemma_items();
        let m = decoded_postings(s, k - 1)->Some_0;
        let n = decoded_postings(s, k)->Some_0;
        assert(s[k - 1].0 == items[k - 1].0);
        assert(n == m.insert(items[k - 1].0, bitmap_set(items[k - 1].1)));
        assert forall|i: int| 0 <= i < k implies n.contains_key((#[trigger] items[i]).0)
            && n[items[i].0] == bitmap_set(items[i].1) by {
            if i < k - 1 {
                assert(K::precedes(items[i].0, items[k - 1].0));
                K::precedes_is_order(items[i].0, items[i].0, items[i].0);
                assert(items[i].0 != items[k - 1].0);
            }
        }
        assert forall|t: K::Model| #[trigger] n.contains_key(t) implies exists|i: int|
            0 <= i < k && (#[trigger] items[i]).0 == t by {
            if t == items[k - 1].0 {
                assert(items[k - 1].0 == t);
            } else {
                assert(m.contains_key(t));
                let i = choose|i: int| 0 <= i < k - 1 && (#[trigger] items[i]).0 == t;
                assert(items[i].0 == t);
            }
        }
    }
}

/// No list is empty.
pub open spec fn no_empty_list<M>(m: Map<M, Set<u32>>) -> bool {
    forall|k: M| #[trigger] m.contains_key(k) ==> m[k] != Set::<u32>::empty()
}

/// Adding and taking out objects leaves no empty list.
pub proof fn lists_stay_filled<M>(m: Map<M, Set<u32>>, k: M, x: u32)
    requires
        no_empty_list(m),
    ensures
        no_empty_list(m.insert(k, posting(m, k).insert(x))),
        no_empty_list(posting_removed(m, k, x)),
{
    assert(posting(m, k).insert(x).contains(x));
}

} // verus!
