//! An ordered map kept as a sorted vector of entries.

use vstd::prelude::*;
use vstd::utf8::encode_utf8;
use crate::bytes::{bytes_before, lemma_lex_total, lemma_lex_transitive, lex_less};

verus! {

/// A type whose values can be keys: each stands for a model value, and the
/// model values are totally ordered.
pub trait Key: Sized {
    type Model;

    spec fn model(&self) -> Self::Model;

    spec fn precedes(a: Self::Model, b: Self::Model) -> bool;

    /// `precedes` is a strict total order.
    proof fn precedes_is_order(a: Self::Model, b: Self::Model, c: Self::Model)
        ensures
            !Self::precedes(a, a),
            Self::precedes(a, b) && Self::precedes(b, c) ==> Self::precedes(a, c),
            a != b ==> Self::precedes(a, b) || Self::precedes(b, a),
    ;

    fn is_before(&self, other: &Self) -> (r: bool)
        ensures
            r == Self::precedes(self.model(), other.model()),
    ;

    fn copy_key(&self) -> (r: Self)
        ensures
            r.model() == self.model(),
    ;
}

/// A type whose values can be copied, the copy having the same content.
pub trait Duplicate: Sized + View {
    fn copy_value(&self) -> (r: Self)
        ensures
            r@ == self@,
    ;
}

impl Key for u64 {
    type Model = u64;

    open spec fn model(&self) -> u64 {
        *self
    }

    open spec fn precedes(a: u64, b: u64) -> bool {
        a < b
    }

    proof fn precedes_is_order(a: u64, b: u64, c: u64) {
    }

    fn is_before(&self, other: &u64) -> (r: bool) {
        *self < *other
    }

    fn copy_key(&self) -> (r: u64) {
        *self
    }
}

impl Key for u16 {
    type Model = u16;

    open spec fn model(&self) -> u16 {
        *self
    }

    open spec fn precedes(a: u16, b: u16) -> bool {
        a < b
    }

    proof fn precedes_is_order(a: u16, b: u16, c: u16) {
    }

    fn is_before(&self, other: &u16) -> (r: bool) {
        *self < *other
    }

    fn copy_key(&self) -> (r: u16) {
        *self
    }
}

impl Key for String {
    type Model = Seq<char>;

    open spec fn model(&self) -> Seq<char> {
        self@
    }

    open spec fn precedes(a: Seq<char>, b: Seq<char>) -> bool {
        lex_less(encode_utf8(a), encode_utf8(b))
    }

    proof fn precedes_is_order(a: Seq<char>, b: Seq<char>, c: Seq<char>) {
        broadcast use vstd::utf8::encode_utf8_decode_utf8;

        lemma_lex_total(encode_utf8(a), encode_utf8(a));
        lemma_lex_total(encode_utf8(a), encode_utf8(b));
        if Self::precedes(a, b) && Self::precedes(b, c) {
            lemma_lex_transitive(encode_utf8(a), encode_utf8(b), encode_utf8(c));
        }
        if a != b && encode_utf8(a) == encode_utf8(b) {
            assert(vstd::utf8::decode_utf8(encode_utf8(a)) == a);
            assert(vstd::utf8::decode_utf8(encode_utf8(b)) == b);
        }
    }

    fn is_before(&self, other: &String) -> (r: bool) {
        bytes_before(self.as_str().as_bytes(), other.as_str().as_bytes())
    }

    fn copy_key(&self) -> (r: String) {
        self.clone()
    }
}

/// A map from keys to values, its entries in ascending key order.
#[derive(Clone, Debug)]
pub struct OrdMap<K: Key, V> {
    entries: Vec<(K, V)>,
}

impl<K: Key, V> OrdMap<K, V> {
    /// The entries in ascending key order.
    pub closed spec fn items(&self) -> Seq<(K::Model, V)> {
        Seq::new(self.entries@.len(), |i: int| (self.entries@[i].0.model(), self.entries@[i].1))
    }

    /// No key occurs twice, and the entries are sorted.
    pub open spec fn wf(&self) -> bool {
        sorted::<K, V>(self.items())
    }

    /// The map that this value stands for.
    pub open spec fn view(&self) -> Map<K::Model, V> {
        to_map(self.items())
    }

    /// The empty map.
    pub fn new() -> (r: Self)
        ensures
            r.wf(),
            r@ == Map::<K::Model, V>::empty(),
            r.items() == Seq::<(K::Model, V)>::empty(),
    {
        let r = OrdMap { entries: Vec::new() };
        proof {
            assert(r.items() =~= Seq::<(K::Model, V)>::empty());
            assert(r@ =~= Map::<K::Model, V>::empty());
        }
        r
    }

    /// Number of entries.
    pub fn len(&self) -> (r: usize)
        requires
            self.wf(),
        ensures
            r == self.items().len(),
            r == self@.len(),
            self@.dom().finite(),
    {
        proof {
            lemma_items_map::<K, V>(self.items());
        }
        self.entries.len()
    }

    /// Whether the map has no entry.
    pub fn is_empty(&self) -> (r: bool)
        requires
            self.wf(),
        ensures
            r == (self@ == Map::<K::Model, V>::empty()),
            r == (self.items().len() == 0),
    {
        proof {
            if self.items().len() == 0 {
                assert(self@ =~= Map::<K::Model, V>::empty());
            } else {
                lemma_items_map::<K, V>(self.items());
                assert(self@.contains_key(self.items()[0].0));
            }
        }
        self.entries.len() == 0
    }

    /// The key of the entry at position `i`.
    pub fn key_at(&self, i: usize) -> (r: &K)
        requires
            i < self.items().len(),
        ensures
            r.model() == self.items()[i as int].0,
    {
        &self.entries[i].0
    }

    /// The value of the entry at position `i`.
    pub fn value_at(&self, i: usize) -> (r: &V)
        requires
            i < self.items().len(),
        ensures
            *r == self.items()[i as int].1,
    {
        &self.entries[i].1
    }

    /// Where `key` stands, or where it would have to be inserted.
    fn position(&self, key: &K) -> (r: (bool, usize))
        requires
            self.wf(),
        ensures
            r.1 <= self.items().len(),
            r.0 ==> r.1 < self.items().len() && self.items()[r.1 as int].0 == key.model(),
            !r.0 ==> !self@.contains_key(key.model()),
            forall|j: int|
                0 <= j < r.1 ==> K::precedes(#[trigger] self.items()[j].0, key.model()),
            !r.0 ==> forall|j: int|
                r.1 <= j < self.items().len() ==> K::precedes(
                    key.model(),
                    #[trigger] self.items()[j].0,
                ),
    {
        let ghost s = self.items();
        let mut lo: usize = 0;
        let mut hi: usize = self.entries.len();
        while lo < hi
            invariant
                s == self.items(),
                self.wf(),
                lo <= hi <= s.len(),
                s.len() == self.entries@.len(),
                forall|j: int| 0 <= j < lo ==> K::precedes(#[trigger] s[j].0, key.model()),
                forall|j: int| hi <= j < s.len() ==> K::precedes(key.model(), #[trigger] s[j].0),
            decreases hi - lo,
        {
            let mid: usize = lo + (hi - lo) / 2;
            proof {
                assert(s[mid as int].0 == self.entries@[mid as int].0.model());
            }
            if self.entries[mid].0.is_before(key) {
                proof {
                    assert forall|j: int| 0 <= j < mid + 1 implies K::precedes(
                        #[trigger] s[j].0,
                        key.model(),
                    ) by {
                        K::precedes_is_order(s[j].0, s[mid as int].0, key.model());
                    }
                }
                lo = mid + 1;
            } else if key.is_before(&self.entries[mid].0) {
                proof {
                    assert forall|j: int| mid <= j < s.len() implies K::precedes(
                        key.model(),
                        #[trigger] s[j].0,
                    ) by {
                        K::precedes_is_order(key.model(), s[mid as int].0, s[j].0);
                    }
                }
                hi = mid;
            } else {
                proof {
                    K::precedes_is_order(s[mid as int].0, key.model(), key.model());
                    assert(s[mid as int].0 == key.model());
                }
                return (true, mid);
            }
        }
        proof {
            if self@.contains_key(key.model()) {
                let i = choose|i: int| 0 <= i < s.len() && #[trigger] s[i].0 == key.model();
                K::precedes_is_order(key.model(), key.model(), key.model());
            }
        }
        (false, lo)
    }

    /// Whether `key` has a value.
    pub fn contains_key(&self, key: &K) -> (r: bool)
        requires
            self.wf(),
        ensures
            r == self@.contains_key(key.model()),
    {
        let (found, at) = self.position(key);
        proof {
            if found {
                lemma_items_map::<K, V>(self.items());
            }
        }
        found
    }

    /// The value of `key`, if it has one.
    pub fn get(&self, key: &K) -> (r: Option<&V>)
        requires
            self.wf(),
        ensures
            match r {
                Some(v) => self@.contains_key(key.model()) && *v == self@[key.model()],
                None => !self@.contains_key(key.model()),
            },
    {
        let (found, at) = self.position(key);
        if found {
            proof {
                lemma_items_map::<K, V>(self.items());
            }
            Some(&self.entries[at].1)
        } else {
            None
        }
    }

    /// The value of `key` to write to, if it has one.
    pub fn get_mut(&mut self, key: &K) -> (r: Option<&mut V>)
        requires
            old(self).wf(),
        ensures
            final(self).wf(),
            match r {
                Some(v) => {
                    &&& old(self)@.contains_key(key.model())
                    &&& *v == old(self)@[key.model()]
                    &&& final(self)@ == old(self)@.insert(key.model(), *final(v))
                },
                None => {
                    &&& !old(self)@.contains_key(key.model())
                    &&& *final(self) == *old(self)
                },
            },
    {
        let (found, at) = self.position(key);
        if found {
            let ghost s = self.items();
            proof {
                lemma_items_map::<K, V>(s);
                lemma_update::<K, V>(s, at as int);
            }
            let v = &mut self.entries[at].1;
            proof {
                assert(after_borrow(self).items() =~= s.update(at as int, (s[at as int].0, *final(v))));
            }
            Some(v)
        } else {
            None
        }
    }

    /// Give `key` the value `value`, and return the value it had.
    pub fn insert(&mut self, key: K, value: V) -> (r: Option<V>)
        requires
            old(self).wf(),
        ensures
            final(self).wf(),
            final(self)@ == old(self)@.insert(key.model(), value),
            match r {
                Some(v) => old(self)@.contains_key(key.model()) && v == old(self)@[key.model()],
                None => !old(self)@.contains_key(key.model()),
            },
    {
        let (found, at) = self.position(&key);
        let ghost s = self.items();
        let ghost k = key.model();
        proof {
            lemma_items_map::<K, V>(s);
        }
        if found {
            proof {
                lemma_update::<K, V>(s, at as int);
            }
            let prev = self.entries.remove(at);
            self.entries.insert(at, (key, value));
            proof {
                assert(self.items() =~= s.update(at as int, (k, value)));
            }
            Some(prev.1)
        } else {
            self.entries.insert(at, (key, value));
            proof {
                assert(self.items() =~= s.insert(at as int, (k, value)));
                lemma_insert::<K, V>(s, at as int, k, value);
            }
            None
        }
    }

    /// Take `key` out, and return the value it had.
    pub fn remove(&mut self, key: &K) -> (r: Option<V>)
        requires
            old(self).wf(),
        ensures
            final(self).wf(),
            final(self)@ == old(self)@.remove(key.model()),
            match r {
                Some(v) => old(self)@.contains_key(key.model()) && v == old(self)@[key.model()],
                None => !old(self)@.contains_key(key.model()) && *final(self) == *old(self),
            },
    {
        let (found, at) = self.position(key);
        let ghost s = self.items();
        proof {
            lemma_items_map::<K, V>(s);
        }
        if found {
            let prev = self.entries.remove(at);
            proof {
                assert(self.items() =~= s.remove(at as int));
                lemma_remove::<K, V>(s, at as int);
            }
            Some(prev.1)
        } else {
            proof {
                assert(self@ =~= self@.remove(key.model()));
            }
            None
        }
    }
}

impl<K: Key, V: Duplicate> OrdMap<K, V> {
    /// A copy of the map.
    pub fn duplicate(&self) -> (r: Self)
        requires
            self.wf(),
        ensures
            r.wf(),
            r@.dom() == self@.dom(),
            forall|k: K::Model| #[trigger] self@.contains_key(k) ==> r@[k]@ == self@[k]@,
    {
        let mut entries: Vec<(K, V)> = Vec::new();
        let mut i: usize = 0;
        while i < self.entries.len()
            invariant
                i <= self.entries@.len(),
                entries@.len() == i,
                forall|j: int|
                    0 <= j < i ==> (#[trigger] entries@[j]).0.model() == self.entries@[j].0.model()
                        && entries@[j].1@ == self.entries@[j].1@,
            decreases self.entries@.len() - i,
        {
            entries.push((self.entries[i].0.copy_key(), self.entries[i].1.copy_value()));
            i = i + 1;
        }
        let r = OrdMap { entries };
        proof {
            let s = self.items();
            let t = r.items();
            assert forall|j: int| 0 <= j < s.len() implies (#[trigger] t[j]).0 == s[j].0 && t[j].1@
                == s[j].1@ by {
                assert(r.entries@[j].0.model() == self.entries@[j].0.model());
            }
            assert(sorted::<K, V>(t)) by {
                assert forall|a: int, b: int| 0 <= a < b < t.len() implies K::precedes(
                    #[trigger] t[a].0,
                    #[trigger] t[b].0,
                ) by {
                    assert(K::precedes(s[a].0, s[b].0));
                }
            }
            lemma_items_map::<K, V>(s);
            lemma_items_map::<K, V>(t);
            assert forall|k: K::Model| self@.contains_key(k) == r@.contains_key(k) by {
                if self@.contains_key(k) {
                    let j = choose|j: int| 0 <= j < s.len() && #[trigger] s[j].0 == k;
                    assert(t[j].0 == k);
                }
                if r@.contains_key(k) {
                    let j = choose|j: int| 0 <= j < t.len() && #[trigger] t[j].0 == k;
                    assert(s[j].0 == k);
                }
            }
            assert(r@.dom() =~= self@.dom());
            assert forall|k: K::Model| #[trigger] self@.contains_key(k) implies r@[k]@ == self@[k]@ by {
                let j = choose|j: int| 0 <= j < s.len() && #[trigger] s[j].0 == k;
                assert(t[j].0 == k);
                assert(r@[t[j].0] == t[j].1);
                assert(self@[s[j].0] == s[j].1);
            }
        }
        r
    }
}

/// The entries ascend strictly.
pub open spec fn sorted<K: Key, V>(s: Seq<(K::Model, V)>) -> bool {
    forall|i: int, j: int|
        0 <= i < j < s.len() ==> K::precedes(#[trigger] s[i].0, #[trigger] s[j].0)
}

/// The map whose entries are `s`.
pub open spec fn to_map<M, V>(s: Seq<(M, V)>) -> Map<M, V> {
    Map::new(
        |m: M| exists|i: int| 0 <= i < s.len() && #[trigger] s[i].0 == m,
        |m: M| s[choose|i: int| 0 <= i < s.len() && #[trigger] s[i].0 == m].1,
    )
}

/// In a sorted list of entries each key stands once, so the map has one
/// entry per position.
pub proof fn lemma_items_map<K: Key, V>(s: Seq<(K::Model, V)>)
    requires
        sorted::<K, V>(s),
    ensures
        forall|i: int|
            0 <= i < s.len() ==> to_map(s).contains_key(#[trigger] s[i].0) && to_map(s)[s[i].0]
                == s[i].1,
        forall|i: int, j: int|
            0 <= i < s.len() && 0 <= j < s.len() && #[trigger] s[i].0 == #[trigger] s[j].0 ==> i == j,
        to_map(s).dom().finite(),
        to_map(s).len() == s.len(),
    decreases s.len(),
{
    assert forall|i: int, j: int|
        0 <= i < s.len() && 0 <= j < s.len() && #[trigger] s[i].0 == #[trigger] s[j].0 implies i
        == j by {
        K::precedes_is_order(s[i].0, s[i].0, s[i].0);
    }
    assert forall|i: int| 0 <= i < s.len() implies to_map(s).contains_key(#[trigger] s[i].0)
        && to_map(s)[s[i].0] == s[i].1 by {
        let k = choose|k: int| 0 <= k < s.len() && #[trigger] s[k].0 == s[i].0;
        assert(k == i);
    }
    if s.len() > 0 {
        let t = s.drop_last();
        let m = s.last().0;
        lemma_items_map::<K, V>(t);
        assert(to_map(s).dom() =~= to_map(t).dom().insert(m)) by {
            assert forall|x: K::Model| to_map(s).dom().contains(x) implies to_map(t).dom().insert(
                m,
            ).contains(x) by {
                let i = choose|i: int| 0 <= i < s.len() && #[trigger] s[i].0 == x;
                if i < t.len() {
                    assert(t[i].0 == x);
                }
            }
            assert forall|x: K::Model| to_map(t).dom().insert(m).contains(x) implies to_map(
                s,
            ).dom().contains(x) by {
                if x == m {
                    assert(s[s.len() - 1].0 == m);
                } else {
                    let i = choose|i: int| 0 <= i < t.len() && #[trigger] t[i].0 == x;
                    assert(s[i].0 == x);
                }
            }
        }
        assert(!to_map(t).dom().contains(m)) by {
            if to_map(t).dom().contains(m) {
                let i = choose|i: int| 0 <= i < t.len() && #[trigger] t[i].0 == m;
                assert(s[i].0 == s[s.len() - 1].0);
            }
        }
    } else {
        assert(to_map(s).dom() =~= Set::<K::Model>::empty());
    }
}

proof fn lemma_update<K: Key, V>(s: Seq<(K::Model, V)>, at: int)
    requires
        sorted::<K, V>(s),
        0 <= at < s.len(),
    ensures
        forall|v: V|
            {
                let t = #[trigger] s.update(at, (s[at].0, v));
                sorted::<K, V>(t) && to_map(t) == to_map(s).insert(s[at].0, v)
            },
{
    assert forall|v: V|
        {
            let t = #[trigger] s.update(at, (s[at].0, v));
            sorted::<K, V>(t) && to_map(t) == to_map(s).insert(s[at].0, v)
        } by {
        let t = s.update(at, (s[at].0, v));
        assert(sorted::<K, V>(t)) by {
            assert forall|i: int, j: int| 0 <= i < j < t.len() implies K::precedes(
                #[trigger] t[i].0,
                #[trigger] t[j].0,
            ) by {
                assert(t[i].0 == s[i].0 && t[j].0 == s[j].0);
            }
        }
        lemma_items_map::<K, V>(s);
        lemma_items_map::<K, V>(t);
        assert forall|i: int| 0 <= i < s.len() implies #[trigger] t[i].0 == s[i].0 by {}
        assert(to_map(t) =~= to_map(s).insert(s[at].0, v)) by {
            assert forall|x: K::Model| to_map(t).contains_key(x) <==> to_map(s).insert(
                s[at].0,
                v,
            ).contains_key(x) by {
                if to_map(t).contains_key(x) {
                    let i = choose|i: int| 0 <= i < t.len() && #[trigger] t[i].0 == x;
                    assert(s[i].0 == x);
                }
                if to_map(s).contains_key(x) {
                    let i = choose|i: int| 0 <= i < s.len() && #[trigger] s[i].0 == x;
                    assert(t[i].0 == x);
                }
                if x == s[at].0 {
                    assert(t[at].0 == x);
                }
            }
            assert forall|x: K::Model| to_map(t).contains_key(x) implies to_map(t)[x] == to_map(
                s,
            ).insert(s[at].0, v)[x] by {
                let i = choose|i: int| 0 <= i < t.len() && #[trigger] t[i].0 == x;
                assert(s[i].0 == x);
                assert(t[i].0 == x);
                assert(to_map(t)[t[i].0] == t[i].1);
                assert(to_map(s)[s[i].0] == s[i].1);
            }
        }
    }
}

proof fn lemma_insert<K: Key, V>(s: Seq<(K::Model, V)>, at: int, k: K::Model, v: V)
    requires
        sorted::<K, V>(s),
        0 <= at <= s.len(),
        forall|j: int| 0 <= j < at ==> K::precedes(#[trigger] s[j].0, k),
        forall|j: int| at <= j < s.len() ==> K::precedes(k, #[trigger] s[j].0),
    ensures
        sorted::<K, V>(s.insert(at, (k, v))),
        to_map(s.insert(at, (k, v))) == to_map(s).insert(k, v),
{
    let t = s.insert(at, (k, v));
    assert forall|i: int| 0 <= i < t.len() implies #[trigger] t[i] == (if i < at {
        s[i]
    } else if i == at {
        (k, v)
    } else {
        s[i - 1]
    }) by {}
    assert(sorted::<K, V>(t)) by {
        assert forall|i: int, j: int| 0 <= i < j < t.len() implies K::precedes(
            #[trigger] t[i].0,
            #[trigger] t[j].0,
        ) by {
            if i < at && j < at {
                assert(K::precedes(s[i].0, s[j].0));
            } else if i < at && j > at {
                assert(K::precedes(s[i].0, s[j - 1].0));
            } else if i > at {
                assert(K::precedes(s[i - 1].0, s[j - 1].0));
            } else if i == at {
                assert(K::precedes(k, s[j - 1].0));
            } else {
                assert(K::precedes(s[i].0, k));
            }
        }
    }
    lemma_items_map::<K, V>(s);
    lemma_items_map::<K, V>(t);
    assert(to_map(t) =~= to_map(s).insert(k, v)) by {
        assert forall|x: K::Model| to_map(t).contains_key(x) <==> to_map(s).insert(
            k,
            v,
        ).contains_key(x) by {
            if to_map(t).contains_key(x) {
                let i = choose|i: int| 0 <= i < t.len() && #[trigger] t[i].0 == x;
                if i < at {
                    assert(s[i].0 == x);
                } else if i > at {
                    assert(s[i - 1].0 == x);
                }
            }
            if to_map(s).contains_key(x) {
                let i = choose|i: int| 0 <= i < s.len() && #[trigger] s[i].0 == x;
                if i < at {
                    assert(t[i].0 == x);
                } else {
                    assert(t[i + 1].0 == x);
                }
            }
            if x == k {
                assert(t[at].0 == x);
            }
        }
        assert forall|x: K::Model| to_map(t).contains_key(x) implies to_map(t)[x] == to_map(
            s,
        ).insert(k, v)[x] by {
            let i = choose|i: int| 0 <= i < t.len() && #[trigger] t[i].0 == x;
            assert(to_map(t)[t[i].0] == t[i].1);
            assert(t[at].0 == k);
            if i < at {
                assert(to_map(s)[s[i].0] == s[i].1);
            } else if i > at {
                assert(to_map(s)[s[i - 1].0] == s[i - 1].1);
            }
        }
    }
}

proof fn lemma_remove<K: Key, V>(s: Seq<(K::Model, V)>, at: int)
    requires
        sorted::<K, V>(s),
        0 <= at < s.len(),
    ensures
        sorted::<K, V>(s.remove(at)),
        to_map(s.remove(at)) == to_map(s).remove(s[at].0),
{
    let t = s.remove(at);
    assert forall|i: int| 0 <= i < t.len() implies #[trigger] t[i] == (if i < at {
        s[i]
    } else {
        s[i + 1]
    }) by {}
    assert(sorted::<K, V>(t)) by {
        assert forall|i: int, j: int| 0 <= i < j < t.len() implies K::precedes(
            #[trigger] t[i].0,
            #[trigger] t[j].0,
        ) by {
            let i2 = if i < at { i } else { i + 1 };
            let j2 = if j < at { j } else { j + 1 };
            assert(K::precedes(s[i2].0, s[j2].0));
        }
    }
    lemma_items_map::<K, V>(s);
    lemma_items_map::<K, V>(t);
    assert(to_map(t) =~= to_map(s).remove(s[at].0)) by {
        assert forall|x: K::Model| to_map(t).contains_key(x) <==> to_map(s).remove(
            s[at].0,
        ).contains_key(x) by {
            if to_map(t).contains_key(x) {
                let i = choose|i: int| 0 <= i < t.len() && #[trigger] t[i].0 == x;
                let i2 = if i < at { i } else { i + 1 };
                assert(s[i2].0 == x);
            }
            if to_map(s).contains_key(x) && x != s[at].0 {
                let i = choose|i: int| 0 <= i < s.len() && #[trigger] s[i].0 == x;
                if i < at {
                    assert(t[i].0 == x);
                } else {
                    assert(t[i - 1].0 == x);
                }
            }
        }
        assert forall|x: K::Model| to_map(t).contains_key(x) implies to_map(t)[x] == to_map(
            s,
        ).remove(s[at].0)[x] by {
            let i = choose|i: int| 0 <= i < t.len() && #[trigger] t[i].0 == x;
            assert(to_map(t)[t[i].0] == t[i].1);
            let i2 = if i < at { i } else { i + 1 };
            assert(to_map(s)[s[i2].0] == s[i2].1);
        }
    }
}

} // verus!
