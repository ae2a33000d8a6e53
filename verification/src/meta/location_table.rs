//! The location table in memory.

use vstd::prelude::*;
use crate::meta::location::ObjectLocation;
use crate::ordmap::OrdMap;

verus! {

/// Locations by raw object id.
#[derive(Clone, Debug)]
pub struct LocationTable {
    locations: OrdMap<u64, ObjectLocation>,
}

impl Default for LocationTable {
    fn default() -> (r: Self)
        ensures
            r.wf(),
            r@ == Map::<u64, ObjectLocation>::empty(),
    {
        LocationTable::new()
    }
}

impl LocationTable {
    pub closed spec fn view(&self) -> Map<u64, ObjectLocation> {
        self.locations@
    }

    pub closed spec fn wf(&self) -> bool {
        self.locations.wf()
    }

    /// An empty table.
    pub fn new() -> (r: Self)
        ensures
            r.wf(),
            r@ == Map::<u64, ObjectLocation>::empty(),
    {
        LocationTable { locations: OrdMap::new() }
    }

    /// Number of locations.
    pub fn len(&self) -> (r: usize)
        requires
            self.wf(),
        ensures
            r == self@.len(),
            self@.dom().finite(),
    {
        self.locations.len()
    }

    /// Whether the table is empty.
    pub fn is_empty(&self) -> (r: bool)
        requires
            self.wf(),
        ensures
            r == (self@ == Map::<u64, ObjectLocation>::empty()),
    {
        self.locations.is_empty()
    }

    /// Insert or overwrite the location of `oid`.
    pub fn insert(&mut self, oid: u64, location: ObjectLocation)
        requires
            old(self).wf(),
        ensures
            final(self).wf(),
            final(self)@ == old(self)@.insert(oid, location),
    {
        self.locations.insert(oid, location);
    }

    /// The location of `oid`.
    pub fn get(&self, oid: u64) -> (r: Option<&ObjectLocation>)
        requires
            self.wf(),
        ensures
            match r {
                Some(l) => self@.contains_key(oid) && *l == self@[oid],
                None => !self@.contains_key(oid),
            },
    {
        self.locations.get(&oid)
    }

    /// The location of `oid` to write to.
    pub fn get_mut(&mut self, oid: u64) -> (r: Option<&mut ObjectLocation>)
        requires
            old(self).wf(),
        ensures
            final(self).wf(),
            match r {
                Some(l) => {
                    &&& old(self)@.contains_key(oid)
                    &&& *l == old(self)@[oid]
                    &&& final(self)@ == old(self)@.insert(oid, *final(l))
                },
                None => !old(self)@.contains_key(oid) && final(self)@ == old(self)@,
            },
    {
        self.locations.get_mut(&oid)
    }

    /// Remove the location of `oid`, and return it.
    pub fn remove(&mut self, oid: u64) -> (r: Option<ObjectLocation>)
        requires
            old(self).wf(),
        ensures
            final(self).wf(),
            final(self)@ == old(self)@.remove(oid),
            match r {
                Some(l) => old(self)@.contains_key(oid) && l == old(self)@[oid],
                None => !old(self)@.contains_key(oid),
            },
    {
        self.locations.remove(&oid)
    }

    /// All `(oid, location)` pairs in ascending order of ids.
    pub fn iter(&self) -> (r: Vec<(u64, ObjectLocation)>)
        requires
            self.wf(),
        ensures
            lists_map(r@, self@),
    {
        list_entries(&self.locations)
    }
}

/// `s` lists the entries of `m` in ascending order of keys.
pub open spec fn lists_map<V>(s: Seq<(u64, V)>, m: Map<u64, V>) -> bool {
    &&& forall|i: int, j: int| 0 <= i < j < s.len() ==> (#[trigger] s[i]).0 < (#[trigger] s[j]).0
    &&& forall|i: int| 0 <= i < s.len() ==> m.contains_key((#[trigger] s[i]).0) && m[s[i].0] == s[i].1
    &&& forall|k: u64| #[trigger]
        m.contains_key(k) ==> exists|i: int| 0 <= i < s.len() && (#[trigger] s[i]).0 == k
}

/// The entries of a map with numbers as keys.
pub fn list_entries<V: Copy>(m: &OrdMap<u64, V>) -> (r: Vec<(u64, V)>)
    requires
        m.wf(),
    ensures
        r@ == m.items(),
        lists_map(r@, m@),
{
    let total = m.len();
    let mut out: Vec<(u64, V)> = Vec::new();
    let mut i: usize = 0;
    while i < total
        invariant
            i <= total,
            total == m.items().len(),
            out@ =~= m.items().take(i as int),
        decreases total - i,
    {
        out.push((*m.key_at(i), *m.value_at(i)));
        i = i + 1;
    }
    proof {
        let s = m.items();
        assert(out@ =~= s);
        crate::ordmap::lemma_items_map::<u64, V>(s);
        assert forall|i: int, j: int| 0 <= i < j < s.len() implies (#[trigger] s[i]).0 < (
        #[trigger] s[j]).0 by {
            assert(<u64 as crate::ordmap::Key>::precedes(s[i].0, s[j].0));
        }
        assert forall|i: int| 0 <= i < s.len() implies m@.contains_key((#[trigger] s[i]).0)
            && m@[s[i].0] == s[i].1 by {}
        assert forall|k: u64| #[trigger] m@.contains_key(k) implies exists|i: int|
            0 <= i < s.len() && (#[trigger] s[i]).0 == k by {
            let i = choose|i: int| 0 <= i < s.len() && #[trigger] s[i].0 == k;
            assert(s[i].0 == k);
        }
    }
    out
}

} // verus!
