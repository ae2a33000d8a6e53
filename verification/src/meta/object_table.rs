//! The object table in memory, and its two forms on disk: a positional leaf,
//! and a run of `(key, bytes)` entries.

use vstd::prelude::*;
use crate::bytes::zeros;
use crate::meta::error::MetaError;
use crate::meta::location_table::{list_entries, lists_map};
use crate::meta::object_leaf::{header_written, is_blank, leaf_device_round_trip, leaf_read,
    well_marked, ObjectLeaf};
use crate::meta::record::{ObjectRecord, OBJECT_RECORD_SIZE};
use crate::ordmap::OrdMap;
use crate::storage::block::BtreeKind;
use crate::storage::device::{overwritten, BlockDevice};
use crate::storage::node::{LoadedNode};

verus! {

/// Size of the region that holds the table.
pub const OBJECT_TABLE_REGION_SIZE: u64 = 262144;

/// Binary logarithm of [`OBJECT_TABLE_REGION_SIZE`].
pub const REGION_SIZE_LOG2: u8 = 18;

/// Number of values of the local part of an object id.
pub const LOCAL_SPAN: u64 = 0x1_0000_0000_0000;

/// Key of an entry: the object, then the snapshot.
#[derive(Clone, Copy, Debug, PartialEq, Eq, PartialOrd, Ord, Hash, Structural)]
pub struct ObjectTableKey {
    pub oid: u64,
    /// `0` is the live state.
    pub snapshot: u32,
}

impl ObjectTableKey {
    /// The key of the live state of `oid`.
    pub fn current(oid: u64) -> (r: Self)
        ensures
            r == (ObjectTableKey { oid, snapshot: 0 }),
    {
        ObjectTableKey { oid, snapshot: 0 }
    }
}

/// Value of an entry: the image of a record.
#[derive(Clone, Debug, PartialEq, Eq)]
pub struct ObjectTableValue(pub Vec<u8>);

impl ObjectTableValue {
    pub fn from_record(record: &ObjectRecord) -> (r: Self)
        ensures
            r.0@ == record.image(),
    {
        ObjectTableValue(record.as_bytes())
    }

    /// The record, as long as the value has the size of one.
    pub fn to_record(&self) -> (r: Result<ObjectRecord, MetaError>)
        ensures
            match r {
                Ok(rec) => self.0@.len() == 128 && rec.image() == self.0@,
                Err(e) => self.0@.len() != 128 && e == (MetaError::BufferTooSmall {
                    needed: 128,
                    got: self.0@.len() as usize,
                }),
            },
    {
        if self.0.len() != OBJECT_RECORD_SIZE {
            return Err(
                MetaError::BufferTooSmall { needed: OBJECT_RECORD_SIZE, got: self.0.len() },
            );
        }
        let rec = ObjectRecord::get(self.0.as_slice(), 0);
        proof {
            assert(self.0@.subrange(0, 128) =~= self.0@);
        }
        Ok(rec)
    }
}

/// The part of an object id that chooses its slot.
pub open spec fn local_of(oid: u64) -> int {
    oid as int % LOCAL_SPAN as int
}

/// The slots of a leaf that holds the table: slot `i` has the record of the
/// largest id whose local part is `i`.
pub open spec fn slots_hold(slots: Seq<Option<ObjectRecord>>, m: Map<u64, ObjectRecord>) -> bool {
    &&& slots.len() == 2044
    &&& forall|i: int|
        0 <= i < 2044 ==> match #[trigger] slots[i] {
            None => forall|k: u64| m.contains_key(k) ==> #[trigger] local_of(k) != i,
            Some(rec) => exists|k: u64| #[trigger] claims(m, k, i) && m[k] == rec,
        }
}

/// `k` is the largest id in the table whose local part is `i`.
pub open spec fn claims(m: Map<u64, ObjectRecord>, k: u64, i: int) -> bool {
    &&& m.contains_key(k)
    &&& local_of(k) == i
    &&& forall|j: u64| m.contains_key(j) && #[trigger] local_of(j) == i ==> j <= k
}

/// Every id in the table has a slot.
pub open spec fn all_fit(m: Map<u64, ObjectRecord>) -> bool {
    forall|k: u64| m.contains_key(k) ==> #[trigger] local_of(k) < 2044
}

/// `k` is the smallest id in the table that no slot can hold.
pub open spec fn first_misfit(m: Map<u64, ObjectRecord>, k: u64) -> bool {
    &&& m.contains_key(k)
    &&& local_of(k) >= 2044
    &&& forall|j: u64| m.contains_key(j) && j < k ==> #[trigger] local_of(j) < 2044
}

/// The records of the first `k` slots by their own ids; a later slot replaces
/// an earlier one.
pub open spec fn records_of(slots: Seq<Option<ObjectRecord>>, k: int) -> Map<u64, ObjectRecord>
    decreases k,
{
    if k <= 0 {
        Map::empty()
    } else {
        match slots[k - 1] {
            Some(r) => records_of(slots, k - 1).insert(r.id, r),
            None => records_of(slots, k - 1),
        }
    }
}

/// What the first `k` entries give: entries of snapshots are passed over, and
/// the first live value of a wrong size is the error.
pub open spec fn entries_read(
    entries: Seq<(ObjectTableKey, ObjectTableValue)>,
    k: int,
) -> Result<Map<u64, Seq<u8>>, MetaError>
    decreases k,
{
    if k <= 0 {
        Ok(Map::empty())
    } else {
        match entries_read(entries, k - 1) {
            Err(e) => Err(e),
            Ok(m) => {
                let (key, value) = entries[k - 1];
                if key.snapshot != 0 {
                    Ok(m)
                } else if value.0@.len() != 128 {
                    Err(
                        MetaError::BufferTooSmall { needed: 128, got: value.0@.len() as usize },
                    )
                } else {
                    Ok(m.insert(key.oid, value.0@))
                }
            },
        }
    }
}

/// Object records by raw object id.
#[derive(Clone, Debug)]
pub struct ObjectTable {
    records: OrdMap<u64, ObjectRecord>,
}

impl Default for ObjectTable {
    fn default() -> (r: Self)
        ensures
            r.wf(),
            r@ == Map::<u64, ObjectRecord>::empty(),
    {
        ObjectTable::new()
    }
}

impl ObjectTable {
    pub closed spec fn view(&self) -> Map<u64, ObjectRecord> {
        self.records@
    }

    pub closed spec fn wf(&self) -> bool {
        self.records.wf()
    }

    /// An empty table.
    pub fn new() -> (r: Self)
        ensures
            r.wf(),
            r@ == Map::<u64, ObjectRecord>::empty(),
    {
        ObjectTable { records: OrdMap::new() }
    }

    /// Number of records.
    pub fn len(&self) -> (r: usize)
        requires
            self.wf(),
        ensures
            r == self@.len(),
            self@.dom().finite(),
    {
        self.records.len()
    }

    /// Whether the table is empty.
    pub fn is_empty(&self) -> (r: bool)
        requires
            self.wf(),
        ensures
            r == (self@ == Map::<u64, ObjectRecord>::empty()),
    {
        self.records.is_empty()
    }

    /// Insert or overwrite a record under its own id.
    pub fn insert(&mut self, record: ObjectRecord)
        requires
            old(self).wf(),
        ensures
            final(self).wf(),
            final(self)@ == old(self)@.insert(record.id, record),
    {
        let id: u64 = record.id;
        self.records.insert(id, record);
    }

    /// The record of `oid`.
    pub fn get(&self, oid: u64) -> (r: Option<&ObjectRecord>)
        requires
            self.wf(),
        ensures
            match r {
                Some(rec) => self@.contains_key(oid) && *rec == self@[oid],
                None => !self@.contains_key(oid),
            },
    {
        self.records.get(&oid)
    }

    /// The record of `oid` to write to.
    pub fn get_mut(&mut self, oid: u64) -> (r: Option<&mut ObjectRecord>)
        requires
            old(self).wf(),
        ensures
            final(self).wf(),
            match r {
                Some(rec) => {
                    &&& old(self)@.contains_key(oid)
                    &&& *rec == old(self)@[oid]
                    &&& final(self)@ == old(self)@.insert(oid, *final(rec))
                },
                None => !old(self)@.contains_key(oid) && final(self)@ == old(self)@,
            },
    {
        self.records.get_mut(&oid)
    }

    /// Remove the record of `oid`, and return it.
    pub fn remove(&mut self, oid: u64) -> (r: Option<ObjectRecord>)
        requires
            old(self).wf(),
        ensures
            final(self).wf(),
            final(self)@ == old(self)@.remove(oid),
            match r {
                Some(rec) => old(self)@.contains_key(oid) && rec == old(self)@[oid],
                None => !old(self)@.contains_key(oid),
            },
    {
        self.records.remove(&oid)
    }

    /// All `(oid, record)` pairs in ascending order of ids.
    pub fn iter(&self) -> (r: Vec<(u64, ObjectRecord)>)
        requires
            self.wf(),
        ensures
            lists_map(r@, self@),
    {
        list_entries(&self.records)
    }

    /// A node with one entry per record, in ascending order of ids.
    pub fn to_loaded_node(&self) -> (r: LoadedNode<ObjectTableKey, ObjectTableValue>)
        requires
            self.wf(),
        ensures
            r.fresh(BtreeKind::ObjectTable, REGION_SIZE_LOG2),
            r.header.sorted_run_count == if self@ == Map::<u64, ObjectRecord>::empty() {
                0u16
            } else {
                1u16
            },
            node_holds(r.entries(), self@),
    {
        let list = list_entries(&self.records);
        let mut entries: Vec<(ObjectTableKey, ObjectTableValue)> = Vec::new();
        let mut i: usize = 0;
        while i < list.len()
            invariant
                i <= list@.len(),
                entries@.len() == i,
                forall|j: int|
                    0 <= j < i ==> (#[trigger] entries@[j]).0 == (ObjectTableKey {
                        oid: list@[j].0,
                        snapshot: 0,
                    }) && entries@[j].1.0@ == list@[j].1.image(),
            decreases list@.len() - i,
        {
            let (oid, rec) = list[i];
            entries.push((ObjectTableKey::current(oid), ObjectTableValue::from_record(&rec)));
            i = i + 1;
        }
        proof {
            let m = self@;
            let s = list@;
            let e = entries@;
            assert forall|a: int, b: int| 0 <= a < b < e.len() implies (#[trigger] e[a]).0.oid < (
            #[trigger] e[b]).0.oid by {
                assert(s[a].0 < s[b].0);
            }
            assert forall|a: int| 0 <= a < e.len() implies (#[trigger] e[a]).0.snapshot == 0
                && m.contains_key(e[a].0.oid) && e[a].1.0@ == m[e[a].0.oid].image() by {
                assert(m.contains_key(s[a].0));
            }
            assert forall|k: u64| #[trigger] m.contains_key(k) implies exists|i: int|
                0 <= i < e.len() && (#[trigger] e[i]).0.oid == k by {
                let i = choose|i: int| 0 <= i < s.len() && (#[trigger] s[i]).0 == k;
                assert(e[i].0.oid == k);
            }
            if m == Map::<u64, ObjectRecord>::empty() {
                if s.len() > 0 {
                    assert(m.contains_key(s[0].0));
                }
            } else if s.len() == 0 {
                assert(m =~= Map::<u64, ObjectRecord>::empty());
            }
        }
        if entries.len() == 0 {
            LoadedNode::new(BtreeKind::ObjectTable, 0, REGION_SIZE_LOG2)
        } else {
            LoadedNode::with_run(BtreeKind::ObjectTable, 0, REGION_SIZE_LOG2, entries)
        }
    }

    /// The table that a node holds.
    pub fn from_loaded_node(node: &LoadedNode<ObjectTableKey, ObjectTableValue>) -> (r: Result<
        Self,
        MetaError,
    >)
        ensures
            match entries_read(node.entries(), node.entries().len() as int) {
                Ok(m) => {
                    &&& r is Ok
                    &&& r->Ok_0.wf()
                    &&& r->Ok_0@.map_values(|rec: ObjectRecord| rec.image()) == m
                },
                Err(e) => r == Err::<Self, MetaError>(e),
            },
    {
        let all = node.merge_iter();
        let ghost es = node.entries();
        let mut records: OrdMap<u64, ObjectRecord> = OrdMap::new();
        let mut i: usize = 0;
        proof {
            assert(records@.map_values(|rec: ObjectRecord| rec.image()) =~= Map::<
                u64,
                Seq<u8>,
            >::empty());
        }
        while i < all.len()
            invariant
                i <= es.len(),
                es == node.entries(),
                all@.len() == es.len(),
                forall|j: int| 0 <= j < all@.len() ==> *(#[trigger] all@[j]) == es[j],
                records.wf(),
                entries_read(es, i as int) == Ok::<Map<u64, Seq<u8>>, MetaError>(
                    records@.map_values(|rec: ObjectRecord| rec.image()),
                ),
            decreases es.len() - i,
        {
            let entry = all[i];
            proof {
                assert(*all@[i as int] == es[i as int]);
            }
            if entry.0.snapshot == 0 {
                match entry.1.to_record() {
                    Ok(rec) => {
                        let ghost before = records@;
                        records.insert(entry.0.oid, rec);
                        proof {
                            assert(records@.map_values(|rec: ObjectRecord| rec.image())
                                =~= before.map_values(|rec: ObjectRecord| rec.image()).insert(
                                entry.0.oid,
                                rec.image(),
                            ));
                        }
                    },
                    Err(e) => {
                        proof {
                            lemma_read_fault(es, i + 1, es.len() as int);
                        }
                        return Err(e);
                    },
                }
            }
            i = i + 1;
        }
        Ok(ObjectTable { records })
    }

    /// Write the table as one leaf at `offset` on `device`. A leaf has a slot
    /// for each local id below its capacity; the first record, in order of
    /// ids, that has none is the error, and nothing is written.
    pub fn flush_to_region<D: BlockDevice>(&self, device: &mut D, offset: u64) -> (r: Result<
        (),
        MetaError,
    >)
        requires
            self.wf(),
        ensures
            old(device).reliable() ==> final(device).reliable(),
            match r {
                Ok(_) => exists|leaf: ObjectLeaf|
                    {
                        &&& #[trigger] written_leaf(leaf, self@)
                        &&& all_fit(self@)
                        &&& offset + 262144 <= old(device).contents().len()
                        &&& final(device).contents() == overwritten(
                            old(device).contents(),
                            offset as int,
                            leaf.image(),
                        )
                    },
                Err(MetaError::OidOutOfRange { oid_local, root_level }) => {
                    &&& root_level == 0
                    &&& exists|k: u64| #[trigger] first_misfit(self@, k) && oid_local == local_of(k)
                    &&& *final(device) == *old(device)
                },
                Err(e) => {
                    &&& e is Storage
                    &&& all_fit(self@)
                    &&& old(device).reliable() ==> offset + 262144 > old(device).contents().len()
                        && final(device).contents() == old(device).contents()
                },
            },
    {
        let list = list_entries(&self.records);
        let ghost m = self@;
        let ghost s = list@;
        let mut leaf = ObjectLeaf::new();
        let ghost blank = leaf;
        let mut i: usize = 0;
        while i < list.len()
            invariant
                i <= s.len(),
                s == list@,
                m == self@,
                lists_map(s, m),
                leaf.wf(),
                is_blank(blank),
                leaf.header == blank.header,
                leaf.trailer == blank.trailer,
                forall|j: int| 0 <= j < i ==> local_of((#[trigger] s[j]).0) < 2044,
                forall|x: int|
                    0 <= x < 2044 ==> match #[trigger] leaf.slots@[x] {
                        None => forall|j: int| 0 <= j < i ==> local_of((#[trigger] s[j]).0) != x,
                        Some(rec) => exists|j: int|
                            0 <= j < i && local_of((#[trigger] s[j]).0) == x && s[j].1 == rec && (
                            forall|l: int| j < l < i ==> local_of((#[trigger] s[l]).0) != x),
                    },
            decreases s.len() - i,
        {
            let (oid, rec) = list[i];
            let local: u64 = oid % LOCAL_SPAN;
            let ghost before = leaf.slots@;
            match leaf.set(local, rec) {
                Ok(_) => {
                    proof {
                        assert forall|x: int| 0 <= x < 2044 implies match #[trigger] leaf.slots@[x] {
                            None => forall|j: int|
                                0 <= j < i + 1 ==> local_of((#[trigger] s[j]).0) != x,
                            Some(rec) => exists|j: int|
                                0 <= j < i + 1 && local_of((#[trigger] s[j]).0) == x && s[j].1 == rec
                                    && (forall|l: int|
                                    j < l < i + 1 ==> local_of((#[trigger] s[l]).0) != x),
                        } by {
                            if x == local {
                                assert(local_of(s[i as int].0) == x && s[i as int].1 == rec);
                            } else {
                                assert(leaf.slots@[x] == before[x]);
                                if before[x] is Some {
                                    let j = choose|j: int|
                                        0 <= j < i && local_of((#[trigger] s[j]).0) == x && s[j].1
                                            == before[x]->0 && (forall|l: int|
                                            j < l < i ==> local_of((#[trigger] s[l]).0) != x);
                                    assert(local_of(s[j].0) == x);
                                }
                            }
                        }
                    }
                },
                Err(e) => {
                    proof {
                        assert(first_misfit(m, oid)) by {
                            assert(m.contains_key(s[i as int].0));
                            assert forall|j: u64| m.contains_key(j) && j < oid implies #[trigger] local_of(
                                j,
                            ) < 2044 by {
                                let l = choose|l: int| 0 <= l < s.len() && (#[trigger] s[l]).0 == j;
                                if l > i {
                                    assert(s[i as int].0 < s[l].0);
                                }
                                assert(local_of(s[l].0) < 2044);
                            }
                        }
                    }
                    return Err(e);
                },
            }
            i = i + 1;
        }
        proof {
            assert forall|k: u64| m.contains_key(k) implies #[trigger] local_of(k) < 2044 by {
                let l = choose|l: int| 0 <= l < s.len() && (#[trigger] s[l]).0 == k;
                assert(local_of(s[l].0) < 2044);
            }
            assert(slots_hold(leaf.slots@, m)) by {
                assert forall|x: int| 0 <= x < 2044 implies match #[trigger] leaf.slots@[x] {
                    None => forall|k: u64| m.contains_key(k) ==> #[trigger] local_of(k) != x,
                    Some(rec) => exists|k: u64| #[trigger] claims(m, k, x) && m[k] == rec,
                } by {
                    if leaf.slots@[x] is None {
                        assert forall|k: u64| m.contains_key(k) implies #[trigger] local_of(k) != x by {
                            let l = choose|l: int| 0 <= l < s.len() && (#[trigger] s[l]).0 == k;
                            assert(local_of(s[l].0) != x);
                        }
                    } else {
                        let rec = leaf.slots@[x]->0;
                        let j = choose|j: int|
                            0 <= j < s.len() && local_of((#[trigger] s[j]).0) == x && s[j].1 == rec
                                && (forall|l: int|
                                j < l < s.len() ==> local_of((#[trigger] s[l]).0) != x);
                        let k = s[j].0;
                        assert(claims(m, k, x)) by {
                            assert forall|o: u64|
                                m.contains_key(o) && #[trigger] local_of(o) == x implies o <= k by {
                                let l = choose|l: int| 0 <= l < s.len() && (#[trigger] s[l]).0 == o;
                                if l > j {
                                    assert(local_of(s[l].0) != x);
                                } else if l < j {
                                    assert(s[l].0 < s[j].0);
                                }
                            }
                        }
                        assert(m[k] == rec);
                    }
                }
            }
        }
        match leaf.write(device, offset) {
            Ok(_) => {
                proof {
                    assert(written_leaf(leaf, m));
                }
                Ok(())
            },
            Err(e) => Err(e),
        }
    }

    /// Read the table from the leaf at `offset` on `device`. Each record
    /// stands under the id that it carries.
    pub fn load_from_region<D: BlockDevice>(device: &D, offset: u64) -> (r: Result<Self, MetaError>)
        ensures
            r is Ok ==> r->Ok_0.wf() && exists|leaf: ObjectLeaf|
                #[trigger] leaf_read(
                    device.contents(),
                    offset as int,
                    device.reliable(),
                    Ok::<ObjectLeaf, MetaError>(leaf),
                ) && r->Ok_0@ == records_of(leaf.slots@, 2044),
            r is Err ==> leaf_read(
                device.contents(),
                offset as int,
                device.reliable(),
                Err::<ObjectLeaf, MetaError>(r->Err_0),
            ),
    {
        let leaf = match ObjectLeaf::read(device, offset) {
            Ok(l) => l,
            Err(e) => {
                proof {
                    assert(leaf_read(
                        device.contents(),
                        offset as int,
                        device.reliable(),
                        Err::<ObjectLeaf, MetaError>(e),
                    ));
                }
                return Err(e);
            },
        };
        let mut records: OrdMap<u64, ObjectRecord> = OrdMap::new();
        let mut i: usize = 0;
        proof {
            assert(leaf.wf());
        }
        while i < leaf.slots.len()
            invariant
                i <= leaf.slots@.len(),
                records.wf(),
                records@ == records_of(leaf.slots@, i as int),
            decreases leaf.slots@.len() - i,
        {
            match leaf.slots[i] {
                Some(rec) => {
                    records.insert(rec.id, rec);
                },
                None => {},
            }
            i = i + 1;
        }
        let t = ObjectTable { records };
        proof {
            assert(leaf_read(
                device.contents(),
                offset as int,
                device.reliable(),
                Ok::<ObjectLeaf, MetaError>(leaf),
            ));
        }
        Ok(t)
    }
}

/// `leaf` is the leaf that holds the table, written once.
pub open spec fn written_leaf(leaf: ObjectLeaf, m: Map<u64, ObjectRecord>) -> bool {
    &&& leaf.wf()
    &&& well_marked(leaf)
    &&& exists|blank: ObjectLeaf| #[trigger]
        is_blank(blank) && header_written(blank.header, leaf.header, leaf.slots@)
    &&& leaf.trailer.leaf_generation == 1
    &&& leaf.trailer._reserved@ == zeros(22)
    &&& slots_hold(leaf.slots@, m)
}

/// The entries are those of the table, in ascending order of ids.
pub open spec fn node_holds(
    e: Seq<(ObjectTableKey, ObjectTableValue)>,
    m: Map<u64, ObjectRecord>,
) -> bool {
    &&& forall|a: int, b: int|
        0 <= a < b < e.len() ==> (#[trigger] e[a]).0.oid < (#[trigger] e[b]).0.oid
    &&& forall|a: int|
        0 <= a < e.len() ==> (#[trigger] e[a]).0.snapshot == 0 && m.contains_key(e[a].0.oid)
            && e[a].1.0@ == m[e[a].0.oid].image()
    &&& forall|k: u64| #[trigger]
        m.contains_key(k) ==> exists|i: int| 0 <= i < e.len() && (#[trigger] e[i]).0.oid == k
}

proof fn lemma_read_fault(es: Seq<(ObjectTableKey, ObjectTableValue)>, k: int, n: int)
    requires
        0 <= k <= n,
        entries_read(es, k) is Err,
    ensures
        entries_read(es, n) == entries_read(es, k),
    decreases n - k,
{
    if k < n {
        lemma_read_fault(es, k, n - 1);
    }
}

/// What [`ObjectTable::to_loaded_node`] wrote reads back as the same table.
pub proof fn node_round_trip(
    e: Seq<(ObjectTableKey, ObjectTableValue)>,
    m: Map<u64, ObjectRecord>,
    k: int,
)
    requires
        node_holds(e, m),
        0 <= k <= e.len(),
    ensures
        entries_read(e, k) is Ok,
        forall|o: u64| #[trigger]
            entries_read(e, k)->Ok_0.contains_key(o) <==> exists|i: int|
                0 <= i < k && (#[trigger] e[i]).0.oid == o,
        forall|o: u64| #[trigger]
            entries_read(e, k)->Ok_0.contains_key(o) ==> m.contains_key(o)
                && entries_read(e, k)->Ok_0[o] == m[o].image(),
        k == e.len() ==> entries_read(e, k)->Ok_0 == m.map_values(|r: ObjectRecord| r.image()),
    decreases k,
{
    if k > 0 {
        node_round_trip(e, m, k - 1);
        let (key, value) = e[k - 1];
        assert(key.snapshot == 0 && m.contains_key(key.oid) && value.0@ == m[key.oid].image());
        m[key.oid].image_len();
        let a = entries_read(e, k - 1)->Ok_0;
        let b = entries_read(e, k)->Ok_0;
        assert(b == a.insert(key.oid, value.0@));
        assert forall|o: u64| #[trigger] b.contains_key(o) <==> exists|i: int|
            0 <= i < k && (#[trigger] e[i]).0.oid == o by {
            if b.contains_key(o) {
                if o == key.oid {
                    assert(e[k - 1].0.oid == o);
                } else {
                    let i = choose|i: int| 0 <= i < k - 1 && (#[trigger] e[i]).0.oid == o;
                    assert(e[i].0.oid == o);
                }
            }
        }
    }
    if k == e.len() {
        assert(entries_read(e, k)->Ok_0 =~= m.map_values(|r: ObjectRecord| r.image()));
    }
}

/// A table whose records stand under their own ids, no two with one local
/// part, reads back from the slots that hold it.
pub proof fn slots_round_trip(slots: Seq<Option<ObjectRecord>>, m: Map<u64, ObjectRecord>)
    requires
        slots_hold(slots, m),
        forall|k: u64| m.contains_key(k) ==> #[trigger] local_of(k) < 2044,
        forall|k: u64| #[trigger] m.contains_key(k) ==> m[k].id == k,
        forall|a: u64, b: u64|
            m.contains_key(a) && m.contains_key(b) && #[trigger] local_of(a) == #[trigger] local_of(
                b,
            ) ==> a == b,
    ensures
        records_of(slots, 2044) == m,
{
    lemma_records_of(slots, m, 2044);
    let t = records_of(slots, 2044);
    assert forall|k: u64| m.contains_key(k) implies t.contains_key(k) by {
        let x = local_of(k);
        assert(slots[x] is Some);
        let j = choose|j: u64| #[trigger] claims(m, j, x) && m[j] == slots[x]->0;
        assert(local_of(j) == local_of(k));
        assert(j == k);
    }
    assert(t =~= m);
}

/// A table that was flushed to a device that answers loads back unchanged, as
/// long as its records stand under their own ids and no two have one local
/// part.
pub proof fn table_device_round_trip(
    contents: Seq<u8>,
    offset: int,
    leaf: ObjectLeaf,
    m: Map<u64, ObjectRecord>,
    read: ObjectLeaf,
)
    requires
        written_leaf(leaf, m),
        forall|k: u64| m.contains_key(k) ==> #[trigger] local_of(k) < 2044,
        forall|k: u64| #[trigger] m.contains_key(k) ==> m[k].id == k,
        forall|a: u64, b: u64|
            m.contains_key(a) && m.contains_key(b) && #[trigger] local_of(a) == #[trigger] local_of(
                b,
            ) ==> a == b,
        0 <= offset,
        offset + 262144 <= contents.len(),
        leaf_read(
            overwritten(contents, offset, leaf.image()),
            offset,
            true,
            Ok::<ObjectLeaf, MetaError>(read),
        ),
    ensures
        records_of(read.slots@, 2044) == m,
{
    leaf_device_round_trip(contents, offset, leaf, Ok::<ObjectLeaf, MetaError>(read));
    slots_round_trip(leaf.slots@, m);
}

proof fn lemma_records_of(slots: Seq<Option<ObjectRecord>>, m: Map<u64, ObjectRecord>, n: int)
    requires
        slots_hold(slots, m),
        forall|k: u64| #[trigger] m.contains_key(k) ==> m[k].id == k,
        0 <= n <= 2044,
    ensures
        forall|k: u64| #[trigger]
            records_of(slots, n).contains_key(k) ==> m.contains_key(k) && records_of(slots, n)[k]
                == m[k],
        forall|x: int|
            0 <= x < n && #[trigger] slots[x] is Some ==> records_of(slots, n).contains_key(
                slots[x]->0.id,
            ),
    decreases n,
{
    if n > 0 {
        lemma_records_of(slots, m, n - 1);
        if slots[n - 1] is Some {
            let rec = slots[n - 1]->0;
            assert(slots[n - 1] == Some(rec));
            let j = choose|j: u64| #[trigger] claims(m, j, n - 1) && m[j] == rec;
            assert(claims(m, j, n - 1) && m[j] == rec);
            assert(m.contains_key(j));
            assert(rec.id == j);
            assert forall|k: u64| #[trigger] records_of(slots, n).contains_key(k) implies
                m.contains_key(k) && records_of(slots, n)[k] == m[k] by {
                if k != j {
                    assert(records_of(slots, n - 1).contains_key(k));
                }
            }
        } else {
            assert(records_of(slots, n) == records_of(slots, n - 1));
            assert forall|k: u64| #[trigger] records_of(slots, n).contains_key(k) implies
                m.contains_key(k) && records_of(slots, n)[k] == m[k] by {
                assert(records_of(slots, n - 1).contains_key(k));
            }
        }
    } else {
        assert forall|k: u64| #[trigger] records_of(slots, n).contains_key(k) implies
            m.contains_key(k) && records_of(slots, n)[k] == m[k] by {}
    }
}

} // verus!
