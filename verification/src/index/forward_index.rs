//! The forward index: from an object to everything asserted of it.

use vstd::prelude::*;
use crate::bytes::{get_u16, le, put_le};
use crate::index::error::IndexError;
use crate::index::leaf_entry::LEAF_ENTRY_SPILL_FLAG;
use crate::index::overflow_chain::{chain_gives, chunk_count, counted, lays_out,
    lemma_chain_unique, lemma_written_join, read_overflow_chain, ref_at, slot_offset,
    slots_beyond, written, write_overflow_chain, ChainFault, SlotWrite};
use crate::index::packed::{get_packed, packed_form, packed_images, put_packed, unpacked,
    PackedAssertion};
use crate::ordmap::{lemma_items_map, OrdMap};
use crate::storage::block::{BlockRef, BtreeKind};
use crate::storage::device::{BlockDevice, StorageError};
use crate::storage::node::{LoadedNode, SortedRun};
use crate::storage::region::{load_node, node_loaded, node_stored, store_node};
use crate::types::assertion::{assertion_eq, Assertion, AssertionModel, TagOrigin};
use crate::types::id::{ObjectId, TagId};
use crate::types::value::ValueModel;

verus! {

/// Size of the region that holds the directory.
pub const FORWARD_INDEX_REGION_SIZE: u64 = 262144;

/// Binary logarithm of [`FORWARD_INDEX_REGION_SIZE`].
pub const REGION_SIZE_LOG2: u8 = 18;

/// Key of a directory entry: the object, then the snapshot.
#[derive(Clone, Copy, Debug, PartialEq, Eq, PartialOrd, Ord, Hash, Structural)]
pub struct ForwardIndexKey {
    pub oid: u64,
    /// `0` is the live state.
    pub snapshot: u32,
}

impl ForwardIndexKey {
    /// The key's components.
    pub fn field_values(&self) -> (r: Vec<u64>)
        ensures
            r@ == seq![self.oid, self.snapshot as u64],
    {
        let mut out: Vec<u64> = Vec::new();
        out.push(self.oid);
        out.push(self.snapshot as u64);
        proof {
            assert(out@ =~= seq![self.oid, self.snapshot as u64]);
        }
        out
    }

    /// The key with these components.
    pub fn from_components(fields: &Vec<u64>) -> (r: Result<Self, IndexError>)
        ensures
            match r {
                Ok(k) => fields@ == seq![k.oid, k.snapshot as u64],
                Err(e) => e is MalformedKey && if fields@.len() != 2 {
                    e->MalformedKey_0@ == "ForwardIndexKey: wrong field count"@
                } else {
                    fields@[1] > u32::MAX && e->MalformedKey_0@
                        == "ForwardIndexKey: snapshot overflow"@
                },
            },
    {
        if fields.len() != 2 {
            return Err(IndexError::MalformedKey("ForwardIndexKey: wrong field count"));
        }
        if fields[1] > 0xFFFF_FFFF {
            return Err(IndexError::MalformedKey("ForwardIndexKey: snapshot overflow"));
        }
        let k = ForwardIndexKey { oid: fields[0], snapshot: fields[1] as u32 };
        proof {
            assert(fields@ =~= seq![k.oid, k.snapshot as u64]);
        }
        Ok(k)
    }
}

/// Value of a directory entry: a header, then the packed assertions or the
/// reference to their chain.
#[derive(Clone, Debug, Default, PartialEq, Eq)]
pub struct ForwardIndexValue(pub Vec<u8>);

/// What is asserted of one object.
pub type AssertionList = Seq<(AssertionModel, TagOrigin)>;

/// The content of a list of assertions.
pub open spec fn list_model(v: Seq<(Assertion, TagOrigin)>) -> Seq<(AssertionModel, TagOrigin)> {
    v.map_values(|p: (Assertion, TagOrigin)| (p.0@, p.1))
}

/// The packed form of a list of assertions.
pub open spec fn packed_list(l: Seq<(AssertionModel, TagOrigin)>) -> Seq<PackedAssertion> {
    l.map_values(|p: (AssertionModel, TagOrigin)| packed_form(p.0, p.1))
}

/// The tags in the list that have the origin `o`, in order.
pub open spec fn tags_with(l: Seq<(AssertionModel, TagOrigin)>, o: TagOrigin) -> Seq<TagId>
    decreases l.len(),
{
    if l.len() == 0 {
        Seq::empty()
    } else {
        let front = tags_with(l.drop_last(), o);
        match l.last().0 {
            AssertionModel::Tag(t) => if l.last().1 == o {
                front.push(t)
            } else {
                front
            },
            _ => front,
        }
    }
}

/// Entry `i` is the first that says the same as `a`.
pub open spec fn first_match(l: Seq<(AssertionModel, TagOrigin)>, a: AssertionModel, i: int) -> bool {
    &&& 0 <= i < l.len()
    &&& assertion_eq(l[i].0, a)
    &&& forall|j: int| 0 <= j < i ==> !assertion_eq((#[trigger] l[j]).0, a)
}

/// The list without entry `i`, the last entry in its place.
pub open spec fn swap_removed<A>(l: Seq<A>, i: int) -> Seq<A> {
    l.update(i, l.last()).drop_last()
}

/// How many regions the first `k` lists take.
pub open spec fn slots_before(ls: Seq<Seq<PackedAssertion>>, k: int) -> nat
    decreases k,
{
    if k <= 0 {
        0
    } else {
        slots_before(ls, k - 1) + if ls[k - 1].len() > 8 {
            chunk_count(ls[k - 1].len())
        } else {
            0
        }
    }
}

/// The value of the directory entry of list `k`.
pub open spec fn entry_value(ls: Seq<Seq<PackedAssertion>>, area: int, k: int) -> Seq<u8> {
    let p = ls[k];
    if p.len() <= 8 {
        le(p.len(), 2) + packed_images(p, p.len() as int)
    } else {
        le(p.len() + 0x8000, 2) + ref_at(
            slot_offset(area, slots_before(ls, k) as int),
        ).image()
    }
}

/// Why list `k` cannot be written, if it cannot.
pub open spec fn list_fault(ls: Seq<Seq<PackedAssertion>>, cap: int, k: int) -> Option<IndexError> {
    if ls[k].len() > 0x7FFF {
        Some(IndexError::AssertionCountOverflow { count: ls[k].len() as usize })
    } else if ls[k].len() > 8 && slots_before(ls, k + 1) > cap {
        Some(
            IndexError::OverflowAreaExhausted {
                needed: counted(slots_before(ls, k + 1) as int),
                cap: cap as usize,
            },
        )
    } else {
        None
    }
}

/// `writes` lay out those of the first `k` lists that spill, one after the other.
pub open spec fn all_laid(
    writes: Seq<SlotWrite>,
    ls: Seq<Seq<PackedAssertion>>,
    area: int,
    k: int,
) -> bool {
    &&& writes.len() == slots_before(ls, k)
    &&& forall|i: int|
        0 <= i < k && (#[trigger] ls[i]).len() > 8 ==> lays_out(
            writes.subrange(slots_before(ls, i) as int, slots_before(ls, i + 1) as int),
            ls[i],
            area,
            slots_before(ls, i) as int,
        )
}

/// The packed lists of the index, in ascending order of ids.
pub open spec fn packed_lists(items: Seq<(u64, Vec<(Assertion, TagOrigin)>)>) -> Seq<
    Seq<PackedAssertion>,
> {
    items.map_values(
        |e: (u64, Vec<(Assertion, TagOrigin)>)| packed_list(list_model(e.1@)),
    )
}

/// What laying an index out comes to: the node of the directory and the regions
/// in use, or why some list could not be laid out. The chains of the lists
/// before that one are on the device.
pub open spec fn forward_laid(
    items: Seq<(u64, Vec<(Assertion, TagOrigin)>)>,
    before: Seq<u8>,
    after: Seq<u8>,
    reliable: bool,
    area: int,
    cap: int,
    r: Result<(LoadedNode<ForwardIndexKey, ForwardIndexValue>, usize), IndexError>,
) -> bool {
    match r {
        Ok((node, used)) => {
            let ls = packed_lists(items);
            let n = items.len() as int;
            &&& forall|k: int|
                0 <= k < n ==> #[trigger] list_fault(
                    ls,
                    cap,
                    k,
                ) is None
            &&& used == slots_before(ls, n)
            &&& node.fresh(BtreeKind::Forward, REGION_SIZE_LOG2)
            &&& node.entries().len() == n
            &&& forall|k: int|
                0 <= k < n ==> (#[trigger] node.entries()[k]).0 == (ForwardIndexKey {
                    oid: items[k].0,
                    snapshot: 0,
                }) && node.entries()[k].1.0@ == entry_value(
                    ls,
                    area,
                    k,
                )
            &&& exists|writes: Seq<SlotWrite>|
                #[trigger] all_laid(writes, ls, area, n)
                    && after == written(
                    before,
                    area,
                    writes,
                )
            &&& used > 0 ==> slot_offset(area, used as int) <= before.len()
        },
        Err(e) => {
            let ls = packed_lists(items);
            exists|k: int|
                {
                    &&& 0 <= k < items.len()
                    &&& forall|j: int|
                        0 <= j < k ==> #[trigger] list_fault(
                            ls,
                            cap,
                            j,
                        ) is None
                    &&& match #[trigger] list_fault(
                        ls,
                        cap,
                        k,
                    ) {
                        Some(f) => e == f && exists|writes: Seq<SlotWrite>|
                            #[trigger] all_laid(writes, ls, area, k)
                                && after == written(
                                before,
                                area,
                                writes,
                            ),
                        None => e is Storage && (reliable ==> {
                            &&& slots_beyond(
                                area,
                                slots_before(ls, k + 1) as int,
                                before.len(),
                            )
                            &&& exists|writes: Seq<SlotWrite>|
                                #[trigger] all_laid(
                                    writes,
                                    ls,
                                    area,
                                    k,
                                ) && after == written(
                                    before,
                                    area,
                                    writes,
                                )
                        }),
                    }
                }
        },
    }
}

/// `r` is the index that was read from its directory and the device.
pub open spec fn forward_read(
    contents: Seq<u8>,
    reliable: bool,
    read: Result<Option<LoadedNode<ForwardIndexKey, ForwardIndexValue>>, StorageError>,
    r: Result<Map<u64, Seq<(AssertionModel, TagOrigin)>>, IndexError>,
) -> bool {
    match read {
        Ok(None) => r == Ok::<Map<u64, Seq<(AssertionModel, TagOrigin)>>, IndexError>(Map::empty()),
        Ok(Some(node)) => (!reliable && r is Err && r->Err_0 is Storage) || match loaded(
            contents,
            node.entries(),
            node.entries().len() as int,
        ) {
            Ok(m) => r == Ok::<Map<u64, Seq<(AssertionModel, TagOrigin)>>, IndexError>(m),
            Err(f) => r is Err && load_reports(r->Err_0, f),
        },
        Err(e) => r is Err && r->Err_0 == IndexError::Storage(e),
    }
}

/// Why a directory entry cannot be read.
pub ghost enum LoadFault {
    /// A buffer is too small.
    TooSmall(nat, nat),
    /// The chain cannot be read.
    Chain(ChainFault),
    /// An assertion cannot be unpacked.
    Unpack(IndexError),
}

/// What a chain holds.
pub open spec fn chain_result(contents: Seq<u8>, head: BlockRef, expected: nat) -> Result<
    Seq<PackedAssertion>,
    ChainFault,
> {
    choose|g: Result<Seq<PackedAssertion>, ChainFault>|
        chain_gives(contents, head, expected, 0, Seq::empty(), g)
}

/// The number that two bytes write, little-endian.
pub open spec fn header_value(bytes: Seq<u8>) -> nat {
    crate::bytes::le_value(bytes.subrange(0, 2))
}

/// The packed assertions that a directory entry stands for.
pub open spec fn entry_packed(contents: Seq<u8>, bytes: Seq<u8>) -> Result<
    Seq<PackedAssertion>,
    LoadFault,
> {
    if bytes.len() < 2 {
        Err(LoadFault::TooSmall(2, bytes.len()))
    } else {
        let h = header_value(bytes);
        let total = h % 0x8000;
        let body = bytes.skip(2);
        if h >= 0x8000 {
            if body.len() < 16 {
                Err(LoadFault::TooSmall(16, body.len()))
            } else {
                let head = choose|b: BlockRef| b.image() == body.take(16);
                match chain_result(contents, head, total) {
                    Ok(p) => Ok(p),
                    Err(f) => Err(LoadFault::Chain(f)),
                }
            }
        } else if body.len() < 16 * total {
            Err(LoadFault::TooSmall(16 * total, body.len()))
        } else {
            Ok(
                choose|p: Seq<PackedAssertion>|
                    p.len() == total && #[trigger] packed_images(p, p.len() as int) == body.take(
                        16 * total as int,
                    ),
            )
        }
    }
}

/// The first `k` packed assertions, unpacked; attributes have the value zero.
pub open spec fn unpacked_list(p: Seq<PackedAssertion>, k: int) -> Result<
    Seq<(AssertionModel, TagOrigin)>,
    IndexError,
>
    decreases k,
{
    if k <= 0 {
        Ok(Seq::empty())
    } else {
        match unpacked_list(p, k - 1) {
            Err(e) => Err(e),
            Ok(l) => match unpacked(p[k - 1], ValueModel::Int(0)) {
                Err(e) => Err(e),
                Ok(a) => Ok(l.push(a)),
            },
        }
    }
}

/// What a directory entry stands for.
pub open spec fn entry_list(contents: Seq<u8>, bytes: Seq<u8>) -> Result<
    Seq<(AssertionModel, TagOrigin)>,
    LoadFault,
> {
    match entry_packed(contents, bytes) {
        Err(f) => Err(f),
        Ok(p) => match unpacked_list(p, p.len() as int) {
            Err(e) => Err(LoadFault::Unpack(e)),
            Ok(l) => Ok(l),
        },
    }
}

/// What the first `k` directory entries give; the first that cannot be read
/// is the fault.
pub open spec fn loaded(
    contents: Seq<u8>,
    entries: Seq<(ForwardIndexKey, ForwardIndexValue)>,
    k: int,
) -> Result<Map<u64, Seq<(AssertionModel, TagOrigin)>>, LoadFault>
    decreases k,
{
    if k <= 0 {
        Ok(Map::empty())
    } else {
        match loaded(contents, entries, k - 1) {
            Err(f) => Err(f),
            Ok(m) => match entry_list(contents, entries[k - 1].1.0@) {
                Err(f) => Err(f),
                Ok(l) => Ok(m.insert(entries[k - 1].0.oid, l)),
            },
        }
    }
}

/// `e` reports the fault.
pub open spec fn load_reports(e: IndexError, f: LoadFault) -> bool {
    match f {
        LoadFault::TooSmall(need, have) => e == (IndexError::BufferTooSmall {
            need: need as usize,
            have: have as usize,
        }),
        LoadFault::Chain(ChainFault::Bounds) => e is Storage,
        LoadFault::Chain(ChainFault::Corrupt(m)) => e is CorruptOverflowChain
            && e->CorruptOverflowChain_0@ == m,
        LoadFault::Unpack(x) => e == x,
    }
}

/// Everything asserted of each object.
#[derive(Clone, Debug)]
pub struct ForwardIndex {
    entries: OrdMap<u64, Vec<(Assertion, TagOrigin)>>,
}

/// `after` is `before` without the first assertion in the list `l` of `oid` that
/// says the same as `a`; `found` says whether there is one.
pub open spec fn taken_back(
    before: Map<u64, Seq<(AssertionModel, TagOrigin)>>,
    after: Map<u64, Seq<(AssertionModel, TagOrigin)>>,
    l: Seq<(AssertionModel, TagOrigin)>,
    oid: u64,
    a: AssertionModel,
    found: bool,
) -> bool {
    &&& found == exists|i: int| first_match(l, a, i)
    &&& !found ==> after == before
    &&& forall|i: int| #[trigger]
        first_match(l, a, i) ==> after == (if l.len() == 1 {
            before.remove(oid)
        } else {
            before.insert(oid, swap_removed(l, i))
        })
}

/// The index that the first `k` entries make up. Of two entries for an object
/// the later counts.
pub open spec fn entered(entries: Seq<(u64, Vec<(Assertion, TagOrigin)>)>, k: int) -> Map<
    u64,
    Seq<(AssertionModel, TagOrigin)>,
>
    decreases k,
{
    if k <= 0 {
        Map::empty()
    } else {
        entered(entries, k - 1).insert(entries[k - 1].0, list_model(entries[k - 1].1@))
    }
}

impl Default for ForwardIndex {
    fn default() -> (r: Self)
        ensures
            r.wf(),
            r@ == Map::<u64, Seq<(AssertionModel, TagOrigin)>>::empty(),
    {
        ForwardIndex::new()
    }
}

impl ForwardIndex {
    pub closed spec fn view(&self) -> Map<u64, Seq<(AssertionModel, TagOrigin)>> {
        self.entries@.map_values(|v: Vec<(Assertion, TagOrigin)>| list_model(v@))
    }

    pub closed spec fn wf(&self) -> bool {
        self.entries.wf()
    }

    /// The entries in ascending order of ids.
    pub closed spec fn items(&self) -> Seq<(u64, Vec<(Assertion, TagOrigin)>)> {
        self.entries.items()
    }

    /// What is asserted of `oid`.
    pub open spec fn of(&self, oid: u64) -> Seq<(AssertionModel, TagOrigin)> {
        if self@.contains_key(oid) {
            self@[oid]
        } else {
            Seq::empty()
        }
    }

    /// The entries are those of the index.
    pub proof fn lemma_items(&self)
        requires
            self.wf(),
        ensures
            forall|i: int, j: int|
                0 <= i < j < self.items().len() ==> (#[trigger] self.items()[i]).0 < (
                #[trigger] self.items()[j]).0,
            forall|i: int|
                0 <= i < self.items().len() ==> self@.contains_key((#[trigger] self.items()[i]).0)
                    && self@[self.items()[i].0] == list_model(self.items()[i].1@),
            forall|k: u64| #[trigger]
                self@.contains_key(k) ==> exists|i: int|
                    0 <= i < self.items().len() && (#[trigger] self.items()[i]).0 == k,
    {
        let s = self.items();
        lemma_items_map::<u64, Vec<(Assertion, TagOrigin)>>(s);
        assert forall|i: int, j: int| 0 <= i < j < s.len() implies (#[trigger] s[i]).0 < (
        #[trigger] s[j]).0 by {
            assert(<u64 as crate::ordmap::Key>::precedes(s[i].0, s[j].0));
        }
        assert forall|i: int| 0 <= i < s.len() implies self@.contains_key((#[trigger] s[i]).0)
            && self@[s[i].0] == list_model(s[i].1@) by {
            assert(self.entries@.contains_key(s[i].0));
        }
        assert forall|k: u64| #[trigger] self@.contains_key(k) implies exists|i: int|
            0 <= i < s.len() && (#[trigger] s[i]).0 == k by {
            assert(self.entries@.contains_key(k));
            let i = choose|i: int| 0 <= i < s.len() && #[trigger] s[i].0 == k;
            assert(s[i].0 == k);
        }
    }

    /// An empty index.
    pub fn new() -> (r: Self)
        ensures
            r.wf(),
            r@ == Map::<u64, Seq<(AssertionModel, TagOrigin)>>::empty(),
    {
        let r = ForwardIndex { entries: OrdMap::new() };
        proof {
            assert(r@ =~= Map::<u64, Seq<(AssertionModel, TagOrigin)>>::empty());
        }
        r
    }

    /// The index that entries make up: an object and what is asserted of it, be
    /// it nothing. Of two entries for an object the later counts.
    pub fn from_entries(entries: &Vec<(u64, Vec<(Assertion, TagOrigin)>)>) -> (r: Self)
        ensures
            r.wf(),
            r@ == entered(entries@, entries@.len() as int),
    {
        let mut r = ForwardIndex::new();
        let mut i: usize = 0;
        while i < entries.len()
            invariant
                i <= entries@.len(),
                r.wf(),
                r@ == entered(entries@, i as int),
            decreases entries@.len() - i,
        {
            let ghost m = r@;
            let list = copy_assertions(&entries[i].1);
            r.entries.insert(entries[i].0, list);
            proof {
                assert(r@ =~= m.insert(entries@[i as int].0, list_model(list@)));
            }
            i = i + 1;
        }
        r
    }

    /// The entries of an index make up the index.
    pub proof fn entries_round_trip(&self, entries: Seq<(u64, Vec<(Assertion, TagOrigin)>)>)
        requires
            self.wf(),
            entries.len() == self.items().len(),
            forall|i: int|
                0 <= i < entries.len() ==> (#[trigger] entries[i]).0 == self.items()[i].0
                    && list_model(entries[i].1@) == list_model(self.items()[i].1@),
        ensures
            entered(entries, entries.len() as int) == self@,
    {
        let n = entries.len() as int;
        self.lemma_items();
        lemma_entered(entries, n);
        let m = entered(entries, n);
        assert forall|k: u64| #[trigger] m.contains_key(k) <==> self@.contains_key(k) by {
            if m.contains_key(k) {
                let i = choose|i: int| 0 <= i < n && (#[trigger] entries[i]).0 == k;
                assert(self.items()[i].0 == k);
            }
            if self@.contains_key(k) {
                let i = choose|i: int|
                    0 <= i < self.items().len() && (#[trigger] self.items()[i]).0 == k;
                assert(entries[i].0 == k);
            }
        }
        assert forall|k: u64| #[trigger] m.contains_key(k) implies m[k] == self@[k] by {
            let i = choose|i: int|
                {
                    &&& 0 <= i < n
                    &&& (#[trigger] entries[i]).0 == k
                    &&& m[k] == list_model(entries[i].1@)
                };
            assert(self.items()[i].0 == k);
        }
        assert(m =~= self@);
    }

    /// Append an assertion about `oid`.
    pub fn add_assertion(&mut self, oid: ObjectId, assertion: Assertion, origin: TagOrigin)
        requires
            old(self).wf(),
        ensures
            final(self).wf(),
            final(self)@ == old(self)@.insert(
                oid.raw,
                old(self).of(oid.raw).push((assertion@, origin)),
            ),
    {
        let ghost m = self@;
        let ghost before = self.entries@;
        let key: u64 = oid.to_u64();
        let mut list: Vec<(Assertion, TagOrigin)> = match self.entries.remove(&key) {
            Some(v) => v,
            None => Vec::new(),
        };
        let ghost prev = list@;
        list.push((assertion, origin));
        self.entries.insert(key, list);
        proof {
            assert(list_model(prev) =~= self_list(before, key));
            assert(list_model(list@) =~= list_model(prev).push((assertion@, origin)));
            assert(self@ =~= m.insert(key, list_model(list@)));
        }
    }

    /// Remove the first assertion about `oid` that says the same. The last
    /// one takes its place. Whether there was one.
    pub fn remove_assertion(&mut self, oid: ObjectId, assertion: &Assertion) -> (r: bool)
        requires
            old(self).wf(),
        ensures
            final(self).wf(),
            taken_back(old(self)@, final(self)@, old(self).of(oid.raw), oid.raw, assertion@, r),
    {
        let ghost m = self@;
        let ghost before = self.entries@;
        let ghost l = self.of(oid.raw);
        let key: u64 = oid.to_u64();
        let pos: Option<usize> = match self.entries.get(&key) {
            Some(v) => {
                proof {
                    assert(l =~= list_model(v@));
                }
                find_assertion(v, assertion)
            },
            None => None,
        };
        match pos {
            None => {
                proof {
                    assert forall|i: int| !#[trigger] first_match(l, assertion@, i) by {
                        if first_match(l, assertion@, i) {
                            assert(0 <= i < l.len());
                        }
                    }
                }
                false
            },
            Some(i) => {
                proof {
                    assert(first_match(l, assertion@, i as int));
                    assert forall|j: int| #[trigger] first_match(l, assertion@, j) implies j == i by {
                        if j < i {
                            assert(!assertion_eq(l[j].0, assertion@));
                        } else if j > i {
                            assert(!assertion_eq(l[i as int].0, assertion@));
                        }
                    }
                }
                match self.entries.remove(&key) {
                    Some(v) => {
                        let mut list = v;
                        proof {
                            assert(l =~= list_model(list@));
                        }
                        list.swap_remove(i);
                        proof {
                            assert(list_model(list@) =~= swap_removed(l, i as int));
                        }
                        if list.len() > 0 {
                            self.entries.insert(key, list);
                            proof {
                                assert(self@ =~= m.insert(key, list_model(list@)));
                            }
                        } else {
                            proof {
                                assert(self@ =~= m.remove(key));
                            }
                        }
                    },
                    None => {},
                }
                true
            },
        }
    }

    /// All assertions about `oid`.
    pub fn assertions_of(&self, oid: ObjectId) -> (r: Vec<(Assertion, TagOrigin)>)
        requires
            self.wf(),
        ensures
            list_model(r@) == self.of(oid.raw),
    {
        match self.entries.get(&oid.to_u64()) {
            Some(v) => copy_assertions(v),
            None => {
                let out: Vec<(Assertion, TagOrigin)> = Vec::new();
                proof {
                    assert(list_model(out@) =~= self.of(oid.raw));
                }
                out
            },
        }
    }

    /// The tags put on `oid` itself.
    pub fn direct_tags(&self, oid: ObjectId) -> (r: Vec<TagId>)
        requires
            self.wf(),
        ensures
            r@ == tags_with(self.of(oid.raw), TagOrigin::Direct),
    {
        self.tags_of(oid, TagOrigin::Direct)
    }

    /// The tags of `oid` that follow from others.
    pub fn materialized_tags(&self, oid: ObjectId) -> (r: Vec<TagId>)
        requires
            self.wf(),
        ensures
            r@ == tags_with(self.of(oid.raw), TagOrigin::Materialized),
    {
        self.tags_of(oid, TagOrigin::Materialized)
    }

    fn tags_of(&self, oid: ObjectId, o: TagOrigin) -> (r: Vec<TagId>)
        requires
            self.wf(),
        ensures
            r@ == tags_with(self.of(oid.raw), o),
    {
        let mut out: Vec<TagId> = Vec::new();
        match self.entries.get(&oid.to_u64()) {
            Some(v) => {
                let ghost l = list_model(v@);
                let mut i: usize = 0;
                while i < v.len()
                    invariant
                        i <= v@.len(),
                        l == list_model(v@),
                        out@ == tags_with(l.take(i as int), o),
                    decreases v@.len() - i,
                {
                    proof {
                        assert(l.take(i + 1).drop_last() =~= l.take(i as int));
                        assert(l.take(i + 1).last() == (v@[i as int].0@, v@[i as int].1));
                    }
                    match &v[i].0 {
                        Assertion::Tag(t) => {
                            if v[i].1 == o {
                                out.push(*t);
                            }
                        },
                        _ => {},
                    }
                    i = i + 1;
                }
                proof {
                    assert(l.take(i as int) =~= l);
                }
                out
            },
            None => out,
        }
    }

    /// Drop everything asserted of `oid`, and return it.
    pub fn remove_object(&mut self, oid: ObjectId) -> (r: Vec<(Assertion, TagOrigin)>)
        requires
            old(self).wf(),
        ensures
            final(self).wf(),
            final(self)@ == old(self)@.remove(oid.raw),
            list_model(r@) == old(self).of(oid.raw),
    {
        let ghost m = self@;
        let key: u64 = oid.to_u64();
        match self.entries.remove(&key) {
            Some(v) => {
                proof {
                    assert(self@ =~= m.remove(key));
                }
                v
            },
            None => {
                let out: Vec<(Assertion, TagOrigin)> = Vec::new();
                proof {
                    assert(self@ =~= m.remove(key));
                    assert(list_model(out@) =~= Seq::empty());
                }
                out
            },
        }
    }

    /// Whether `oid` has more assertions than its directory entry can hold.
    pub fn would_spill(&self, oid: ObjectId) -> (r: bool)
        requires
            self.wf(),
        ensures
            r == (self.of(oid.raw).len() > 8),
    {
        match self.entries.get(&oid.to_u64()) {
            Some(v) => v.len() > 8,
            None => false,
        }
    }

    /// Number of objects.
    pub fn object_count(&self) -> (r: usize)
        requires
            self.wf(),
        ensures
            r == self@.len(),
    {
        proof {
            lemma_items_map::<u64, Vec<(Assertion, TagOrigin)>>(self.entries.items());
            assert(self@.dom() =~= self.entries@.dom());
        }
        self.entries.len()
    }

    /// Every object with what is asserted of it, in ascending order of ids.
    pub fn iter(&self) -> (r: Vec<(ObjectId, &Vec<(Assertion, TagOrigin)>)>)
        requires
            self.wf(),
        ensures
            r@.len() == self.items().len(),
            forall|i: int|
                0 <= i < r@.len() ==> (#[trigger] r@[i]).0.raw == self.items()[i].0 && *r@[i].1
                    == self.items()[i].1,
    {
        let total = self.entries.len();
        let mut out: Vec<(ObjectId, &Vec<(Assertion, TagOrigin)>)> = Vec::new();
        let mut i: usize = 0;
        while i < total
            invariant
                i <= total,
                total == self.items().len(),
                out@.len() == i,
                forall|j: int|
                    0 <= j < i ==> (#[trigger] out@[j]).0.raw == self.items()[j].0 && *out@[j].1
                        == self.items()[j].1,
            decreases total - i,
        {
            out.push((ObjectId::from_u64(*self.entries.key_at(i)), self.entries.value_at(i)));
            i = i + 1;
        }
        out
    }

    /// Lay the index out: the assertions of objects that have too many go to
    /// chains in the overflow area of `device`, everything else into the
    /// directory node that is returned, with the number of regions used.
    #[verifier::rlimit(60)]
    pub fn lay_out<D: BlockDevice>(
        &self,
        device: &mut D,
        overflow_area_offset: u64,
        overflow_area_cap_regions: usize,
    ) -> (r: Result<(LoadedNode<ForwardIndexKey, ForwardIndexValue>, usize), IndexError>)
        requires
            self.wf(),
        ensures
            old(device).reliable() ==> final(device).reliable(),
            forward_laid(
                self.items(),
                old(device).contents(),
                final(device).contents(),
                old(device).reliable(),
                overflow_area_offset as int,
                overflow_area_cap_regions as int,
                r,
            ),
    {
        let total = self.entries.len();
        let ghost items = self.items();
        let ghost ls = packed_lists(items);
        let ghost area = overflow_area_offset as int;
        let ghost cap = overflow_area_cap_regions as int;
        let ghost start = device.contents();
        let ghost mut writes: Seq<SlotWrite> = Seq::empty();
        let mut leaves: Vec<(ForwardIndexKey, ForwardIndexValue)> = Vec::new();
        let mut next_slot: usize = 0;
        let mut i: usize = 0;
        proof {
            assert(all_laid(writes, ls, area, 0));
        }
        while i < total
            invariant
                i <= total,
                total == items.len(),
                items == self.items(),
                self.wf(),
                ls == packed_lists(items),
                area == overflow_area_offset,
                cap == overflow_area_cap_regions,
                start == old(device).contents(),
                old(device).reliable() ==> device.reliable(),
                next_slot == slots_before(ls, i as int),
                next_slot <= cap,
                leaves@.len() == i,
                forall|k: int|
                    0 <= k < i ==> (#[trigger] leaves@[k]).0 == (ForwardIndexKey {
                        oid: items[k].0,
                        snapshot: 0,
                    }) && leaves@[k].1.0@ == entry_value(ls, area, k),
                forall|k: int| 0 <= k < i ==> #[trigger] list_fault(ls, cap, k) is None,
                all_laid(writes, ls, area, i as int),
                device.contents() == written(start, area, writes),
                device.contents().len() == start.len(),
                next_slot > 0 ==> slot_offset(area, next_slot as int) <= start.len(),
            decreases total - i,
        {
            let oid: u64 = *self.entries.key_at(i);
            let list = self.entries.value_at(i);
            let packed = pack_assertions(list);
            proof {
                assert(items[i as int] == self.entries.items()[i as int]);
                assert(packed@ == ls[i as int]);
                assert(slots_before(ls, i + 1) == slots_before(ls, i as int) + if ls[i as int].len()
                    > 8 {
                    chunk_count(ls[i as int].len())
                } else {
                    0
                });
            }
            if packed.len() > 0x7FFF {
                let e = IndexError::AssertionCountOverflow { count: packed.len() };
                proof {
                    assert(list_fault(ls, cap, i as int) == Some(e));
                }
                return Err(e);
            }
            let mut tail: Vec<u8> = Vec::new();
            if packed.len() <= 8 {
                put_le(&mut tail, packed.len() as u64, 2);
                put_packed(&mut tail, &packed, 0, packed.len());
                proof {
                    assert(packed@.subrange(0, packed@.len() as int) =~= packed@);
                    assert(tail@ =~= entry_value(ls, area, i as int));
                    assert(list_fault(ls, cap, i as int) is None);
                    assert(all_laid(writes, ls, area, i + 1)) by {
                        assert forall|j: int|
                            0 <= j < i + 1 && (#[trigger] ls[j]).len() > 8 implies lays_out(
                            writes.subrange(
                                slots_before(ls, j) as int,
                                slots_before(ls, j + 1) as int,
                            ),
                            ls[j],
                            area,
                            slots_before(ls, j) as int,
                        ) by {
                            assert(j < i);
                        }
                    }
                }
            } else {
                let ghost before = device.contents();
                let ghost w1 = writes;
                let ghost slot0 = next_slot as int;
                let head = match write_overflow_chain(
                    device,
                    overflow_area_offset,
                    overflow_area_cap_regions,
                    &mut next_slot,
                    &packed,
                ) {
                    Ok(h) => h,
                    Err(e) => {
                        proof {
                            if e is OverflowAreaExhausted {
                                assert(list_fault(ls, cap, i as int) == Some(e));
                            } else {
                                assert(list_fault(ls, cap, i as int) is None);
                            }
                        }
                        return Err(e);
                    },
                };
                put_le(&mut tail, packed.len() as u64 + 0x8000, 2);
                head.put(&mut tail);
                proof {
                    assert(tail@ =~= entry_value(ls, area, i as int));
                    assert(list_fault(ls, cap, i as int) is None);
                    let w2 = choose|w: Seq<SlotWrite>|
                        #[trigger] lays_out(w, packed@, area, slot0) && device.contents()
                            == written(before, area, w);
                    writes = w1 + w2;
                    lemma_written_join(start, area, w1, w2);
                    assert(all_laid(writes, ls, area, i + 1)) by {
                        assert forall|j: int|
                            0 <= j < i + 1 && (#[trigger] ls[j]).len() > 8 implies lays_out(
                            writes.subrange(
                                slots_before(ls, j) as int,
                                slots_before(ls, j + 1) as int,
                            ),
                            ls[j],
                            area,
                            slots_before(ls, j) as int,
                        ) by {
                            if j < i {
                                lemma_slots_grow(ls, j + 1, i as int);
                                lemma_slots_grow(ls, j, j + 1);
                                assert(writes.subrange(
                                    slots_before(ls, j) as int,
                                    slots_before(ls, j + 1) as int,
                                ) =~= w1.subrange(
                                    slots_before(ls, j) as int,
                                    slots_before(ls, j + 1) as int,
                                ));
                            } else {
                                assert(writes.subrange(
                                    slots_before(ls, j) as int,
                                    slots_before(ls, j + 1) as int,
                                ) =~= w2);
                            }
                        }
                    }
                    crate::index::overflow_chain::lemma_laid_len(before, w2, packed@, area, slot0);
                }
            }
            leaves.push((ForwardIndexKey { oid, snapshot: 0 }, ForwardIndexValue(tail)));
            i = i + 1;
        }
        if leaves.len() == 0 {
            Ok((LoadedNode::new(BtreeKind::Forward, 0, REGION_SIZE_LOG2), next_slot))
        } else {
            Ok((LoadedNode::with_run(BtreeKind::Forward, 0, REGION_SIZE_LOG2, leaves), next_slot))
        }
    }

    /// Write the index: its chains to the overflow area, its directory to the
    /// region at `dir_offset` on `device`. Gives the number of regions used.
    /// `encode` turns the runs of the directory into bytes.
    pub fn flush_to_region<
        D: BlockDevice,
        F: Fn(&Vec<SortedRun<ForwardIndexKey, ForwardIndexValue>>) -> Result<Vec<u8>, StorageError>,
    >(
        &self,
        device: &mut D,
        dir_offset: u64,
        overflow_area_offset: u64,
        overflow_area_cap_regions: usize,
        encode: F,
    ) -> (r: Result<usize, IndexError>)
        requires
            self.wf(),
            forall|runs: &Vec<SortedRun<ForwardIndexKey, ForwardIndexValue>>|
                encode.requires((runs,)),
        ensures
            old(device).reliable() ==> final(device).reliable(),
            exists|
                mid: Seq<u8>,
                laid: Result<(LoadedNode<ForwardIndexKey, ForwardIndexValue>, usize), IndexError>,
            |
                #[trigger] forward_laid(
                    self.items(),
                    old(device).contents(),
                    mid,
                    old(device).reliable(),
                    overflow_area_offset as int,
                    overflow_area_cap_regions as int,
                    laid,
                ) && match laid {
                    Err(e) => r == Err::<usize, IndexError>(e) && final(device).contents() == mid,
                    Ok((node, used)) => exists|
                        encoded: Result<Vec<u8>, StorageError>,
                        stored: Result<(), StorageError>,
                    |
                        {
                            &&& #[trigger] encode.ensures((&node.sorted_runs,), encoded)
                            &&& #[trigger] node_stored(
                                mid,
                                final(device).contents(),
                                old(device).reliable(),
                                dir_offset as int,
                                node.header,
                                encoded,
                                stored,
                            )
                            &&& r == match stored {
                                Ok(_) => Ok::<usize, IndexError>(used),
                                Err(e) => Err(IndexError::Storage(e)),
                            }
                        },
                },
    {
        let ghost before = device.contents();
        let ghost reliable = device.reliable();
        let laid = self.lay_out(device, overflow_area_offset, overflow_area_cap_regions);
        let ghost mid = device.contents();
        let ghost mid_reliable = device.reliable();
        match laid {
            Err(e) => Err(e),
            Ok((node, used)) => {
                let stored = store_node(device, dir_offset, &node, encode);
                proof {
                    let encoded = choose|encoded: Result<Vec<u8>, StorageError>|
                        #[trigger] encode.ensures((&node.sorted_runs,), encoded) && node_stored(
                            mid,
                            device.contents(),
                            mid_reliable,
                            dir_offset as int,
                            node.header,
                            encoded,
                            stored,
                        );
                    assert(node_stored(
                        mid,
                        device.contents(),
                        reliable,
                        dir_offset as int,
                        node.header,
                        encoded,
                        stored,
                    ));
                    assert(forward_laid(
                        self.items(),
                        before,
                        mid,
                        reliable,
                        overflow_area_offset as int,
                        overflow_area_cap_regions as int,
                        Ok((node, used)),
                    ));
                }
                match stored {
                    Ok(_) => Ok(used),
                    Err(e) => Err(IndexError::Storage(e)),
                }
            },
        }
    }

    /// Read the index from the directory region at `dir_offset` on `device` and
    /// the chains that it refers to; a blank region is the empty index.
    /// `decode` turns the bytes of the directory's runs into runs.
    pub fn load_from_region<
        D: BlockDevice,
        G: Fn(Vec<u8>) -> Result<Vec<SortedRun<ForwardIndexKey, ForwardIndexValue>>, StorageError>,
    >(device: &D, dir_offset: u64, decode: G) -> (r: Result<Self, IndexError>)
        requires
            forall|bytes: Vec<u8>| decode.requires((bytes,)),
        ensures
            r is Ok ==> r->Ok_0.wf(),
            exists|
                read: Result<Option<LoadedNode<ForwardIndexKey, ForwardIndexValue>>, StorageError>,
            |
                #[trigger] node_loaded(
                    device.contents(),
                    device.reliable(),
                    dir_offset as int,
                    Some(BtreeKind::Forward),
                    decode,
                    read,
                ) && forward_read(
                    device.contents(),
                    device.reliable(),
                    read,
                    match r {
                        Ok(i) => Ok(i@),
                        Err(e) => Err(e),
                    },
                ),
    {
        match load_node(device, dir_offset, Some(BtreeKind::Forward), decode) {
            Ok(Some(node)) => ForwardIndex::load_from_node(device, &node),
            Ok(None) => Ok(ForwardIndex::new()),
            Err(e) => Err(IndexError::Storage(e)),
        }
    }

    /// Read the index back from its directory node, and the chains that the
    /// node refers to from `device`.
    pub fn load_from_node<D: BlockDevice>(
        device: &D,
        node: &LoadedNode<ForwardIndexKey, ForwardIndexValue>,
    ) -> (r: Result<Self, IndexError>)
        ensures
            (!device.reliable() && r is Err && r->Err_0 is Storage) || match loaded(
                device.contents(),
                node.entries(),
                node.entries().len() as int,
            ) {
                Ok(m) => r is Ok && r->Ok_0.wf() && r->Ok_0@ == m,
                Err(f) => r is Err && load_reports(r->Err_0, f),
            },
    {
        let all = node.merge_iter();
        let ghost es = node.entries();
        let ghost c = device.contents();
        let mut entries: OrdMap<u64, Vec<(Assertion, TagOrigin)>> = OrdMap::new();
        let mut i: usize = 0;
        proof {
            assert(entries@.map_values(|v: Vec<(Assertion, TagOrigin)>| list_model(v@)) =~= Map::<
                u64,
                Seq<(AssertionModel, TagOrigin)>,
            >::empty());
        }
        while i < all.len()
            invariant
                i <= es.len(),
                es == node.entries(),
                c == device.contents(),
                all@.len() == es.len(),
                forall|j: int| 0 <= j < all@.len() ==> *(#[trigger] all@[j]) == es[j],
                entries.wf(),
                loaded(c, es, i as int) == Ok::<
                    Map<u64, Seq<(AssertionModel, TagOrigin)>>,
                    LoadFault,
                >(entries@.map_values(|v: Vec<(Assertion, TagOrigin)>| list_model(v@))),
            decreases es.len() - i,
        {
            let entry = all[i];
            proof {
                assert(*all@[i as int] == es[i as int]);
            }
            match read_entry(device, entry.1.0.as_slice()) {
                Ok(list) => {
                    let ghost before = entries@;
                    entries.insert(entry.0.oid, list);
                    proof {
                        assert(entries@.map_values(
                            |v: Vec<(Assertion, TagOrigin)>| list_model(v@),
                        ) =~= before.map_values(
                            |v: Vec<(Assertion, TagOrigin)>| list_model(v@),
                        ).insert(entry.0.oid, list_model(list@)));
                    }
                },
                Err(e) => {
                    proof {
                        if entry_list(c, es[i as int].1.0@) is Err {
                            lemma_loaded_fault(c, es, i + 1, es.len() as int);
                        }
                    }
                    return Err(e);
                },
            }
            i = i + 1;
        }
        Ok(ForwardIndex { entries })
    }
}

/// The list of `key` in the raw map.
spec fn self_list(m: Map<u64, Vec<(Assertion, TagOrigin)>>, key: u64) -> Seq<
    (AssertionModel, TagOrigin),
> {
    if m.contains_key(key) {
        list_model(m[key]@)
    } else {
        Seq::empty()
    }
}

/// Read what one directory entry stands for.
fn read_entry<D: BlockDevice>(device: &D, bytes: &[u8]) -> (r: Result<
    Vec<(Assertion, TagOrigin)>,
    IndexError,
>)
    ensures
        (!device.reliable() && r is Err && r->Err_0 is Storage) || match entry_list(
            device.contents(),
            bytes@,
        ) {
            Ok(l) => r is Ok && list_model(r->Ok_0@) == l,
            Err(f) => r is Err && load_reports(r->Err_0, f),
        },
{
    if bytes.len() < 2 {
        return Err(IndexError::BufferTooSmall { need: 2, have: bytes.len() });
    }
    let header = get_u16(bytes, 0);
    proof {
        crate::bytes::lemma_pow256_values();
        crate::bytes::lemma_le_value_of_le(header as nat, 2);
        assert(header as nat == header_value(bytes@));
    }
    let rest: usize = bytes.len() - 2;
    let ghost body = bytes@.skip(2);
    let total: usize = (header % 0x8000) as usize;
    let packed: Vec<PackedAssertion> = if header >= LEAF_ENTRY_SPILL_FLAG {
        if rest < 16 {
            return Err(IndexError::BufferTooSmall { need: 16, have: rest });
        }
        let head = BlockRef::get(bytes, 2);
        proof {
            assert(body.take(16) =~= bytes@.subrange(2, 18));
            let b = choose|b: BlockRef| b.image() == body.take(16);
            BlockRef::image_injective(b, head);
        }
        match read_overflow_chain(device, head, total) {
            Ok(p) => {
                proof {
                    lemma_chain_result(device.contents(), head, total as nat);
                }
                p
            },
            Err(e) => {
                proof {
                    lemma_chain_result(device.contents(), head, total as nat);
                }
                return Err(e);
            },
        }
    } else {
        let need: usize = total * 16;
        if rest < need {
            return Err(IndexError::BufferTooSmall { need, have: rest });
        }
        let p = get_packed(bytes, 2, total);
        proof {
            assert(body.take(16 * total as int) =~= bytes@.subrange(2, 2 + 16 * total));
            let q = choose|q: Seq<PackedAssertion>|
                q.len() == total && #[trigger] packed_images(q, q.len() as int) == body.take(
                    16 * total as int,
                );
            assert(p@.len() == total && packed_images(p@, p@.len() as int) == body.take(
                16 * total as int,
            ));
            crate::index::packed::lemma_packed_injective(p@, q);
        }
        p
    };
    unpack_assertions(&packed)
}

proof fn lemma_chain_result(contents: Seq<u8>, head: BlockRef, expected: nat)
    ensures
        forall|g: Result<Seq<PackedAssertion>, ChainFault>| #[trigger]
            chain_gives(contents, head, expected, 0, Seq::empty(), g) ==> g == chain_result(
                contents,
                head,
                expected,
            ),
{
    assert forall|g: Result<Seq<PackedAssertion>, ChainFault>| #[trigger]
        chain_gives(contents, head, expected, 0, Seq::empty(), g) implies g == chain_result(
        contents,
        head,
        expected,
    ) by {
        let h = chain_result(contents, head, expected);
        lemma_chain_unique(contents, head, expected, 0, Seq::empty(), g, h);
    }
}

fn unpack_assertions(packed: &Vec<PackedAssertion>) -> (r: Result<
    Vec<(Assertion, TagOrigin)>,
    IndexError,
>)
    ensures
        match unpacked_list(packed@, packed@.len() as int) {
            Ok(l) => r is Ok && list_model(r->Ok_0@) == l,
            Err(e) => r == Err::<Vec<(Assertion, TagOrigin)>, IndexError>(e),
        },
{
    let mut out: Vec<(Assertion, TagOrigin)> = Vec::new();
    let mut i: usize = 0;
    proof {
        assert(list_model(out@) =~= Seq::empty());
    }
    while i < packed.len()
        invariant
            i <= packed@.len(),
            unpacked_list(packed@, i as int) == Ok::<Seq<(AssertionModel, TagOrigin)>, IndexError>(
                list_model(out@),
            ),
        decreases packed@.len() - i,
    {
        match packed[i].to_logical(None) {
            Ok(a) => {
                let ghost before = list_model(out@);
                out.push(a);
                proof {
                    assert(list_model(out@) =~= before.push((a.0@, a.1)));
                }
            },
            Err(e) => {
                proof {
                    lemma_unpack_fault(packed@, i + 1, packed@.len() as int);
                }
                return Err(e);
            },
        }
        i = i + 1;
    }
    Ok(out)
}

fn pack_assertions(list: &Vec<(Assertion, TagOrigin)>) -> (r: Vec<PackedAssertion>)
    ensures
        r@ == packed_list(list_model(list@)),
{
    let mut out: Vec<PackedAssertion> = Vec::new();
    let mut i: usize = 0;
    while i < list.len()
        invariant
            i <= list@.len(),
            out@ =~= packed_list(list_model(list@)).take(i as int),
        decreases list@.len() - i,
    {
        out.push(PackedAssertion::pack(&list[i].0, list[i].1));
        i = i + 1;
    }
    out
}

/// What entries make up comes from one of them.
proof fn lemma_entered(entries: Seq<(u64, Vec<(Assertion, TagOrigin)>)>, k: int)
    requires
        0 <= k <= entries.len(),
    ensures
        forall|id: u64| #[trigger]
            entered(entries, k).contains_key(id) ==> exists|i: int|
                {
                    &&& 0 <= i < k
                    &&& (#[trigger] entries[i]).0 == id
                    &&& entered(entries, k)[id] == list_model(entries[i].1@)
                },
        forall|i: int| 0 <= i < k ==> entered(entries, k).contains_key((#[trigger] entries[i]).0),
    decreases k,
{
    if k > 0 {
        lemma_entered(entries, k - 1);
        let a = entered(entries, k - 1);
        let b = entered(entries, k);
        assert forall|id: u64| #[trigger] b.contains_key(id) implies exists|i: int|
            {
                &&& 0 <= i < k
                &&& (#[trigger] entries[i]).0 == id
                &&& b[id] == list_model(entries[i].1@)
            } by {
            if id == entries[k - 1].0 {
                assert(b[id] == list_model(entries[k - 1].1@));
            } else {
                assert(a.contains_key(id));
                let i = choose|i: int|
                    {
                        &&& 0 <= i < k - 1
                        &&& (#[trigger] entries[i]).0 == id
                        &&& a[id] == list_model(entries[i].1@)
                    };
                assert(entries[i].0 == id && b[id] == list_model(entries[i].1@));
            }
        }
    }
}

fn copy_assertions(v: &Vec<(Assertion, TagOrigin)>) -> (r: Vec<(Assertion, TagOrigin)>)
    ensures
        list_model(r@) == list_model(v@),
{
    let mut out: Vec<(Assertion, TagOrigin)> = Vec::new();
    let mut i: usize = 0;
    while i < v.len()
        invariant
            i <= v@.len(),
            list_model(out@) =~= list_model(v@).take(i as int),
        decreases v@.len() - i,
    {
        let ghost before = list_model(out@);
        out.push((v[i].0.duplicate(), v[i].1));
        proof {
            assert(list_model(out@) =~= before.push((v@[i as int].0@, v@[i as int].1)));
        }
        i = i + 1;
    }
    out
}

fn find_assertion(v: &Vec<(Assertion, TagOrigin)>, a: &Assertion) -> (r: Option<usize>)
    ensures
        match r {
            Some(i) => first_match(list_model(v@), a@, i as int),
            None => forall|i: int|
                0 <= i < v@.len() ==> !assertion_eq((#[trigger] list_model(v@)[i]).0, a@),
        },
{
    let ghost l = list_model(v@);
    let mut i: usize = 0;
    while i < v.len()
        invariant
            i <= v@.len(),
            l == list_model(v@),
            forall|j: int| 0 <= j < i ==> !assertion_eq((#[trigger] l[j]).0, a@),
        decreases v@.len() - i,
    {
        proof {
            assert(l[i as int].0 == v@[i as int].0@);
        }
        if v[i].0.same_assertion(a) {
            return Some(i);
        }
        i = i + 1;
    }
    None
}

pub proof fn lemma_slots_grow(ls: Seq<Seq<PackedAssertion>>, a: int, b: int)
    requires
        a <= b,
    ensures
        slots_before(ls, a) <= slots_before(ls, b),
    decreases b - a,
{
    if a < b {
        lemma_slots_grow(ls, a, b - 1);
    }
}

proof fn lemma_loaded_fault(
    c: Seq<u8>,
    es: Seq<(ForwardIndexKey, ForwardIndexValue)>,
    k: int,
    n: int,
)
    requires
        0 <= k <= n,
        loaded(c, es, k) is Err,
    ensures
        loaded(c, es, n) == loaded(c, es, k),
    decreases n - k,
{
    if k < n {
        lemma_loaded_fault(c, es, k, n - 1);
    }
}

proof fn lemma_unpack_fault(p: Seq<PackedAssertion>, k: int, n: int)
    requires
        0 <= k <= n,
        unpacked_list(p, k) is Err,
    ensures
        unpacked_list(p, n) == unpacked_list(p, k),
    decreases n - k,
{
    if k < n {
        lemma_unpack_fault(p, k, n - 1);
    }
}

} // verus!
