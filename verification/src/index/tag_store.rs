//! The members of a tag, plain, in a sequence or ranked.

use vstd::prelude::*;
use crate::index::bitmap::{bitmap_bytes, bitmap_clone, bitmap_contains, bitmap_decoded, bitmap_from_bytes,
    bitmap_insert, bitmap_is_empty, bitmap_len, bitmap_new, bitmap_numbers, bitmap_remove,
    bitmap_set, bitmap_to_bytes, numbers_ascend};
use crate::index::error::IndexError;
use crate::sorting::{stable_sort, stably_sorted, Ranked};
use crate::text::{dec, push_dec};
use crate::types::id::ObjectId;

verus! {

/// How a tag keeps its members.
#[derive(Clone, Copy, Debug, PartialEq, Eq, Structural)]
pub enum TagStoreKind {
    Simple,
    /// With a sequence.
    Ordered,
    /// With scores.
    Ranked,
}

impl TagStoreKind {
    /// The number that stands for the kind on disk.
    pub open spec fn number(&self) -> u8 {
        match self {
            TagStoreKind::Simple => 0,
            TagStoreKind::Ordered => 1,
            TagStoreKind::Ranked => 2,
        }
    }

    /// The number that stands for the kind on disk.
    pub fn to_u8(&self) -> (r: u8)
        ensures
            r == self.number(),
    {
        match self {
            TagStoreKind::Simple => 0,
            TagStoreKind::Ordered => 1,
            TagStoreKind::Ranked => 2,
        }
    }

    /// The kind that a number stands for.
    pub fn from_u8(value: u8) -> (r: Result<Self, IndexError>)
        ensures
            match r {
                Ok(k) => k.number() == value,
                Err(e) => value > 2 && e == IndexError::InvalidAssertionKind(value),
            },
    {
        match value {
            0 => Ok(TagStoreKind::Simple),
            1 => Ok(TagStoreKind::Ordered),
            2 => Ok(TagStoreKind::Ranked),
            other => Err(IndexError::InvalidAssertionKind(other)),
        }
    }
}

/// The members of a tag.
#[derive(Debug)]
pub enum TagStore {
    Simple(roaring::RoaringBitmap),
    /// The sequence is that of a curated list.
    Ordered { members: roaring::RoaringBitmap, sequence: Vec<ObjectId> },
    /// The highest score comes first.
    Ranked { members: roaring::RoaringBitmap, ranked: Vec<(ObjectId, i64)> },
}

/// The mathematical content of a [`TagStore`].
pub ghost enum StoreModel {
    Simple(Set<u32>),
    Ordered(Set<u32>, Seq<ObjectId>),
    Ranked(Set<u32>, Seq<(ObjectId, i64)>),
}

impl StoreModel {
    /// The members.
    pub open spec fn members(self) -> Set<u32> {
        match self {
            StoreModel::Simple(m) => m,
            StoreModel::Ordered(m, _) => m,
            StoreModel::Ranked(m, _) => m,
        }
    }

    /// The same store with other members.
    pub open spec fn with_members(self, m: Set<u32>) -> StoreModel {
        match self {
            StoreModel::Simple(_) => StoreModel::Simple(m),
            StoreModel::Ordered(_, s) => StoreModel::Ordered(m, s),
            StoreModel::Ranked(_, s) => StoreModel::Ranked(m, s),
        }
    }

    pub open spec fn kind(self) -> TagStoreKind {
        match self {
            StoreModel::Simple(_) => TagStoreKind::Simple,
            StoreModel::Ordered(_, _) => TagStoreKind::Ordered,
            StoreModel::Ranked(_, _) => TagStoreKind::Ranked,
        }
    }

    /// The store without an object: it leaves the members, and the sequence
    /// or the ranking.
    pub open spec fn without(self, oid: ObjectId) -> StoreModel {
        let m = self.members().remove(entry_of(oid));
        match self {
            StoreModel::Simple(_) => StoreModel::Simple(m),
            StoreModel::Ordered(_, s) => StoreModel::Ordered(m, s.filter(other_than(oid))),
            StoreModel::Ranked(_, s) => StoreModel::Ranked(
                m,
                s.filter(entry_other_than(oid)),
            ),
        }
    }
}

impl Clone for TagStore {
    fn clone(&self) -> (r: Self)
        ensures
            r@ == self@,
    {
        self.duplicate()
    }
}

impl View for TagStore {
    type V = StoreModel;

    open spec fn view(&self) -> StoreModel {
        match self {
            TagStore::Simple(b) => StoreModel::Simple(bitmap_set(*b)),
            TagStore::Ordered { members, sequence } => StoreModel::Ordered(
                bitmap_set(*members),
                sequence@,
            ),
            TagStore::Ranked { members, ranked } => StoreModel::Ranked(
                bitmap_set(*members),
                ranked@,
            ),
        }
    }
}

impl TagStore {
    /// The bitmap of the members.
    pub open spec fn bitmap(&self) -> roaring::RoaringBitmap {
        match self {
            TagStore::Simple(b) => *b,
            TagStore::Ordered { members, .. } => *members,
            TagStore::Ranked { members, .. } => *members,
        }
    }
}

/// Every object but this one.
pub open spec fn other_than(oid: ObjectId) -> spec_fn(ObjectId) -> bool {
    |o: ObjectId| o != oid
}

/// Every entry but those of this object.
pub open spec fn entry_other_than(oid: ObjectId) -> spec_fn((ObjectId, i64)) -> bool {
    |e: (ObjectId, i64)| e.0 != oid
}

/// The number that stands for an object in a bitmap: the low half of its id.
pub open spec fn entry_of(oid: ObjectId) -> u32 {
    (oid.raw % 0x1_0000_0000) as u32
}

/// The number that stands for an object in a bitmap.
pub fn bitmap_entry(oid: ObjectId) -> (r: u32)
    ensures
        r == entry_of(oid),
{
    (oid.to_u64() % 0x1_0000_0000) as u32
}

/// `s` lists the numbers of `m` as ids, in ascending order.
pub open spec fn lists_members(s: Seq<ObjectId>, m: Set<u32>) -> bool {
    &&& forall|i: int, j: int| 0 <= i < j < s.len() ==> (#[trigger] s[i]).raw < (#[trigger] s[j]).raw
    &&& forall|i: int|
        0 <= i < s.len() ==> (#[trigger] s[i]).raw <= u32::MAX && m.contains(s[i].raw as u32)
    &&& forall|x: u32| #[trigger]
        m.contains(x) ==> exists|i: int| 0 <= i < s.len() && (#[trigger] s[i]).raw == x
}

/// The objects of a ranking.
pub open spec fn ranked_ids(s: Seq<(ObjectId, i64)>) -> Seq<ObjectId> {
    s.map_values(|e: (ObjectId, i64)| e.0)
}

impl Ranked for (ObjectId, i64) {
    open spec fn rank(&self) -> int {
        -(self.1 as int)
    }

    fn ranks_before(&self, other: &Self) -> (r: bool) {
        self.1 > other.1
    }
}

/// The ids of the bitmap's numbers.
fn ids_of_bitmap(b: &roaring::RoaringBitmap) -> (r: Vec<ObjectId>)
    ensures
        lists_members(r@, bitmap_set(*b)),
{
    let numbers = bitmap_numbers(b);
    let mut out: Vec<ObjectId> = Vec::new();
    let mut i: usize = 0;
    while i < numbers.len()
        invariant
            i <= numbers@.len(),
            out@.len() == i,
            forall|j: int| 0 <= j < i ==> (#[trigger] out@[j]).raw == numbers@[j],
        decreases numbers@.len() - i,
    {
        out.push(ObjectId::from_u64(numbers[i] as u64));
        i = i + 1;
    }
    proof {
        let m = bitmap_set(*b);
        assert(numbers_ascend(numbers@));
        assert forall|j: int| 0 <= j < out@.len() implies (#[trigger] out@[j]).raw <= u32::MAX
            && m.contains(out@[j].raw as u32) by {
            assert(numbers@.contains(numbers@[j]));
            assert(numbers@.to_set().contains(numbers@[j]));
        }
        assert forall|x: u32| #[trigger] m.contains(x) implies exists|j: int|
            0 <= j < out@.len() && (#[trigger] out@[j]).raw == x by {
            assert(numbers@.to_set().contains(x));
            let j = choose|j: int| 0 <= j < numbers@.len() && numbers@[j] == x;
            assert(out@[j].raw == x);
        }
    }
    out
}

impl TagStore {
    /// A plain store without members.
    pub fn new_simple() -> (r: Self)
        ensures
            r@ == StoreModel::Simple(Set::empty()),
    {
        TagStore::Simple(bitmap_new())
    }

    /// A store with an empty sequence.
    pub fn new_ordered() -> (r: Self)
        ensures
            r@ == StoreModel::Ordered(Set::empty(), Seq::empty()),
    {
        TagStore::Ordered { members: bitmap_new(), sequence: Vec::new() }
    }

    /// A store with an empty ranking.
    pub fn new_ranked() -> (r: Self)
        ensures
            r@ == StoreModel::Ranked(Set::empty(), Seq::empty()),
    {
        TagStore::Ranked { members: bitmap_new(), ranked: Vec::new() }
    }

    /// The members.
    pub fn members(&self) -> (r: &roaring::RoaringBitmap)
        ensures
            *r == self.bitmap(),
            bitmap_set(*r) == self@.members(),
    {
        match self {
            TagStore::Simple(b) => b,
            TagStore::Ordered { members, .. } => members,
            TagStore::Ranked { members, .. } => members,
        }
    }

    /// The members, to write to.
    pub fn members_mut(&mut self) -> (r: &mut roaring::RoaringBitmap)
        ensures
            bitmap_set(*r) == old(self)@.members(),
            final(self)@ == old(self)@.with_members(bitmap_set(*final(r))),
    {
        match self {
            TagStore::Simple(b) => b,
            TagStore::Ordered { members, .. } => members,
            TagStore::Ranked { members, .. } => members,
        }
    }

    /// The sequence, where there is one.
    pub fn sequence(&self) -> (r: Option<&Vec<ObjectId>>)
        ensures
            match self@ {
                StoreModel::Ordered(_, s) => r is Some && r->Some_0@ == s,
                _ => r is None,
            },
    {
        match self {
            TagStore::Ordered { sequence, .. } => Some(sequence),
            _ => None,
        }
    }

    /// The ranking, where there is one.
    pub fn ranked(&self) -> (r: Option<&Vec<(ObjectId, i64)>>)
        ensures
            match self@ {
                StoreModel::Ranked(_, s) => r is Some && r->Some_0@ == s,
                _ => r is None,
            },
    {
        match self {
            TagStore::Ranked { ranked, .. } => Some(ranked),
            _ => None,
        }
    }

    /// Add a member. A sequence or ranking stays as it is.
    pub fn add_member(&mut self, oid: ObjectId)
        ensures
            final(self)@ == old(self)@.with_members(old(self)@.members().insert(entry_of(oid))),
    {
        let entry = bitmap_entry(oid);
        bitmap_insert(self.members_mut(), entry);
    }

    /// Remove an object from the members and from the sequence or ranking.
    /// Whether it was a member.
    pub fn remove_member(&mut self, oid: ObjectId) -> (r: bool)
        ensures
            r == old(self)@.members().contains(entry_of(oid)),
            final(self)@ == old(self)@.without(oid),
    {
        let entry = bitmap_entry(oid);
        let present = bitmap_remove(self.members_mut(), entry);
        match self {
            TagStore::Ordered { sequence, .. } => {
                *sequence = sequence_without(sequence, oid);
            },
            TagStore::Ranked { ranked, .. } => {
                *ranked = ranking_without(ranked, oid);
            },
            TagStore::Simple(_) => {},
        }
        present
    }

    /// Append an object to the sequence and add it to the members. Nothing
    /// happens where there is no sequence.
    pub fn push_ordered(&mut self, oid: ObjectId)
        ensures
            final(self)@ == match old(self)@ {
                StoreModel::Ordered(m, s) => StoreModel::Ordered(
                    m.insert(entry_of(oid)),
                    s.push(oid),
                ),
                other => other,
            },
    {
        match self {
            TagStore::Ordered { members, sequence } => {
                bitmap_insert(members, bitmap_entry(oid));
                sequence.push(oid);
            },
            _ => {},
        }
    }

    /// Put an object into the ranking and add it to the members. The highest
    /// score comes first; of equal scores the one that came first. Nothing
    /// happens where there is no ranking.
    pub fn insert_ranked(&mut self, oid: ObjectId, score: i64)
        ensures
            match old(self)@ {
                StoreModel::Ranked(m, s) => match final(self)@ {
                    StoreModel::Ranked(n, t) => n == m.insert(entry_of(oid)) && stably_sorted(
                        s.push((oid, score)),
                        t,
                    ) && t.to_multiset() == s.push((oid, score)).to_multiset(),
                    _ => false,
                },
                other => final(self)@ == other,
            },
    {
        match self {
            TagStore::Ranked { members, ranked } => {
                bitmap_insert(members, bitmap_entry(oid));
                let mut list = ranking_copy(ranked);
                list.push((oid, score));
                *ranked = stable_sort(list);
            },
            _ => {},
        }
    }

    /// How many members there are.
    pub fn cardinality(&self) -> (r: u64)
        ensures
            r == self@.members().len(),
    {
        bitmap_len(self.members())
    }

    /// Whether there are no members.
    pub fn is_empty(&self) -> (r: bool)
        ensures
            r == (self@.members() == Set::<u32>::empty()),
    {
        bitmap_is_empty(self.members())
    }

    /// Whether an object is a member.
    pub fn contains(&self, oid: ObjectId) -> (r: bool)
        ensures
            r == self@.members().contains(entry_of(oid)),
    {
        bitmap_contains(self.members(), bitmap_entry(oid))
    }

    /// How the store keeps its members.
    pub fn kind(&self) -> (r: TagStoreKind)
        ensures
            r == self@.kind(),
    {
        match self {
            TagStore::Simple(_) => TagStoreKind::Simple,
            TagStore::Ordered { .. } => TagStoreKind::Ordered,
            TagStore::Ranked { .. } => TagStoreKind::Ranked,
        }
    }

    /// Give a plain store a sequence: its members in ascending order.
    pub fn upgrade_to_ordered(&mut self)
        ensures
            match old(self)@ {
                StoreModel::Simple(m) => match final(self)@ {
                    StoreModel::Ordered(n, s) => n == m && lists_members(s, m),
                    _ => false,
                },
                other => final(self)@ == other,
            },
    {
        let next: Option<TagStore> = match self {
            TagStore::Simple(b) => Some(
                TagStore::Ordered { members: bitmap_clone(b), sequence: ids_of_bitmap(b) },
            ),
            _ => None,
        };
        match next {
            Some(s) => {
                *self = s;
            },
            None => {},
        }
    }

    /// Give the store a ranking: its members in ascending order, with the
    /// score zero.
    pub fn upgrade_to_ranked(&mut self)
        ensures
            match final(self)@ {
                StoreModel::Ranked(n, s) => {
                    &&& n == old(self)@.members()
                    &&& lists_members(ranked_ids(s), n)
                    &&& forall|i: int| 0 <= i < s.len() ==> (#[trigger] s[i]).1 == 0
                },
                _ => false,
            },
    {
        let members = bitmap_clone(self.members());
        let ids = ids_of_bitmap(&members);
        let mut ranked: Vec<(ObjectId, i64)> = Vec::new();
        let mut i: usize = 0;
        while i < ids.len()
            invariant
                i <= ids@.len(),
                ranked@.len() == i,
                forall|j: int| 0 <= j < i ==> #[trigger] ranked@[j] == (ids@[j], 0i64),
            decreases ids@.len() - i,
        {
            ranked.push((ids[i], 0i64));
            i = i + 1;
        }
        proof {
            assert(ranked_ids(ranked@) =~= ids@);
        }
        *self = TagStore::Ranked { members, ranked };
    }

    /// A copy of the store.
    pub fn duplicate(&self) -> (r: Self)
        ensures
            r@ == self@,
    {
        match self {
            TagStore::Simple(b) => TagStore::Simple(bitmap_clone(b)),
            TagStore::Ordered { members, sequence } => TagStore::Ordered {
                members: bitmap_clone(members),
                sequence: sequence_copy(sequence),
            },
            TagStore::Ranked { members, ranked } => TagStore::Ranked {
                members: bitmap_clone(members),
                ranked: ranking_copy(ranked),
            },
        }
    }

    /// The store as plain data.
    pub fn to_image(&self) -> (r: TagStoreImage)
        ensures
            image_of_store(r, self@),
            r.bitmap_bytes@ == bitmap_bytes(self.bitmap()),
    {
        let form = bitmap_to_bytes(self.members());
        let mut sequence: Vec<u64> = Vec::new();
        let mut ranked: Vec<(u64, i64)> = Vec::new();
        match self {
            TagStore::Simple(_) => {},
            TagStore::Ordered { sequence: s, .. } => {
                let mut i: usize = 0;
                while i < s.len()
                    invariant
                        i <= s@.len(),
                        sequence@ =~= raw_ids(s@.take(i as int)),
                    decreases s@.len() - i,
                {
                    sequence.push(s[i].to_u64());
                    i = i + 1;
                    proof {
                        assert(s@.take(i as int) =~= s@.take(i - 1).push(s@[i - 1]));
                    }
                }
                proof {
                    assert(s@.take(i as int) =~= s@);
                }
            },
            TagStore::Ranked { ranked: s, .. } => {
                let mut i: usize = 0;
                while i < s.len()
                    invariant
                        i <= s@.len(),
                        ranked@ =~= raw_ranking(s@.take(i as int)),
                    decreases s@.len() - i,
                {
                    ranked.push((s[i].0.to_u64(), s[i].1));
                    i = i + 1;
                    proof {
                        assert(s@.take(i as int) =~= s@.take(i - 1).push(s@[i - 1]));
                    }
                }
                proof {
                    assert(s@.take(i as int) =~= s@);
                }
            },
        }
        TagStoreImage { kind: self.kind().to_u8(), bitmap_bytes: form, sequence, ranked }
    }

    /// The store that plain data stand for.
    pub fn from_image(image: TagStoreImage) -> (r: Result<Self, IndexError>)
        ensures
            match store_of_image(image) {
                Ok(m) => r is Ok && r->Ok_0@ == m,
                Err(Some(e)) => r is Err && r->Err_0 is CborDecode && r->Err_0->CborDecode_0@ == e,
                Err(None) => r is Err && r->Err_0 is Roaring,
            },
    {
        let members = match bitmap_from_bytes(image.bitmap_bytes.as_slice()) {
            Ok(b) => b,
            Err(m) => {
                return Err(IndexError::Roaring(m));
            },
        };
        if image.kind == 0 {
            return Ok(TagStore::Simple(members));
        }
        if image.kind == 1 {
            let mut sequence: Vec<ObjectId> = Vec::new();
            let s = &image.sequence;
            let mut i: usize = 0;
            while i < s.len()
                invariant
                    i <= s@.len(),
                    sequence@ =~= ids_of_raw(s@.take(i as int)),
                decreases s@.len() - i,
            {
                sequence.push(ObjectId::from_u64(s[i]));
                i = i + 1;
                proof {
                    assert(s@.take(i as int) =~= s@.take(i - 1).push(s@[i - 1]));
                }
            }
            proof {
                assert(s@.take(i as int) =~= s@);
            }
            return Ok(TagStore::Ordered { members, sequence });
        }
        if image.kind == 2 {
            let mut ranked: Vec<(ObjectId, i64)> = Vec::new();
            let s = &image.ranked;
            let mut i: usize = 0;
            while i < s.len()
                invariant
                    i <= s@.len(),
                    ranked@ =~= ranking_of_raw(s@.take(i as int)),
                decreases s@.len() - i,
            {
                ranked.push((ObjectId::from_u64(s[i].0), s[i].1));
                i = i + 1;
                proof {
                    assert(s@.take(i as int) =~= s@.take(i - 1).push(s@[i - 1]));
                }
            }
            proof {
                assert(s@.take(i as int) =~= s@);
            }
            return Ok(TagStore::Ranked { members, ranked });
        }
        let mut message = String::new();
        message.push_str("unknown TagStore kind: ");
        push_dec(&mut message, image.kind as u64);
        proof {
            assert(message@ =~= "unknown TagStore kind: "@ + dec(image.kind as nat));
        }
        Err(IndexError::CborDecode(message))
    }
}

/// A store as plain data, to be serialised.
#[derive(Clone, Debug)]
pub struct TagStoreImage {
    pub kind: u8,
    pub bitmap_bytes: Vec<u8>,
    pub sequence: Vec<u64>,
    pub ranked: Vec<(u64, i64)>,
}

pub open spec fn raw_ids(s: Seq<ObjectId>) -> Seq<u64> {
    s.map_values(|o: ObjectId| o.raw)
}

pub open spec fn raw_ranking(s: Seq<(ObjectId, i64)>) -> Seq<(u64, i64)> {
    s.map_values(|e: (ObjectId, i64)| (e.0.raw, e.1))
}

pub open spec fn ids_of_raw(s: Seq<u64>) -> Seq<ObjectId> {
    s.map_values(|o: u64| ObjectId { raw: o })
}

pub open spec fn ranking_of_raw(s: Seq<(u64, i64)>) -> Seq<(ObjectId, i64)> {
    s.map_values(|e: (u64, i64)| (ObjectId { raw: e.0 }, e.1))
}

/// `image` is the store `m` as plain data.
pub open spec fn image_of_store(image: TagStoreImage, m: StoreModel) -> bool {
    &&& image.kind == m.kind().number()
    &&& bitmap_decoded(image.bitmap_bytes@) == Some(m.members())
    &&& image.sequence@ == match m {
        StoreModel::Ordered(_, s) => raw_ids(s),
        _ => Seq::empty(),
    }
    &&& image.ranked@ == match m {
        StoreModel::Ranked(_, s) => raw_ranking(s),
        _ => Seq::empty(),
    }
}

/// The store that plain data stand for; the message where the kind is not
/// known, nothing where the bytes are not those of a bitmap.
pub open spec fn store_of_image(image: TagStoreImage) -> Result<StoreModel, Option<Seq<char>>> {
    match bitmap_decoded(image.bitmap_bytes@) {
        None => Err(None),
        Some(m) => if image.kind == 0 {
            Ok(StoreModel::Simple(m))
        } else if image.kind == 1 {
            Ok(StoreModel::Ordered(m, ids_of_raw(image.sequence@)))
        } else if image.kind == 2 {
            Ok(StoreModel::Ranked(m, ranking_of_raw(image.ranked@)))
        } else {
            Err(Some("unknown TagStore kind: "@ + dec(image.kind as nat)))
        },
    }
}

/// A store is what its plain data stand for.
pub proof fn store_image_round_trip(image: TagStoreImage, m: StoreModel)
    requires
        image_of_store(image, m),
    ensures
        store_of_image(image) == Ok::<StoreModel, Option<Seq<char>>>(m),
{
    match m {
        StoreModel::Simple(_) => {},
        StoreModel::Ordered(_, s) => {
            assert(ids_of_raw(raw_ids(s)) =~= s);
        },
        StoreModel::Ranked(_, s) => {
            assert(ranking_of_raw(raw_ranking(s)) =~= s);
        },
    }
}

fn sequence_copy(s: &Vec<ObjectId>) -> (r: Vec<ObjectId>)
    ensures
        r@ == s@,
{
    let mut out: Vec<ObjectId> = Vec::new();
    let mut i: usize = 0;
    while i < s.len()
        invariant
            i <= s@.len(),
            out@ =~= s@.take(i as int),
        decreases s@.len() - i,
    {
        out.push(s[i]);
        i = i + 1;
    }
    out
}

fn ranking_copy(s: &Vec<(ObjectId, i64)>) -> (r: Vec<(ObjectId, i64)>)
    ensures
        r@ == s@,
{
    let mut out: Vec<(ObjectId, i64)> = Vec::new();
    let mut i: usize = 0;
    while i < s.len()
        invariant
            i <= s@.len(),
            out@ =~= s@.take(i as int),
        decreases s@.len() - i,
    {
        out.push((s[i].0, s[i].1));
        i = i + 1;
    }
    out
}

fn sequence_without(s: &Vec<ObjectId>, oid: ObjectId) -> (r: Vec<ObjectId>)
    ensures
        r@ == s@.filter(other_than(oid)),
{
    let mut out: Vec<ObjectId> = Vec::new();
    let ghost keep = other_than(oid);
    let mut i: usize = 0;
    proof {
        reveal(Seq::filter);
        assert(out@ =~= s@.take(0).filter(keep));
    }
    while i < s.len()
        invariant
            i <= s@.len(),
            keep == other_than(oid),
            out@ == s@.take(i as int).filter(keep),
        decreases s@.len() - i,
    {
        proof {
            reveal(Seq::filter);
            assert(s@.take(i + 1).drop_last() =~= s@.take(i as int));
        }
        if s[i] != oid {
            out.push(s[i]);
        }
        i = i + 1;
    }
    proof {
        assert(s@.take(i as int) =~= s@);
    }
    out
}

fn ranking_without(s: &Vec<(ObjectId, i64)>, oid: ObjectId) -> (r: Vec<(ObjectId, i64)>)
    ensures
        r@ == s@.filter(entry_other_than(oid)),
{
    let mut out: Vec<(ObjectId, i64)> = Vec::new();
    let ghost keep = entry_other_than(oid);
    let mut i: usize = 0;
    proof {
        reveal(Seq::filter);
        assert(out@ =~= s@.take(0).filter(keep));
    }
    while i < s.len()
        invariant
            i <= s@.len(),
            keep == entry_other_than(oid),
            out@ == s@.take(i as int).filter(keep),
        decreases s@.len() - i,
    {
        proof {
            reveal(Seq::filter);
            assert(s@.take(i + 1).drop_last() =~= s@.take(i as int));
        }
        if s[i].0 != oid {
            out.push((s[i].0, s[i].1));
        }
        i = i + 1;
    }
    proof {
        assert(s@.take(i as int) =~= s@);
    }
    out
}

} // verus!
