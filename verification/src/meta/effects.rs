//! What the operations on object metadata give, in terms of their arguments.

use vstd::prelude::*;
use vstd::arithmetic::power2::pow2;
use crate::bytes::{le, zeros};
use crate::meta::backpointer::{BackpointerKey, BackpointerTable, BackpointerValue};
use crate::meta::error::MetaError;
use crate::meta::location::{location_round_trip, ObjectLocation, ReplicaRef};
use crate::meta::leaf::{occupied_count, occupied_slots};
use crate::meta::location_leaf::LocationLeaf;
use crate::meta::location_table::LocationTable;
use crate::meta::object_leaf::{leaf_device_round_trip, leaf_read, ObjectLeaf};
use crate::meta::object_table::{all_fit, first_misfit, local_of, records_of,
    table_device_round_trip, written_leaf, ObjectTable};
use crate::meta::radix::{capacity, digits_value, fanout_pow, is_path, oid_to_radix_path,
    oid_to_radix_path_location, radix_path_to_oid, radix_path_to_oid_location, radix_round_trip,
    RadixPath};
use crate::meta::record::{CompressionState, EncryptionState, ObjectRecord, ObjectState};
use crate::storage::device::{overwritten, BlockDevice};

verus! {

// ---------------------------------------------------------------------
// Radix paths
// ---------------------------------------------------------------------

/// The path to an object is that of its number written with the slot in the
/// leaf as the last digit and the children above it as the others, the root's
/// child first. A tree of a height addresses as many objects as there are such
/// numbers, and no others; leaves of records have 2044 slots, inner nodes
/// 16380 children.
pub proof fn record_paths_are_digits(oid: u64, level: u8, r: Result<RadixPath, MetaError>)
    requires
        call_ensures(oid_to_radix_path, (oid, level), r),
    ensures
        level == 0 ==> (r is Ok <==> oid < 2044),
        level == 1 ==> (r is Ok <==> oid < 2044 * 16380),
        level == 2 ==> (r is Ok <==> oid < 2044 * 16380 * 16380),
        level == 3 ==> (r is Ok <==> oid < 2044 * 16380 * 16380 * 16380),
        level > 3 ==> r is Err,
        r is Ok ==> {
            let p = r->Ok_0;
            &&& p.used_levels == level
            &&& p.leaf_slot == oid % 2044
            &&& forall|i: int| level <= i < 3 ==> p.child_path@[i] == 0
            &&& level == 1 ==> p.child_path@[0] == oid / 2044
            &&& level == 2 ==> p.child_path@[0] == oid / 2044 / 16380 && p.child_path@[1] == oid
                / 2044 % 16380
            &&& level == 3 ==> p.child_path@[0] == oid / 2044 / 16380 / 16380 && p.child_path@[1]
                == oid / 2044 / 16380 % 16380 && p.child_path@[2] == oid / 2044 % 16380
        },
{
    lemma_capacities(2044);
    if r is Ok {
        lemma_digits(r->Ok_0, oid as nat, level as nat, 2044);
    }
}

/// The same for the tree of locations, whose leaves have 5440 slots.
pub proof fn location_paths_are_digits(oid: u64, level: u8, r: Result<RadixPath, MetaError>)
    requires
        call_ensures(oid_to_radix_path_location, (oid, level), r),
    ensures
        level == 0 ==> (r is Ok <==> oid < 5440),
        level == 1 ==> (r is Ok <==> oid < 5440 * 16380),
        level == 2 ==> (r is Ok <==> oid < 5440 * 16380 * 16380),
        level == 3 ==> (r is Ok <==> oid < 5440 * 16380 * 16380 * 16380),
        level > 3 ==> r is Err,
        r is Ok ==> {
            let p = r->Ok_0;
            &&& p.used_levels == level
            &&& p.leaf_slot == oid % 5440
            &&& forall|i: int| level <= i < 3 ==> p.child_path@[i] == 0
            &&& level == 1 ==> p.child_path@[0] == oid / 5440
            &&& level == 2 ==> p.child_path@[0] == oid / 5440 / 16380 && p.child_path@[1] == oid
                / 5440 % 16380
            &&& level == 3 ==> p.child_path@[0] == oid / 5440 / 16380 / 16380 && p.child_path@[1]
                == oid / 5440 / 16380 % 16380 && p.child_path@[2] == oid / 5440 % 16380
        },
{
    lemma_capacities(5440);
    if r is Ok {
        lemma_digits(r->Ok_0, oid as nat, level as nat, 5440);
    }
}

proof fn lemma_capacities(leaf: nat)
    requires
        leaf == 2044 || leaf == 5440,
    ensures
        capacity(0, leaf) == leaf,
        capacity(1, leaf) == leaf * 16380,
        capacity(2, leaf) == leaf * 16380 * 16380,
        capacity(3, leaf) == leaf * 16380 * 16380 * 16380,
{
    reveal_with_fuel(fanout_pow, 5);
    assert(fanout_pow(1) == 16380);
    assert(fanout_pow(2) == 16380 * 16380);
    assert(fanout_pow(3) == 16380 * 16380 * 16380);
}

proof fn lemma_digits(p: RadixPath, oid: nat, level: nat, leaf: nat)
    requires
        level <= 3,
        0 < leaf <= 0x1_0000,
        is_path(p, oid, level, leaf),
    ensures
        p.leaf_slot == oid % leaf,
        level == 1 ==> p.child_path@[0] == oid / leaf,
        level == 2 ==> p.child_path@[0] == oid / leaf / 16380 && p.child_path@[1] == oid / leaf
            % 16380,
        level == 3 ==> p.child_path@[0] == oid / leaf / 16380 / 16380 && p.child_path@[1] == oid
            / leaf / 16380 % 16380 && p.child_path@[2] == oid / leaf % 16380,
{
    let c = p.child_path@;
    let n = (oid / leaf) as int;
    assert(oid % leaf < leaf) by (nonlinear_arith)
        requires
            leaf > 0,
    ;
    reveal_with_fuel(digits_value, 5);
    assert(forall|i: int| 0 <= i < level ==> (#[trigger] c[i]) < 16380);
    if level >= 1 {
        assert(c[0] < 16380);
    }
    if level >= 2 {
        assert(c[1] < 16380);
    }
    if level >= 3 {
        assert(c[2] < 16380);
        let x = c[0] as int;
        let y = c[1] as int;
        let z = c[2] as int;
        assert(digits_value(c, 0, 3) == (x * 16380 + y) * 16380 + z);
        assert(n == (x * 16380 + y) * 16380 + z);
        assert(n / 16380 == x * 16380 + y);
        assert(n % 16380 == z);
        assert(n / 16380 / 16380 == x);
    } else if level == 2 {
        let x = c[0] as int;
        let y = c[1] as int;
        assert(digits_value(c, 0, 2) == x * 16380 + y);
        assert(n / 16380 == x);
    }
}

/// A path leads back to the object that it was made for.
pub proof fn paths_lead_back(
    oid: u64,
    level: u8,
    p: RadixPath,
    q: RadixPath,
    r: u64,
    s: u64,
)
    requires
        call_ensures(oid_to_radix_path, (oid, level), Ok(p)),
        call_ensures(radix_path_to_oid, (&p, level), r),
        call_ensures(oid_to_radix_path_location, (oid, level), Ok(q)),
        call_ensures(radix_path_to_oid_location, (&q, level), s),
    ensures
        r == oid,
        s == oid,
{
    radix_round_trip(p, oid as nat, level as nat, 2044);
    radix_round_trip(q, oid as nat, level as nat, 5440);
}

// ---------------------------------------------------------------------
// Tables
// ---------------------------------------------------------------------

/// A record that is entered is found under its own id; all others stay.
pub proof fn entered_record_is_found(
    table: &mut ObjectTable,
    record: ObjectRecord,
    oid: u64,
    before: Option<&ObjectRecord>,
    after: Option<&ObjectRecord>,
)
    requires
        old(table).wf(),
        call_ensures(ObjectTable::insert, (table, record), ()),
        call_ensures(ObjectTable::get, (&*old(table), oid), before),
        call_ensures(ObjectTable::get, (&*final(table), oid), after),
    ensures
        final(table).wf(),
        oid == record.id ==> after is Some && *after->0 == record,
        oid != record.id ==> (after is Some <==> before is Some),
        oid != record.id && before is Some ==> *after->0 == *before->0,
{
}

/// A record that is taken out is given back and not found any more; all others
/// stay.
pub proof fn removed_record_is_not_found(
    table: &mut ObjectTable,
    gone: u64,
    r: Option<ObjectRecord>,
    oid: u64,
    before: Option<&ObjectRecord>,
    after: Option<&ObjectRecord>,
)
    requires
        old(table).wf(),
        call_ensures(ObjectTable::remove, (table, gone), r),
        call_ensures(ObjectTable::get, (&*old(table), oid), before),
        call_ensures(ObjectTable::get, (&*final(table), oid), after),
    ensures
        final(table).wf(),
        oid == gone ==> after is None && (r is Some <==> before is Some),
        oid == gone && before is Some ==> r->0 == *before->0,
        oid != gone ==> (after is Some <==> before is Some),
        oid != gone && before is Some ==> *after->0 == *before->0,
{
}

/// A table is stored by the numbers that its objects have on their nodes: it
/// is refused for a number where one of these is past the slots of a leaf, and
/// only then.
pub proof fn numbers_on_the_node_decide_what_is_stored<D: BlockDevice>(
    table: ObjectTable,
    device: &mut D,
    offset: u64,
    r: Result<(), MetaError>,
    oid: u64,
    found: Option<&ObjectRecord>,
)
    requires
        table.wf(),
        call_ensures(ObjectTable::flush_to_region::<D>, (&table, device, offset), r),
        call_ensures(ObjectTable::get, (&table, oid), found),
    ensures
        found is Some && oid as int % 0x1_0000_0000_0000 >= 2044 ==> r is Err
            && r->Err_0 is OidOutOfRange,
        r is Err && r->Err_0 is OidOutOfRange ==> exists|k: u64| #[trigger]
            table@.contains_key(k) && k as int % 0x1_0000_0000_0000 >= 2044,
{
    if found is Some && oid as int % 0x1_0000_0000_0000 >= 2044 {
        assert(local_of(oid) >= 2044);
        assert(!all_fit(table@));
    }
    if r is Err && r->Err_0 is OidOutOfRange {
        let k = choose|k: u64| #[trigger]
            first_misfit(table@, k) && r->Err_0->OidOutOfRange_oid_local == local_of(k);
        assert(table@.contains_key(k));
    }
}

/// A table that was stored is loaded with the same records, as long as each is
/// kept under its own id and no two objects have the same number.
pub proof fn stored_table_is_loaded<D: BlockDevice>(
    table: ObjectTable,
    device: &mut D,
    offset: u64,
    r: Result<ObjectTable, MetaError>,
)
    requires
        table.wf(),
        old(device).reliable(),
        forall|k: u64| #[trigger] table@.contains_key(k) ==> table@[k].id == k,
        forall|a: u64, b: u64| #[trigger]
            table@.contains_key(a) && #[trigger] table@.contains_key(b) && a as int
                % 0x1_0000_0000_0000 == b as int % 0x1_0000_0000_0000 ==> a == b,
        call_ensures(ObjectTable::flush_to_region::<D>, (&table, device, offset), Ok(())),
        call_ensures(ObjectTable::load_from_region::<D>, (&*final(device), offset), r),
    ensures
        r is Ok,
        r->Ok_0.wf(),
        r->Ok_0@ == table@,
{
    let before = old(device).contents();
    let o = offset as int;
    let leaf = choose|leaf: ObjectLeaf|
        {
            &&& #[trigger] written_leaf(leaf, table@)
            &&& all_fit(table@)
            &&& offset + 262144 <= before.len()
            &&& final(device).contents() == overwritten(before, o, leaf.image())
        };
    if r is Err {
        leaf_device_round_trip(before, o, leaf, Err::<ObjectLeaf, MetaError>(r->Err_0));
    } else {
        let read = choose|read: ObjectLeaf|
            #[trigger] leaf_read(
                final(device).contents(),
                o,
                final(device).reliable(),
                Ok::<ObjectLeaf, MetaError>(read),
            ) && r->Ok_0@ == records_of(read.slots@, 2044);
        table_device_round_trip(before, o, leaf, table@, read);
    }
}

/// A location that is entered is found under the object; all others stay.
pub proof fn entered_location_is_found(
    table: &mut LocationTable,
    own: u64,
    location: ObjectLocation,
    oid: u64,
    before: Option<&ObjectLocation>,
    after: Option<&ObjectLocation>,
)
    requires
        old(table).wf(),
        call_ensures(LocationTable::insert, (table, own, location), ()),
        call_ensures(LocationTable::get, (&*old(table), oid), before),
        call_ensures(LocationTable::get, (&*final(table), oid), after),
    ensures
        final(table).wf(),
        oid == own ==> after is Some && *after->0 == location,
        oid != own ==> (after is Some <==> before is Some),
        oid != own && before is Some ==> *after->0 == *before->0,
{
}

/// A location that is taken out is given back and not found any more; all
/// others stay.
pub proof fn removed_location_is_not_found(
    table: &mut LocationTable,
    gone: u64,
    r: Option<ObjectLocation>,
    oid: u64,
    before: Option<&ObjectLocation>,
    after: Option<&ObjectLocation>,
)
    requires
        old(table).wf(),
        call_ensures(LocationTable::remove, (table, gone), r),
        call_ensures(LocationTable::get, (&*old(table), oid), before),
        call_ensures(LocationTable::get, (&*final(table), oid), after),
    ensures
        final(table).wf(),
        oid == gone ==> after is None && (r is Some <==> before is Some),
        oid == gone && before is Some ==> r->0 == *before->0,
        oid != gone ==> (after is Some <==> before is Some),
        oid != gone && before is Some ==> *after->0 == *before->0,
{
}

/// A backpointer that is entered is found under its key; all others stay.
pub proof fn entered_backpointer_is_found(
    table: &mut BackpointerTable,
    own: BackpointerKey,
    value: BackpointerValue,
    key: BackpointerKey,
    before: Option<&BackpointerValue>,
    after: Option<&BackpointerValue>,
)
    requires
        old(table).wf(),
        call_ensures(BackpointerTable::insert, (table, own, value), ()),
        call_ensures(BackpointerTable::get, (&*old(table), &key), before),
        call_ensures(BackpointerTable::get, (&*final(table), &key), after),
    ensures
        final(table).wf(),
        key == own ==> after is Some && *after->0 == value,
        key != own ==> (after is Some <==> before is Some),
        key != own && before is Some ==> *after->0 == *before->0,
{
}

/// What is listed for a bucket, or for a disk, are the backpointers with a key
/// on that bucket, or that disk, and no others: by bucket, then by sector.
pub proof fn ranges_list_their_backpointers(
    table: BackpointerTable,
    disk: u16,
    bucket: u32,
    key: BackpointerKey,
    found: Option<&BackpointerValue>,
    in_bucket: Vec<(BackpointerKey, BackpointerValue)>,
    on_disk: Vec<(BackpointerKey, BackpointerValue)>,
    i: int,
    j: int,
)
    requires
        table.wf(),
        call_ensures(BackpointerTable::get, (&table, &key), found),
        call_ensures(BackpointerTable::range_in_bucket, (&table, disk, bucket), in_bucket),
        call_ensures(BackpointerTable::range_on_disk, (&table, disk), on_disk),
    ensures
        found is Some && key.disk_id == disk && key.bucket_no == bucket ==> in_bucket@.contains(
            (key, *found->0),
        ),
        found is Some && key.disk_id == disk ==> on_disk@.contains((key, *found->0)),
        0 <= i < in_bucket@.len() ==> in_bucket@[i].0.disk_id == disk && in_bucket@[i].0.bucket_no
            == bucket,
        0 <= i < in_bucket@.len() && in_bucket@[i].0 == key ==> found is Some && *found->0
            == in_bucket@[i].1,
        0 <= i < on_disk@.len() ==> on_disk@[i].0.disk_id == disk,
        0 <= i < on_disk@.len() && on_disk@[i].0 == key ==> found is Some && *found->0
            == on_disk@[i].1,
        0 <= i < j < in_bucket@.len() ==> in_bucket@[i].0.sector_offset
            < in_bucket@[j].0.sector_offset,
        0 <= i < j < on_disk@.len() ==> on_disk@[i].0.bucket_no < on_disk@[j].0.bucket_no
            || on_disk@[i].0.bucket_no == on_disk@[j].0.bucket_no && on_disk@[i].0.sector_offset
            < on_disk@[j].0.sector_offset,
{
    if found is Some && key.disk_id == disk {
        assert(table@.contains_key(key) && crate::meta::backpointer::on_disk(disk)(key));
        let k = choose|k: int| 0 <= k < on_disk@.len() && (#[trigger] on_disk@[k]).0 == key;
        assert(on_disk@[k] == (key, *found->0));
        if key.bucket_no == bucket {
            assert(table@.contains_key(key) && crate::meta::backpointer::in_bucket(disk, bucket)(
                key,
            ));
            let k = choose|k: int| 0 <= k < in_bucket@.len() && (#[trigger] in_bucket@[k]).0 == key;
            assert(in_bucket@[k] == (key, *found->0));
        }
    }
    if 0 <= i < in_bucket@.len() {
        assert(crate::meta::backpointer::in_bucket(disk, bucket)(in_bucket@[i].0));
    }
    if 0 <= i < on_disk@.len() {
        assert(crate::meta::backpointer::on_disk(disk)(on_disk@[i].0));
    }
    if 0 <= i < j < in_bucket@.len() {
        assert(crate::meta::backpointer::in_bucket(disk, bucket)(in_bucket@[j].0));
        assert(crate::meta::backpointer::key_precedes(in_bucket@[i].0, in_bucket@[j].0));
    }
    if 0 <= i < j < on_disk@.len() {
        assert(crate::meta::backpointer::on_disk(disk)(on_disk@[j].0));
        assert(crate::meta::backpointer::key_precedes(on_disk@[i].0, on_disk@[j].0));
    }
}

// ---------------------------------------------------------------------
// Leaves
// ---------------------------------------------------------------------

/// A record that is set in a leaf is found in its slot; the other slots stay.
/// There are 2044 slots.
pub proof fn set_record_is_found(
    leaf: &mut ObjectLeaf,
    slot: u64,
    record: ObjectRecord,
    r: Result<(), MetaError>,
    other: u64,
    before: Result<Option<&ObjectRecord>, MetaError>,
    after: Result<Option<&ObjectRecord>, MetaError>,
)
    requires
        old(leaf).wf(),
        call_ensures(ObjectLeaf::set, (leaf, slot, record), r),
        call_ensures(ObjectLeaf::get, (&*old(leaf), other), before),
        call_ensures(ObjectLeaf::get, (&*final(leaf), other), after),
    ensures
        r is Ok <==> slot < 2044,
        after is Ok <==> other < 2044,
        r is Ok && other == slot ==> after->Ok_0 is Some && *after->Ok_0->Some_0 == record,
        other != slot ==> after == before,
{
}

/// A slot that is cleared is empty, and what was in it is given back; the other
/// slots stay.
pub proof fn cleared_slot_is_empty(
    leaf: &mut ObjectLeaf,
    slot: u64,
    r: Result<Option<ObjectRecord>, MetaError>,
    other: u64,
    before: Result<Option<&ObjectRecord>, MetaError>,
    after: Result<Option<&ObjectRecord>, MetaError>,
)
    requires
        old(leaf).wf(),
        call_ensures(ObjectLeaf::clear, (leaf, slot), r),
        call_ensures(ObjectLeaf::get, (&*old(leaf), other), before),
        call_ensures(ObjectLeaf::get, (&*final(leaf), other), after),
    ensures
        r is Ok <==> slot < 2044,
        r is Ok && other == slot ==> after->Ok_0 is None && (r->Ok_0 is Some
            <==> before->Ok_0 is Some),
        r is Ok && other == slot && before->Ok_0 is Some ==> r->Ok_0->Some_0
            == *before->Ok_0->Some_0,
        other != slot ==> after == before,
{
}

/// The same of a leaf of locations, which has 5440 slots.
pub proof fn set_location_is_found(
    leaf: &mut LocationLeaf,
    slot: u64,
    location: ObjectLocation,
    r: Result<(), MetaError>,
    other: u64,
    before: Result<Option<&ObjectLocation>, MetaError>,
    after: Result<Option<&ObjectLocation>, MetaError>,
)
    requires
        old(leaf).wf(),
        call_ensures(LocationLeaf::set, (leaf, slot, location), r),
        call_ensures(LocationLeaf::get, (&*old(leaf), other), before),
        call_ensures(LocationLeaf::get, (&*final(leaf), other), after),
    ensures
        r is Ok <==> slot < 5440,
        after is Ok <==> other < 5440,
        r is Ok && other == slot ==> after->Ok_0 is Some && *after->Ok_0->Some_0 == location,
        other != slot ==> after == before,
{
}

/// The records of a leaf are listed with their slots, in the order of the
/// slots, all of them and no others; their number is the one that is counted.
pub proof fn leaf_lists_its_records(
    leaf: ObjectLeaf,
    listed: Vec<(u64, ObjectRecord)>,
    count: usize,
    slot: u64,
    record: Result<Option<&ObjectRecord>, MetaError>,
    i: int,
    j: int,
)
    requires
        leaf.wf(),
        call_ensures(ObjectLeaf::iter, (&leaf,), listed),
        call_ensures(ObjectLeaf::occupied, (&leaf,), count),
        slot < 2044,
        call_ensures(ObjectLeaf::get, (&leaf, slot), record),
    ensures
        count == listed@.len(),
        0 <= i < j < listed@.len() ==> listed@[i].0 < listed@[j].0,
        record->Ok_0 is Some ==> listed@.contains((slot, *record->Ok_0->Some_0)),
        0 <= i < listed@.len() && listed@[i].0 == slot ==> record->Ok_0 is Some
            && *record->Ok_0->Some_0 == listed@[i].1,
{
    lemma_occupied(leaf.slots@, 2044);
    let s = occupied_slots(leaf.slots@, 2044);
    if leaf.slots@[slot as int] is Some {
        let k = choose|k: int|
            0 <= k < s.len() && #[trigger] s[k] == (slot, leaf.slots@[slot as int]->0);
        assert(listed@[k] == (slot, leaf.slots@[slot as int]->0));
    }
}

proof fn lemma_occupied<R>(slots: Seq<Option<R>>, k: int)
    requires
        0 <= k <= slots.len() <= u64::MAX,
    ensures
        occupied_slots(slots, k).len() == occupied_count(slots, k),
        forall|i: int, j: int|
            0 <= i < j < occupied_slots(slots, k).len() ==> (#[trigger] occupied_slots(
                slots,
                k,
            )[i]).0 < (#[trigger] occupied_slots(slots, k)[j]).0,
        forall|i: int|
            0 <= i < occupied_slots(slots, k).len() ==> {
                let e = #[trigger] occupied_slots(slots, k)[i];
                e.0 < k && slots[e.0 as int] == Some(e.1)
            },
        forall|n: int|
            0 <= n < k && #[trigger] slots[n] is Some ==> exists|i: int|
                0 <= i < occupied_slots(slots, k).len() && #[trigger] occupied_slots(slots, k)[i]
                    == (n as u64, slots[n]->0),
    decreases k,
{
    if k > 0 {
        lemma_occupied(slots, k - 1);
        let a = occupied_slots(slots, k - 1);
        let b = occupied_slots(slots, k);
        assert forall|n: int| 0 <= n < k && #[trigger] slots[n] is Some implies exists|i: int|
            0 <= i < b.len() && #[trigger] b[i] == (n as u64, slots[n]->0) by {
            if n < k - 1 {
                let i = choose|i: int|
                    0 <= i < a.len() && #[trigger] a[i] == (n as u64, slots[n]->0);
                assert(b[i] == a[i]);
            } else {
                assert(b[a.len() as int] == (n as u64, slots[n]->0));
            }
        }
    }
}

/// A backpointer that is taken out is given back and not found any more; all
/// others stay.
pub proof fn removed_backpointer_is_not_found(
    table: &mut BackpointerTable,
    gone: BackpointerKey,
    r: Option<BackpointerValue>,
    key: BackpointerKey,
    before: Option<&BackpointerValue>,
    after: Option<&BackpointerValue>,
)
    requires
        old(table).wf(),
        call_ensures(BackpointerTable::remove, (table, &gone), r),
        call_ensures(BackpointerTable::get, (&*old(table), &key), before),
        call_ensures(BackpointerTable::get, (&*final(table), &key), after),
    ensures
        final(table).wf(),
        key == gone ==> after is None && (r is Some <==> before is Some),
        key == gone && before is Some ==> r->0 == *before->0,
        key != gone ==> (after is Some <==> before is Some),
        key != gone && before is Some ==> *after->0 == *before->0,
{
}

// ---------------------------------------------------------------------
// Records and locations
// ---------------------------------------------------------------------

/// A new record has its id and nothing else: it is in use, neither compressed
/// nor encrypted, and has no flags.
pub proof fn new_record_is_plain(
    id: u64,
    record: ObjectRecord,
    state: Result<ObjectState, MetaError>,
    c: Result<CompressionState, MetaError>,
    e: Result<EncryptionState, MetaError>,
)
    requires
        call_ensures(ObjectRecord::new, (id,), record),
        call_ensures(ObjectRecord::state, (&record,), state),
        call_ensures(ObjectRecord::compression, (&record,), c),
        call_ensures(ObjectRecord::encryption, (&record,), e),
    ensures
        record.id == id,
        state == Ok::<ObjectState, MetaError>(ObjectState::Active),
        c == Ok::<CompressionState, MetaError>(CompressionState::Plain),
        e == Ok::<EncryptionState, MetaError>(EncryptionState::Plain),
        record.flags == 0,
{
    broadcast use crate::bytes::lemma_le_len;

    record.image_len();
    let image = record.image();
    assert(image[12] == record.head()[12]);
    assert(image[13] == record.head()[13]);
    assert(record.head()[12] == record.state);
    assert(record.head()[13] == record.flags);
    let m = record.middle();
    assert(image[84] == m[36]);
    assert(image[85] == m[37]);
    assert(m[36] == record.compression);
    assert(m[37] == record.encryption);
    let plain = le(id as nat, 8) + zeros(120);
    assert(plain[12] == 0 && plain[13] == 0 && plain[84] == 0 && plain[85] == 0);
}

/// A record that is written is read back.
pub proof fn written_record_is_read_back(
    record: ObjectRecord,
    bytes: [u8; 128],
    back: ObjectRecord,
)
    requires
        call_ensures(ObjectRecord::to_bytes, (&record,), bytes),
        call_ensures(ObjectRecord::ref_from_bytes, (&bytes,), back),
    ensures
        back == record,
{
    ObjectRecord::image_injective(back, record);
}

/// A state that is set on a record is the one that it has then; all else stays.
pub proof fn set_states_are_read_back(
    record: &mut ObjectRecord,
    state: ObjectState,
    r: Result<ObjectState, MetaError>,
)
    requires
        call_ensures(ObjectRecord::set_state, (record, state), ()),
        call_ensures(ObjectRecord::state, (&*final(record),), r),
    ensures
        r == Ok::<ObjectState, MetaError>(state),
        final(record).id == old(record).id,
        final(record).compression == old(record).compression,
        final(record).encryption == old(record).encryption,
        final(record).generation == old(record).generation,
{
}

/// How a record says it is compressed is what was set; all else stays.
pub proof fn set_compression_is_read_back(
    record: &mut ObjectRecord,
    c: CompressionState,
    r: Result<CompressionState, MetaError>,
)
    requires
        call_ensures(ObjectRecord::set_compression, (record, c), ()),
        call_ensures(ObjectRecord::compression, (&*final(record),), r),
    ensures
        r == Ok::<CompressionState, MetaError>(c),
        final(record).id == old(record).id,
        final(record).state == old(record).state,
        final(record).encryption == old(record).encryption,
{
}

/// How a record says it is encrypted is what was set; all else stays.
pub proof fn set_encryption_is_read_back(
    record: &mut ObjectRecord,
    e: EncryptionState,
    r: Result<EncryptionState, MetaError>,
)
    requires
        call_ensures(ObjectRecord::set_encryption, (record, e), ()),
        call_ensures(ObjectRecord::encryption, (&*final(record),), r),
    ensures
        r == Ok::<EncryptionState, MetaError>(e),
        final(record).id == old(record).id,
        final(record).state == old(record).state,
        final(record).compression == old(record).compression,
{
}

/// A location gives back the replicas that it was made of, in their order, and
/// is read back from what it is written as.
pub proof fn location_keeps_its_replicas(
    length: u64,
    replicas: &[ReplicaRef],
    location: ObjectLocation,
    active: Vec<ReplicaRef>,
    bytes: Vec<u8>,
    slice: &[u8],
    back: Result<(ObjectLocation, usize), MetaError>,
)
    requires
        call_ensures(ObjectLocation::new, (length, replicas), Ok(location)),
        call_ensures(ObjectLocation::active_replicas, (&location,), active),
        call_ensures(ObjectLocation::serialize, (&location,), bytes),
        slice@ == bytes@,
        call_ensures(ObjectLocation::parse, (slice,), back),
    ensures
        replicas@.len() <= 4,
        active@ == replicas@,
        location.header.extent_length == length,
        bytes@.len() == 16 + 8 * replicas@.len(),
        back == Ok::<(ObjectLocation, usize), MetaError>((location, bytes@.len() as usize)),
{
    crate::meta::location::lemma_replicas_len(location.replicas@, location.active());
    location.header.image_len();
    assert(bytes@[1] == location.header.replica_count);
    let b = back->Ok_0.0;
    assert(bytes@.take(bytes@.len() as int) =~= bytes@);
    location_round_trip(location, b);
}

/// A block stands in its bucket where the whole buckets before it end: their
/// blocks and its offset make up its number.
pub proof fn block_stands_in_its_bucket(block: u64, log2: u32, r: (u32, u16))
    requires
        12 <= log2 <= 28,
        block as int / pow2((log2 - 12) as nat) as int <= u32::MAX,
        call_ensures(ObjectLocation::block_no_to_bucket_offset, (block, log2), r),
    ensures
        r.0 as int * pow2((log2 - 12) as nat) as int + r.1 as int == block,
        (r.1 as int) < pow2((log2 - 12) as nat) as int,
{
    let n = pow2((log2 - 12) as nat) as int;
    vstd::arithmetic::power2::lemma_pow2_pos((log2 - 12) as nat);
    vstd::arithmetic::power2::lemma2_to64();
    if log2 - 12 < 16 {
        vstd::arithmetic::power2::lemma_pow2_strictly_increases((log2 - 12) as nat, 16);
    }
    let q = block as int / n;
    let m = block as int % n;
    assert(block as int == n * q + m && 0 <= m < n) by (nonlinear_arith)
        requires
            n > 0,
            q == block as int / n,
            m == block as int % n,
    ;
    assert(0 <= q) by (nonlinear_arith)
        requires
            n > 0,
            q == block as int / n,
            block >= 0,
    ;
    assert(n * q == q * n) by (nonlinear_arith);
}

} // verus!
