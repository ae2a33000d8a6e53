//! Radix addressing of the object and location tables.
//!
//! A leaf holds a fixed number of records, an inner node a fixed number of
//! children. A local id is written in this mixed radix: the lowest digit is
//! the slot in the leaf, the others choose the children on the way down.

use vstd::prelude::*;
use crate::meta::error::MetaError;

verus! {

/// Most inner levels above the leaves.
pub const MAX_LEVELS: usize = 3;

/// Object records per leaf.
pub const LEAF_RECORDS: usize = 2044;

/// Locations per leaf.
pub const LEAF_RECORDS_LOCATION: usize = 5440;

/// Children per inner node.
pub const INNER_FANOUT: usize = 16380;

/// The way from the root to a record.
#[derive(Clone, Copy, Debug, PartialEq, Eq)]
pub struct RadixPath {
    /// Slot in the leaf.
    pub leaf_slot: u16,
    /// Children on the way down, the root's child first. Entries from
    /// `used_levels` on are zero.
    pub child_path: [u16; 3],
    /// How many entries of `child_path` are used.
    pub used_levels: u8,
}

impl RadixPath {
    pub fn new(leaf_slot: u16, child_path: [u16; 3], used_levels: u8) -> (r: Self)
        ensures
            r.leaf_slot == leaf_slot,
            r.child_path == child_path,
            r.used_levels == used_levels,
    {
        RadixPath { leaf_slot, child_path, used_levels }
    }
}

/// `INNER_FANOUT` to the power `n`.
pub open spec fn fanout_pow(n: nat) -> nat
    decreases n,
{
    if n == 0 {
        1
    } else {
        INNER_FANOUT as nat * fanout_pow((n - 1) as nat)
    }
}

/// How many ids a tree with `levels` inner levels can address.
pub open spec fn capacity(levels: nat, leaf_fanout: nat) -> nat {
    leaf_fanout * fanout_pow(levels)
}

/// The number that the digits `path[from..to]` write, the first of them the
/// most significant.
pub open spec fn digits_value(path: Seq<u16>, from: int, to: int) -> nat
    decreases to - from,
{
    if from >= to {
        0
    } else {
        digits_value(path, from, to - 1) * INNER_FANOUT as nat + path[to - 1] as nat
    }
}

/// The local id that a path leads to.
pub open spec fn path_value(path: RadixPath, levels: nat, leaf_fanout: nat) -> nat {
    digits_value(path.child_path@, 0, levels as int) * leaf_fanout + path.leaf_slot as nat
}

/// `path` is the way to `oid` in a tree with `levels` inner levels: its
/// digits are in range, and together with the slot they write the id. The
/// slot keeps the low 16 bits of the remainder.
pub open spec fn is_path(path: RadixPath, oid: nat, levels: nat, leaf_fanout: nat) -> bool {
    &&& path.used_levels == levels
    &&& path.leaf_slot as nat == (oid % leaf_fanout) % 0x1_0000
    &&& digits_value(path.child_path@, 0, levels as int) == oid / leaf_fanout
    &&& forall|i: int| 0 <= i < levels ==> (#[trigger] path.child_path@[i]) < INNER_FANOUT
    &&& forall|i: int| levels <= i < 3 ==> #[trigger] path.child_path@[i] == 0
}

/// The path to `oid_local` in an object table whose root sits `root_level`
/// levels above the leaves.
pub fn oid_to_radix_path(oid_local: u64, root_level: u8) -> (r: Result<RadixPath, MetaError>)
    ensures
        match r {
            Ok(p) => {
                &&& root_level <= 3
                &&& oid_local < capacity(root_level as nat, 2044)
                &&& is_path(p, oid_local as nat, root_level as nat, 2044)
            },
            Err(e) => {
                &&& root_level > 3 || oid_local >= capacity(root_level as nat, 2044)
                &&& e == (MetaError::OidOutOfRange { oid_local, root_level })
            },
        },
{
    oid_to_radix_path_with_leaf_fanout(oid_local, root_level, LEAF_RECORDS as u64)
}

/// The path to `oid_local` in a location table.
pub fn oid_to_radix_path_location(oid_local: u64, root_level: u8) -> (r: Result<
    RadixPath,
    MetaError,
>)
    ensures
        match r {
            Ok(p) => {
                &&& root_level <= 3
                &&& oid_local < capacity(root_level as nat, 5440)
                &&& is_path(p, oid_local as nat, root_level as nat, 5440)
            },
            Err(e) => {
                &&& root_level > 3 || oid_local >= capacity(root_level as nat, 5440)
                &&& e == (MetaError::OidOutOfRange { oid_local, root_level })
            },
        },
{
    oid_to_radix_path_with_leaf_fanout(oid_local, root_level, LEAF_RECORDS_LOCATION as u64)
}

/// The path to `oid_local` in a tree with `leaf_fanout` records per leaf.
pub fn oid_to_radix_path_with_leaf_fanout(
    oid_local: u64,
    root_level: u8,
    leaf_fanout: u64,
) -> (r: Result<RadixPath, MetaError>)
    requires
        leaf_fanout > 0,
    ensures
        match r {
            Ok(p) => {
                &&& root_level <= 3
                &&& oid_local < capacity(root_level as nat, leaf_fanout as nat)
                &&& is_path(p, oid_local as nat, root_level as nat, leaf_fanout as nat)
            },
            Err(e) => {
                &&& root_level > 3 || oid_local >= capacity(root_level as nat, leaf_fanout as nat)
                &&& e == (MetaError::OidOutOfRange { oid_local, root_level })
            },
        },
{
    if root_level > 3 {
        return Err(MetaError::OidOutOfRange { oid_local, root_level });
    }
    let levels: usize = root_level as usize;
    let slot: u64 = oid_local % leaf_fanout;
    let top: u64 = oid_local / leaf_fanout;
    let mut idx: u64 = top;
    let mut child_path: [u16; 3] = [0u16; 3];
    let mut level: usize = levels;
    proof {
        assert(digits_value(child_path@, levels as int, levels as int) == 0);
        assert(fanout_pow(0) == 1);
        assert(idx * fanout_pow(0) == idx) by (nonlinear_arith)
            requires
                fanout_pow(0) == 1,
        ;
    }
    while level > 0
        invariant
            level <= levels <= 3,
            top == idx * fanout_pow((levels - level) as nat) + digits_value(
                child_path@,
                level as int,
                levels as int,
            ),
            digits_value(child_path@, level as int, levels as int) < fanout_pow(
                (levels - level) as nat,
            ),
            forall|i: int| level <= i < levels ==> (#[trigger] child_path@[i]) < INNER_FANOUT,
            forall|i: int| levels <= i < 3 ==> #[trigger] child_path@[i] == 0,
        decreases level,
    {
        let ghost before = child_path@;
        let ghost low = digits_value(before, level as int, levels as int);
        let ghost p = fanout_pow((levels - level) as nat);
        let ghost i0 = idx as nat;
        level = level - 1;
        let digit: u16 = (idx % 16380) as u16;
        child_path[level] = digit;
        idx = idx / 16380;
        proof {
            lemma_prepend_digit(before, child_path@, level as int, levels as int);
            assert(i0 == idx as nat * 16380 + digit as nat);
            assert(i0 * p + low == idx as nat * (16380 * p) + (digit as nat * p + low))
                by (nonlinear_arith)
                requires
                    i0 == idx as nat * 16380 + digit as nat,
            ;
            assert(digit as nat * p + low < 16380 * p) by (nonlinear_arith)
                requires
                    digit < 16380,
                    low < p,
            ;
        }
    }
    proof {
        let p = fanout_pow(levels as nat);
        let low = digits_value(child_path@, 0, levels as int);
        let f = leaf_fanout as nat;
        let t = top as nat;
        assert(top == idx * p + low);
        assert(oid_local as nat == t * f + slot as nat) by {
            vstd::arithmetic::div_mod::lemma_fundamental_div_mod(
                oid_local as int,
                leaf_fanout as int,
            );
            assert(leaf_fanout * top == top * leaf_fanout) by (nonlinear_arith);
        }
        if idx != 0 {
            assert(t >= p) by (nonlinear_arith)
                requires
                    t == idx as nat * p + low,
                    idx >= 1,
            ;
            assert(t * f >= f * p) by (nonlinear_arith)
                requires
                    t >= p,
            ;
        } else {
            assert(t * f + (slot as nat) < f * p) by (nonlinear_arith)
                requires
                    t < p,
                    (slot as nat) < f,
            ;
        }
    }
    if idx != 0 {
        return Err(MetaError::OidOutOfRange { oid_local, root_level });
    }
    Ok(RadixPath { leaf_slot: (slot % 0x1_0000) as u16, child_path, used_levels: root_level })
}

proof fn lemma_prepend_digit(before: Seq<u16>, after: Seq<u16>, level: int, levels: int)
    requires
        0 <= level < levels <= 3,
        before.len() == 3,
        after.len() == 3,
        forall|i: int| level < i < 3 ==> before[i] == after[i],
    ensures
        digits_value(after, level, levels) == after[level] as nat * fanout_pow(
            (levels - level - 1) as nat,
        ) + digits_value(before, level + 1, levels),
        fanout_pow((levels - level) as nat) == INNER_FANOUT as nat * fanout_pow(
            (levels - level - 1) as nat,
        ),
    decreases levels - level,
{
    if levels == level + 1 {
        assert(digits_value(after, level, level) == 0);
        assert(digits_value(before, levels, levels) == 0);
        assert(fanout_pow(0) == 1);
        assert(after[level] as nat * 1 == after[level] as nat);
    } else {
        lemma_prepend_digit(before, after, level, levels - 1);
        let p = fanout_pow((levels - level - 2) as nat);
        let d = after[level] as nat;
        let b = digits_value(before, level + 1, levels - 1);
        assert((d * p + b) * 16380 == d * (16380 * p) + b * 16380) by (nonlinear_arith);
    }
}

/// The local id that a path in an object table leads to.
pub fn radix_path_to_oid(path: &RadixPath, root_level: u8) -> (r: u64)
    requires
        root_level <= 3,
        path_value(*path, root_level as nat, 2044) <= u64::MAX,
    ensures
        r == path_value(*path, root_level as nat, 2044),
{
    radix_path_to_oid_with_leaf_fanout(path, root_level, LEAF_RECORDS as u64)
}

/// The local id that a path in a location table leads to.
pub fn radix_path_to_oid_location(path: &RadixPath, root_level: u8) -> (r: u64)
    requires
        root_level <= 3,
        path_value(*path, root_level as nat, 5440) <= u64::MAX,
    ensures
        r == path_value(*path, root_level as nat, 5440),
{
    radix_path_to_oid_with_leaf_fanout(path, root_level, LEAF_RECORDS_LOCATION as u64)
}

/// The local id that a path leads to in a tree with `leaf_fanout` records per
/// leaf.
pub fn radix_path_to_oid_with_leaf_fanout(
    path: &RadixPath,
    root_level: u8,
    leaf_fanout: u64,
) -> (r: u64)
    requires
        root_level <= 3,
        path_value(*path, root_level as nat, leaf_fanout as nat) <= u64::MAX,
        digits_value(path.child_path@, 0, root_level as int) <= u64::MAX,
    ensures
        r == path_value(*path, root_level as nat, leaf_fanout as nat),
{
    let levels: usize = root_level as usize;
    let mut idx: u64 = 0;
    let mut level: usize = 0;
    while level < levels
        invariant
            level <= levels <= 3,
            idx == digits_value(path.child_path@, 0, level as int),
            digits_value(path.child_path@, 0, levels as int) <= u64::MAX,
        decreases levels - level,
    {
        proof {
            lemma_prefix_smaller(path.child_path@, level + 1, levels as int);
        }
        idx = idx * 16380 + path.child_path[level] as u64;
        level = level + 1;
    }
    idx * leaf_fanout + path.leaf_slot as u64
}

proof fn lemma_prefix_smaller(path: Seq<u16>, k: int, n: int)
    requires
        0 <= k <= n,
    ensures
        digits_value(path, 0, k) <= digits_value(path, 0, n),
    decreases n - k,
{
    if k < n {
        lemma_prefix_smaller(path, k, n - 1);
    }
}

/// The id that the path of `oid` leads to is `oid`, as long as slots fit in
/// 16 bits.
pub proof fn radix_round_trip(path: RadixPath, oid: nat, levels: nat, leaf_fanout: nat)
    requires
        0 < leaf_fanout <= 0x1_0000,
        is_path(path, oid, levels, leaf_fanout),
    ensures
        path_value(path, levels, leaf_fanout) == oid,
{
    vstd::arithmetic::div_mod::lemma_fundamental_div_mod(oid as int, leaf_fanout as int);
    vstd::arithmetic::div_mod::lemma_mod_bound(oid as int, leaf_fanout as int);
    let q = oid / leaf_fanout;
    assert(q * leaf_fanout == leaf_fanout * q) by (nonlinear_arith);
}

/// Different ids have different paths.
pub proof fn radix_paths_differ(
    p: RadixPath,
    q: RadixPath,
    a: nat,
    b: nat,
    levels: nat,
    leaf_fanout: nat,
)
    requires
        0 < leaf_fanout <= 0x1_0000,
        is_path(p, a, levels, leaf_fanout),
        is_path(q, b, levels, leaf_fanout),
        p == q,
    ensures
        a == b,
{
    radix_round_trip(p, a, levels, leaf_fanout);
    radix_round_trip(q, b, levels, leaf_fanout);
}

} // verus!
