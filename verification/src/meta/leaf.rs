//! What the leaves of the object and location tables have in common: a
//! bitmap of occupied slots, and the records at fixed positions.

use vstd::prelude::*;
use crate::bytes::{be, get_array, lemma_be_len, put_be, put_zeros, zeros};

verus! {

/// A record of fixed size.
pub trait LeafRecord: Copy {
    spec fn size() -> nat;

    spec fn bytes(&self) -> Seq<u8>;

    proof fn bytes_len(&self)
        ensures
            self.bytes().len() == Self::size(),
            0 < Self::size() <= 128,
    ;

    proof fn bytes_injective(a: Self, b: Self)
        requires
            a.bytes() == b.bytes(),
        ensures
            a == b,
    ;

    fn record_size() -> (r: usize)
        ensures
            r == Self::size(),
    ;

    fn put_record(&self, out: &mut Vec<u8>)
        ensures
            final(out)@ == old(out)@ + self.bytes(),
    ;

    fn get_record(s: &[u8], at: usize) -> (r: Self)
        requires
            at + Self::size() <= s@.len(),
        ensures
            r.bytes() == s@.subrange(at as int, at + Self::size()),
    ;
}

/// `1` where the slot exists and is occupied.
pub open spec fn slot_bit<R>(slots: Seq<Option<R>>, i: int) -> nat {
    if 0 <= i < slots.len() && slots[i] is Some {
        1
    } else {
        0
    }
}

/// The byte that stands for slots `8 * b` to `8 * b + 7`, the first of them
/// in the lowest bit.
pub open spec fn bitmap_byte<R>(slots: Seq<Option<R>>, b: int) -> nat {
    slot_bit(slots, 8 * b) + 2 * slot_bit(slots, 8 * b + 1) + 4 * slot_bit(slots, 8 * b + 2) + 8
        * slot_bit(slots, 8 * b + 3) + 16 * slot_bit(slots, 8 * b + 4) + 32 * slot_bit(
        slots,
        8 * b + 5,
    ) + 64 * slot_bit(slots, 8 * b + 6) + 128 * slot_bit(slots, 8 * b + 7)
}

/// The bitmap of occupied slots.
pub open spec fn bitmap<R>(slots: Seq<Option<R>>, n: nat) -> Seq<u8> {
    Seq::new(n, |b: int| bitmap_byte(slots, b) as u8)
}

/// The value of bit `i` in a bitmap.
pub open spec fn bit_at(bits: Seq<u8>, i: int) -> bool {
    let byte = bits[i / 8] as int;
    let k = i % 8;
    if k == 0 {
        byte % 2 == 1
    } else if k == 1 {
        byte / 2 % 2 == 1
    } else if k == 2 {
        byte / 4 % 2 == 1
    } else if k == 3 {
        byte / 8 % 2 == 1
    } else if k == 4 {
        byte / 16 % 2 == 1
    } else if k == 5 {
        byte / 32 % 2 == 1
    } else if k == 6 {
        byte / 64 % 2 == 1
    } else {
        byte / 128 % 2 == 1
    }
}

/// The bytes of a slot: those of its record, or zeros.
pub open spec fn slot_bytes<R: LeafRecord>(slot: Option<R>) -> Seq<u8> {
    match slot {
        Some(r) => r.bytes(),
        None => zeros(R::size()),
    }
}

/// The bytes of the first `k` slots.
pub open spec fn slots_bytes<R: LeafRecord>(slots: Seq<Option<R>>, k: int) -> Seq<u8>
    decreases k,
{
    if k <= 0 {
        Seq::empty()
    } else {
        slots_bytes(slots, k - 1) + slot_bytes(slots[k - 1])
    }
}

/// The first occupied slot.
pub open spec fn is_first<R>(slots: Seq<Option<R>>, i: int) -> bool {
    &&& 0 <= i < slots.len()
    &&& slots[i] is Some
    &&& forall|j: int| 0 <= j < i ==> #[trigger] slots[j] is None
}

/// The last occupied slot.
pub open spec fn is_last<R>(slots: Seq<Option<R>>, i: int) -> bool {
    &&& 0 <= i < slots.len()
    &&& slots[i] is Some
    &&& forall|j: int| i < j < slots.len() ==> #[trigger] slots[j] is None
}

/// `key` is the key of the first occupied slot: its number in eight
/// big-endian bytes and eight zeros. With no slot occupied it is all zeros.
pub open spec fn first_key<R>(slots: Seq<Option<R>>, key: Seq<u8>) -> bool {
    &&& forall|i: int| #[trigger] is_first(slots, i) ==> key == be(i as nat, 8) + zeros(8)
    &&& (forall|i: int| !#[trigger] is_first(slots, i)) ==> key == zeros(16)
}

/// `key` is the key of the last occupied slot.
pub open spec fn last_key<R>(slots: Seq<Option<R>>, key: Seq<u8>) -> bool {
    &&& forall|i: int| #[trigger] is_last(slots, i) ==> key == be(i as nat, 8) + zeros(8)
    &&& (forall|i: int| !#[trigger] is_last(slots, i)) ==> key == zeros(16)
}

/// How many of the first `k` slots are occupied.
pub open spec fn occupied_count<R>(slots: Seq<Option<R>>, k: int) -> nat
    decreases k,
{
    if k <= 0 {
        0
    } else {
        occupied_count(slots, k - 1) + slot_bit(slots, k - 1)
    }
}

/// The occupied slots among the first `k`, with their records.
pub open spec fn occupied_slots<R>(slots: Seq<Option<R>>, k: int) -> Seq<(u64, R)>
    decreases k,
{
    if k <= 0 {
        Seq::empty()
    } else {
        match slots[k - 1] {
            Some(r) => occupied_slots(slots, k - 1).push(((k - 1) as u64, r)),
            None => occupied_slots(slots, k - 1),
        }
    }
}

/// One more than `x`, or `x` where there is no larger number.
pub open spec fn bumped(x: u64) -> u64 {
    if x == u64::MAX {
        x
    } else {
        (x + 1) as u64
    }
}

pub fn bump(x: u64) -> (r: u64)
    ensures
        r == bumped(x),
{
    if x == u64::MAX {
        x
    } else {
        x + 1
    }
}

/// `n` empty slots.
pub fn empty_slots<R: Copy>(n: usize) -> (r: Vec<Option<R>>)
    ensures
        r@ == Seq::new(n as nat, |i: int| None::<R>),
{
    let mut out: Vec<Option<R>> = Vec::new();
    let mut i: usize = 0;
    while i < n
        invariant
            i <= n,
            out@ =~= Seq::new(i as nat, |i: int| None::<R>),
        decreases n - i,
    {
        out.push(None);
        i = i + 1;
    }
    out
}

fn bit_of<R: Copy>(slots: &Vec<Option<R>>, i: usize) -> (r: u8)
    ensures
        r == slot_bit(slots@, i as int),
        r <= 1,
{
    if i < slots.len() && slots[i].is_some() {
        1
    } else {
        0
    }
}

/// Append the bitmap of occupied slots in `n` bytes.
pub fn put_bitmap<R: Copy>(out: &mut Vec<u8>, slots: &Vec<Option<R>>, n: usize)
    requires
        n <= 1024,
    ensures
        final(out)@ == old(out)@ + bitmap(slots@, n as nat),
{
    let ghost start = out@;
    let mut b: usize = 0;
    proof {
        assert(start + bitmap(slots@, 0) =~= start);
    }
    while b < n
        invariant
            b <= n <= 1024,
            out@ == start + bitmap(slots@, b as nat),
        decreases n - b,
    {
        let byte: u8 = bit_of(slots, 8 * b) + 2 * bit_of(slots, 8 * b + 1) + 4 * bit_of(
            slots,
            8 * b + 2,
        ) + 8 * bit_of(slots, 8 * b + 3) + 16 * bit_of(slots, 8 * b + 4) + 32 * bit_of(
            slots,
            8 * b + 5,
        ) + 64 * bit_of(slots, 8 * b + 6) + 128 * bit_of(slots, 8 * b + 7);
        let ghost before = out@;
        out.push(byte);
        proof {
            assert(byte == bitmap_byte(slots@, b as int) as u8);
            assert(out@ =~= start + bitmap(slots@, (b + 1) as nat));
        }
        b = b + 1;
    }
}

/// Whether bit `i` of the bitmap at `at` is set.
pub fn get_bit(s: &[u8], at: usize, i: usize) -> (r: bool)
    requires
        at + i / 8 < s@.len(),
    ensures
        r == bit_at(s@.skip(at as int), i as int),
{
    let total = s.len();
    let byte: u8 = s[at + i / 8];
    proof {
        assert(s@.skip(at as int)[i as int / 8] == byte);
    }
    let k: usize = i % 8;
    if k == 0 {
        byte % 2 == 1
    } else if k == 1 {
        byte / 2 % 2 == 1
    } else if k == 2 {
        byte / 4 % 2 == 1
    } else if k == 3 {
        byte / 8 % 2 == 1
    } else if k == 4 {
        byte / 16 % 2 == 1
    } else if k == 5 {
        byte / 32 % 2 == 1
    } else if k == 6 {
        byte / 64 % 2 == 1
    } else {
        byte / 128 % 2 == 1
    }
}

/// Append the bytes of all slots.
pub fn put_slots<R: LeafRecord>(out: &mut Vec<u8>, slots: &Vec<Option<R>>)
    ensures
        final(out)@ == old(out)@ + slots_bytes(slots@, slots@.len() as int),
{
    let ghost start = out@;
    let mut i: usize = 0;
    proof {
        assert(start + slots_bytes(slots@, 0) =~= start);
    }
    while i < slots.len()
        invariant
            i <= slots@.len(),
            out@ == start + slots_bytes(slots@, i as int),
        decreases slots@.len() - i,
    {
        match slots[i] {
            Some(r) => {
                r.put_record(out);
            },
            None => {
                put_zeros(out, R::record_size());
            },
        }
        proof {
            assert(out@ =~= start + slots_bytes(slots@, i + 1));
        }
        i = i + 1;
    }
}

/// The slots, read back: `slots[i]` is occupied exactly when bit `i` is set,
/// and then holds the record at position `i`.
pub open spec fn slots_read<R: LeafRecord>(
    slots: Seq<Option<R>>,
    bytes: Seq<u8>,
    bits_at: int,
    records_at: int,
) -> bool {
    &&& forall|i: int|
        0 <= i < slots.len() ==> (#[trigger] slots[i] is Some <==> bit_at(bytes.skip(bits_at), i))
    &&& forall|i: int|
        0 <= i < slots.len() && #[trigger] slots[i] is Some ==> slots[i]->0.bytes()
            == bytes.subrange(records_at + i * R::size(), records_at + i * R::size() + R::size())
}

/// Read `n` slots.
pub fn get_slots<R: LeafRecord>(s: &[u8], bits_at: usize, records_at: usize, n: usize) -> (r: Vec<
    Option<R>,
>)
    requires
        bits_at + n / 8 < s@.len(),
        records_at + n * R::size() <= s@.len(),
        n <= 0x1_0000,
    ensures
        r@.len() == n,
        slots_read(r@, s@, bits_at as int, records_at as int),
{
    let mut out: Vec<Option<R>> = Vec::new();
    let size = R::record_size();
    let total = s.len();
    let mut at: usize = records_at;
    let mut i: usize = 0;
    proof {
        assert(0 * R::size() == 0) by (nonlinear_arith);
    }
    while i < n
        invariant
            i <= n <= 0x1_0000,
            size == R::size(),
            total == s@.len(),
            bits_at + n / 8 < total,
            records_at + n * R::size() <= total,
            at == records_at + i * R::size(),
            out@.len() == i,
            slots_read(out@, s@, bits_at as int, records_at as int),
        decreases n - i,
    {
        proof {
            assert((i + 1) * R::size() == i * R::size() + R::size()) by (nonlinear_arith);
            assert((i + 1) * R::size() <= n * R::size()) by (nonlinear_arith)
                requires
                    i + 1 <= n,
            ;
        }
        let ghost before = out@;
        if get_bit(s, bits_at, i) {
            let rec = R::get_record(s, at);
            out.push(Some(rec));
        } else {
            out.push(None);
        }
        proof {
            assert forall|j: int| 0 <= j < out@.len() implies (#[trigger] out@[j] is Some <==> bit_at(
                s@.skip(bits_at as int),
                j,
            )) by {
                if j < i {
                    assert(out@[j] == before[j]);
                }
            }
            assert forall|j: int| 0 <= j < out@.len() && #[trigger] out@[j] is Some implies
                out@[j]->0.bytes() == s@.subrange(
                records_at + j * R::size(),
                records_at + j * R::size() + R::size(),
            ) by {
                if j < i {
                    assert(out@[j] == before[j]);
                }
            }
        }
        at = at + size;
        i = i + 1;
    }
    out
}

/// The key of the first occupied slot.
pub fn min_slot_key<R: Copy>(slots: &Vec<Option<R>>) -> (r: [u8; 16])
    ensures
        first_key(slots@, r@),
{
    let mut i: usize = 0;
    while i < slots.len()
        invariant
            i <= slots@.len(),
            forall|j: int| 0 <= j < i ==> #[trigger] slots@[j] is None,
        decreases slots@.len() - i,
    {
        if slots[i].is_some() {
            let k = slot_key(i);
            proof {
                assert(is_first(slots@, i as int));
                assert forall|j: int| #[trigger] is_first(slots@, j) implies j == i by {}
            }
            return k;
        }
        i = i + 1;
    }
    let z: [u8; 16] = [0u8; 16];
    proof {
        assert(z@ =~= zeros(16));
        assert forall|j: int| !#[trigger] is_first(slots@, j) by {}
    }
    z
}

/// The key of the last occupied slot.
pub fn max_slot_key<R: Copy>(slots: &Vec<Option<R>>) -> (r: [u8; 16])
    ensures
        last_key(slots@, r@),
{
    let mut i: usize = slots.len();
    while i > 0
        invariant
            i <= slots@.len(),
            forall|j: int| i <= j < slots@.len() ==> #[trigger] slots@[j] is None,
        decreases i,
    {
        i = i - 1;
        if slots[i].is_some() {
            let k = slot_key(i);
            proof {
                assert(is_last(slots@, i as int));
                assert forall|j: int| #[trigger] is_last(slots@, j) implies j == i by {}
            }
            return k;
        }
    }
    let z: [u8; 16] = [0u8; 16];
    proof {
        assert(z@ =~= zeros(16));
        assert forall|j: int| !#[trigger] is_last(slots@, j) by {}
    }
    z
}

fn slot_key(i: usize) -> (r: [u8; 16])
    ensures
        r@ == be(i as nat, 8) + zeros(8),
{
    let mut v: Vec<u8> = Vec::new();
    put_be(&mut v, i as u64, 8);
    put_zeros(&mut v, 8);
    proof {
        lemma_be_len(i as nat, 8);
        assert(v@ =~= be(i as nat, 8) + zeros(8));
        assert(v@.subrange(0, 16) =~= v@);
    }
    get_array::<16>(v.as_slice(), 0)
}

/// How many slots are occupied.
pub fn count_occupied<R: Copy>(slots: &Vec<Option<R>>) -> (r: usize)
    ensures
        r == occupied_count(slots@, slots@.len() as int),
{
    let mut n: usize = 0;
    let mut i: usize = 0;
    while i < slots.len()
        invariant
            i <= slots@.len(),
            n <= i,
            n == occupied_count(slots@, i as int),
        decreases slots@.len() - i,
    {
        if slots[i].is_some() {
            n = n + 1;
        }
        i = i + 1;
    }
    n
}

/// The occupied slots with their records.
pub fn list_occupied<R: Copy>(slots: &Vec<Option<R>>) -> (r: Vec<(u64, R)>)
    ensures
        r@ == occupied_slots(slots@, slots@.len() as int),
{
    let mut out: Vec<(u64, R)> = Vec::new();
    let mut i: usize = 0;
    while i < slots.len()
        invariant
            i <= slots@.len(),
            out@ == occupied_slots(slots@, i as int),
        decreases slots@.len() - i,
    {
        match slots[i] {
            Some(r) => {
                out.push((i as u64, r));
            },
            None => {},
        }
        i = i + 1;
    }
    out
}

/// The bytes of the slots have the length that the positions ask for.
pub proof fn lemma_slots_len<R: LeafRecord>(slots: Seq<Option<R>>, k: int)
    requires
        0 <= k <= slots.len(),
    ensures
        slots_bytes(slots, k).len() == k * R::size(),
    decreases k,
{
    if k > 0 {
        lemma_slots_len(slots, k - 1);
        match slots[k - 1] {
            Some(r) => {
                r.bytes_len();
            },
            None => {},
        }
        assert((k - 1) * R::size() + R::size() == k * R::size()) by (nonlinear_arith);
    } else {
        assert(0 * R::size() == 0) by (nonlinear_arith);
    }
}

/// Slot `i` stands at its position.
pub proof fn lemma_slot_position<R: LeafRecord>(slots: Seq<Option<R>>, k: int, i: int)
    requires
        0 <= i < k <= slots.len(),
    ensures
        i * R::size() + R::size() <= k * R::size(),
        slots_bytes(slots, k).subrange(i * R::size(), i * R::size() + R::size()) == slot_bytes(
            slots[i],
        ),
    decreases k,
{
    lemma_slots_len(slots, k - 1);
    lemma_slots_len(slots, k);
    assert((k - 1) * R::size() + R::size() == k * R::size()) by (nonlinear_arith);
    if i < k - 1 {
        lemma_slot_position(slots, k - 1, i);
        assert(slots_bytes(slots, k).subrange(i * R::size(), i * R::size() + R::size())
            =~= slots_bytes(slots, k - 1).subrange(i * R::size(), i * R::size() + R::size()));
    } else {
        assert(slots_bytes(slots, k).subrange(i * R::size(), i * R::size() + R::size())
            =~= slot_bytes(slots[i]));
    }
}

/// Bit `i` of the bitmap says whether slot `i` is occupied.
pub proof fn lemma_bitmap_bit<R>(slots: Seq<Option<R>>, n: nat, i: int)
    requires
        0 <= i < slots.len(),
        i / 8 < n,
    ensures
        bit_at(bitmap(slots, n), i) == (slots[i] is Some),
{
    let b = i / 8;
    let byte = bitmap_byte(slots, b);
    assert(byte <= 255);
    assert(bitmap(slots, n)[b] as int == byte);
    assert(i == 8 * b + i % 8);
    let b0 = slot_bit(slots, 8 * b);
    let b1 = slot_bit(slots, 8 * b + 1);
    let b2 = slot_bit(slots, 8 * b + 2);
    let b3 = slot_bit(slots, 8 * b + 3);
    let b4 = slot_bit(slots, 8 * b + 4);
    let b5 = slot_bit(slots, 8 * b + 5);
    let b6 = slot_bit(slots, 8 * b + 6);
    let b7 = slot_bit(slots, 8 * b + 7);
    assert(byte == b0 + 2 * (b1 + 2 * (b2 + 2 * (b3 + 2 * (b4 + 2 * (b5 + 2 * (b6 + 2 * b7)))))));
    assert(byte % 2 == b0);
    assert(byte / 2 % 2 == b1);
    assert(byte / 4 % 2 == b2);
    assert(byte / 8 % 2 == b3);
    assert(byte / 16 % 2 == b4);
    assert(byte / 32 % 2 == b5);
    assert(byte / 64 % 2 == b6);
    assert(byte / 128 % 2 == b7);
}

/// Slots that were written and read back are the same slots.
pub proof fn lemma_slots_round_trip<R: LeafRecord>(
    slots: Seq<Option<R>>,
    back: Seq<Option<R>>,
    n: nat,
    bytes: Seq<u8>,
    bits_at: int,
    records_at: int,
)
    requires
        back.len() == slots.len(),
        slots.len() <= 8 * n,
        0 <= bits_at,
        bits_at + n <= bytes.len(),
        bytes.subrange(bits_at, bits_at + n) == bitmap(slots, n),
        0 <= records_at,
        records_at + slots.len() * R::size() <= bytes.len(),
        bytes.subrange(records_at, records_at + slots.len() * R::size()) == slots_bytes(
            slots,
            slots.len() as int,
        ),
        slots_read(back, bytes, bits_at, records_at),
    ensures
        back == slots,
{
    let m = slots.len() as int;
    assert forall|i: int| 0 <= i < m implies back[i] == slots[i] by {
        lemma_bitmap_bit(slots, n, i);
        assert(bytes.skip(bits_at)[i / 8] == bytes.subrange(bits_at, bits_at + n)[i / 8]);
        assert(bit_at(bytes.skip(bits_at), i) == bit_at(bitmap(slots, n), i));
        if slots[i] is Some {
            assert(back[i] is Some);
            lemma_slot_position(slots, m, i);
            let lo = i * R::size();
            let hi = i * R::size() + R::size();
            assert(0 <= lo) by (nonlinear_arith)
                requires
                    i >= 0,
                    lo == i * R::size(),
            ;
            assert(bytes.subrange(records_at + lo, records_at + hi) =~= bytes.subrange(
                records_at,
                records_at + m * R::size(),
            ).subrange(lo, hi));
            R::bytes_injective(back[i]->0, slots[i]->0);
        } else {
            assert(back[i] is None);
        }
    }
    assert(back =~= slots);
}

} // verus!
