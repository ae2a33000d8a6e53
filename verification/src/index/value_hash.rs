//! Keyed hashes of attribute values: SipHash-2-4 of a value's encoding.

use vstd::prelude::*;
use crate::bytes::{bits_of, get_le, le, le_value, lemma_pow256_monotone, lemma_pow256_values,
    put_bytes, put_le, to_bits};
use crate::types::value::{Value, ValueModel};

verus! {

/// The four words of the SipHash state.
#[derive(Clone, Copy)]
pub struct SipState {
    pub v0: u64,
    pub v1: u64,
    pub v2: u64,
    pub v3: u64,
}

/// The sum without its carry out of the top bit.
pub open spec fn wrapped_sum(a: u64, b: u64) -> u64 {
    ((a + b) % 0x1_0000_0000_0000_0000) as u64
}

/// One SipHash round.
pub open spec fn sip_round(s: SipState) -> SipState {
    let a0 = wrapped_sum(s.v0, s.v1);
    let a1 = ((s.v1 << 13) | (s.v1 >> 51)) ^ a0;
    let b0 = (a0 << 32) | (a0 >> 32);
    let a2 = wrapped_sum(s.v2, s.v3);
    let a3 = ((s.v3 << 16) | (s.v3 >> 48)) ^ a2;
    let c0 = wrapped_sum(b0, a3);
    let b3 = ((a3 << 21) | (a3 >> 43)) ^ c0;
    let b2 = wrapped_sum(a2, a1);
    let b1 = ((a1 << 17) | (a1 >> 47)) ^ b2;
    let c2 = (b2 << 32) | (b2 >> 32);
    SipState { v0: c0, v1: b1, v2: c2, v3: b3 }
}

/// The state after the word `m`: two rounds.
pub open spec fn sip_absorb(s: SipState, m: u64) -> SipState {
    let t = sip_round(sip_round(SipState { v3: s.v3 ^ m, ..s }));
    SipState { v0: t.v0 ^ m, ..t }
}

/// The state before any data.
pub open spec fn sip_start(k0: u64, k1: u64) -> SipState {
    SipState {
        v0: k0 ^ 0x736f_6d65_7073_6575,
        v1: k1 ^ 0x646f_7261_6e64_6f6d,
        v2: k0 ^ 0x6c79_6765_6e65_7261,
        v3: k1 ^ 0x7465_6462_7974_6573,
    }
}

/// The state after the first `n` whole words of the data.
pub open spec fn sip_words(k0: u64, k1: u64, data: Seq<u8>, n: nat) -> SipState
    decreases n,
{
    if n == 0 {
        sip_start(k0, k1)
    } else {
        sip_absorb(
            sip_words(k0, k1, data, (n - 1) as nat),
            le_value(data.subrange(8 * (n - 1), 8 * n as int)) as u64,
        )
    }
}

/// The last word: the bytes that are left, and the length in the top byte.
pub open spec fn sip_tail(data: Seq<u8>) -> u64 {
    let whole = data.len() as int / 8 * 8;
    (le_value(data.subrange(whole, data.len() as int)) + (data.len() % 256)
        * 0x100_0000_0000_0000) as u64
}

/// SipHash-2-4 of the data under the key.
#[verifier::opaque]
pub open spec fn siphash(k0: u64, k1: u64, data: Seq<u8>) -> u64 {
    let s = sip_absorb(sip_words(k0, k1, data, data.len() / 8), sip_tail(data));
    let t = sip_round(
        sip_round(sip_round(sip_round(SipState { v2: s.v2 ^ 0xff, ..s }))),
    );
    t.v0 ^ t.v1 ^ t.v2 ^ t.v3
}

fn add_words(a: u64, b: u64) -> (r: u64)
    ensures
        r == wrapped_sum(a, b),
{
    a.wrapping_add(b)
}

fn round(s: SipState) -> (r: SipState)
    ensures
        r == sip_round(s),
{
    let a0 = add_words(s.v0, s.v1);
    let a1 = ((s.v1 << 13) | (s.v1 >> 51)) ^ a0;
    let b0 = (a0 << 32) | (a0 >> 32);
    let a2 = add_words(s.v2, s.v3);
    let a3 = ((s.v3 << 16) | (s.v3 >> 48)) ^ a2;
    let c0 = add_words(b0, a3);
    let b3 = ((a3 << 21) | (a3 >> 43)) ^ c0;
    let b2 = add_words(a2, a1);
    let b1 = ((a1 << 17) | (a1 >> 47)) ^ b2;
    let c2 = (b2 << 32) | (b2 >> 32);
    SipState { v0: c0, v1: b1, v2: c2, v3: b3 }
}

fn absorb(s: SipState, m: u64) -> (r: SipState)
    ensures
        r == sip_absorb(s, m),
{
    let t = round(round(SipState { v0: s.v0, v1: s.v1, v2: s.v2, v3: s.v3 ^ m }));
    SipState { v0: t.v0 ^ m, v1: t.v1, v2: t.v2, v3: t.v3 }
}

/// SipHash-2-4 of the data under the key.
pub fn sip_hash(k0: u64, k1: u64, data: &[u8]) -> (r: u64)
    ensures
        r == siphash(k0, k1, data@),
{
    proof {
        reveal(siphash);
    }
    let total = data.len();
    let mut s = SipState {
        v0: k0 ^ 0x736f_6d65_7073_6575,
        v1: k1 ^ 0x646f_7261_6e64_6f6d,
        v2: k0 ^ 0x6c79_6765_6e65_7261,
        v3: k1 ^ 0x7465_6462_7974_6573,
    };
    let words: usize = total / 8;
    let mut i: usize = 0;
    while i < words
        invariant
            i <= words,
            words == total / 8,
            total == data@.len(),
            s == sip_words(k0, k1, data@, i as nat),
        decreases words - i,
    {
        let m = get_le(data, 8 * i, 8);
        s = absorb(s, m);
        i = i + 1;
    }
    let left: usize = total - words * 8;
    let low = get_le(data, words * 8, left);
    proof {
        lemma_pow256_monotone(left as nat, 7);
        lemma_pow256_values();
        reveal_with_fuel(crate::bytes::pow256, 8);
    }
    let tail: u64 = low + ((total % 256) as u64) * 0x100_0000_0000_0000;
    s = absorb(s, tail);
    let t = round(
        round(round(round(SipState { v0: s.v0, v1: s.v1, v2: s.v2 ^ 0xff, v3: s.v3 }))),
    );
    t.v0 ^ t.v1 ^ t.v2 ^ t.v3
}

/// The encoding of a value: a byte for its type, then its content.
pub open spec fn value_encoding(v: ValueModel) -> Seq<u8>
    decreases v,
{
    match v {
        ValueModel::Text(s) => seq![0u8] + vstd::utf8::encode_utf8(s),
        ValueModel::Int(i) => seq![1u8] + le(bits_of(i as i64) as nat, 8),
        ValueModel::Float(f) => seq![2u8] + le(f as nat, 8),
        ValueModel::Timestamp(t) => seq![3u8] + le(bits_of(t as i64) as nat, 8),
        ValueModel::Blob(b) => seq![4u8] + b,
        ValueModel::Scoped(c, inner) => seq![5u8] + le(c.id as nat, 4) + value_encoding(*inner),
    }
}

fn put_value(out: &mut Vec<u8>, v: &Value)
    ensures
        final(out)@ == old(out)@ + value_encoding(v@),
    decreases v,
{
    let ghost start = out@;
    match v {
        Value::Text(s) => {
            out.push(0);
            put_bytes(out, s.as_str().as_bytes());
        },
        Value::Int(i) => {
            out.push(1);
            put_le(out, to_bits(*i), 8);
        },
        Value::Float(f) => {
            out.push(2);
            put_le(out, *f, 8);
        },
        Value::Timestamp(t) => {
            out.push(3);
            put_le(out, to_bits(*t), 8);
        },
        Value::Blob(b) => {
            out.push(4);
            put_bytes(out, b.as_slice());
        },
        Value::Scoped { context, inner } => {
            out.push(5);
            put_le(out, context.id as u64, 4);
            put_value(out, inner);
        },
    }
    proof {
        assert(out@ =~= start + value_encoding(v@));
    }
}

/// The hash of a value under a sixteen-byte secret.
pub open spec fn hash_of(v: ValueModel, secret: Seq<u8>) -> u64 {
    siphash(
        le_value(secret.subrange(0, 8)) as u64,
        le_value(secret.subrange(8, 16)) as u64,
        value_encoding(v),
    )
}

/// The hash of a value under a sixteen-byte secret.
pub fn value_hash(value: &Value, secret: &[u8; 16]) -> (r: u64)
    ensures
        r == hash_of(value@, secret@),
{
    let mut data: Vec<u8> = Vec::new();
    put_value(&mut data, value);
    proof {
        assert(data@ =~= value_encoding(value@));
    }
    let k0 = get_le(secret.as_slice(), 0, 8);
    let k1 = get_le(secret.as_slice(), 8, 8);
    sip_hash(k0, k1, data.as_slice())
}

} // verus!
