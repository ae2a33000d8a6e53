//! CRC32C, the checksum at the end of every metadata block.

use vstd::prelude::*;

verus! {

/// The Castagnoli polynomial, bit-reversed.
pub const CRC32C_POLY: u32 = 0x82F6_3B78;

/// One bit of the division.
pub open spec fn crc_bit(c: u32) -> u32 {
    if c & 1 == 1 {
        (c >> 1) ^ CRC32C_POLY
    } else {
        c >> 1
    }
}

/// `n` bits of the division.
pub open spec fn crc_bits(c: u32, n: nat) -> u32
    decreases n,
{
    if n == 0 {
        c
    } else {
        crc_bit(crc_bits(c, (n - 1) as nat))
    }
}

/// The state after the bytes `s`, from the state `c`.
pub open spec fn crc_fold(c: u32, s: Seq<u8>) -> u32
    decreases s.len(),
{
    if s.len() == 0 {
        c
    } else {
        crc_bits(crc_fold(c, s.drop_last()) ^ (s.last() as u32), 8)
    }
}

/// The CRC32C of `s`.
pub open spec fn crc32c(s: Seq<u8>) -> u32 {
    !crc_fold(0xFFFF_FFFF, s)
}

fn step_bits(c: u32) -> (r: u32)
    ensures
        r == crc_bits(c, 8),
{
    let mut x: u32 = c;
    let mut i: u32 = 0;
    while i < 8
        invariant
            i <= 8,
            x == crc_bits(c, i as nat),
        decreases 8 - i,
    {
        x = if x & 1 == 1 {
            (x >> 1) ^ CRC32C_POLY
        } else {
            x >> 1
        };
        i = i + 1;
    }
    x
}

/// The CRC32C of the bytes `from..to` of `s`.
pub fn block_crc(s: &[u8], from: usize, to: usize) -> (r: u32)
    requires
        from <= to <= s@.len(),
    ensures
        r == crc32c(s@.subrange(from as int, to as int)),
{
    let mut c: u32 = 0xFFFF_FFFF;
    let mut i: usize = from;
    while i < to
        invariant
            from <= i <= to,
            to <= s@.len(),
            c == crc_fold(0xFFFF_FFFF, s@.subrange(from as int, i as int)),
        decreases to - i,
    {
        proof {
            let w = s@.subrange(from as int, i + 1);
            assert(w.drop_last() =~= s@.subrange(from as int, i as int));
            assert(w.last() == s@[i as int]);
        }
        c = step_bits(c ^ (s[i] as u32));
        i = i + 1;
    }
    !c
}

} // verus!
