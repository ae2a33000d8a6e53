//! Building and comparing text.

use vstd::prelude::*;
use vstd::utf8::{decode_utf8, encode_utf8, valid_utf8};
use crate::bytes::same_bytes;

verus! {

/// `String::push`: appends one character.
pub assume_specification[ String::push ](s: &mut String, c: char)
    ensures
        final(s)@ == old(s)@.push(c),
;

/// `String::push_str`: appends a string.
pub assume_specification[ String::push_str ](s: &mut String, t: &str)
    ensures
        final(s)@ == old(s)@ + t@,
;

/// Equal characters, equal bytes, and the other way round.
pub proof fn lemma_same_text(a: Seq<char>, b: Seq<char>)
    ensures
        (a == b) == (encode_utf8(a) == encode_utf8(b)),
{
    broadcast use vstd::utf8::encode_utf8_decode_utf8;

    assert(decode_utf8(encode_utf8(a)) == a);
    assert(decode_utf8(encode_utf8(b)) == b);
}

/// Whether two strings are equal.
pub fn same_text(a: &str, b: &str) -> (r: bool)
    ensures
        r == (a@ == b@),
{
    proof {
        lemma_same_text(a@, b@);
    }
    same_bytes(a.as_bytes(), b.as_bytes())
}

/// The digit for `d`, up to `f`.
pub open spec fn digit(d: nat) -> char {
    if d == 0 {
        '0'
    } else if d == 1 {
        '1'
    } else if d == 2 {
        '2'
    } else if d == 3 {
        '3'
    } else if d == 4 {
        '4'
    } else if d == 5 {
        '5'
    } else if d == 6 {
        '6'
    } else if d == 7 {
        '7'
    } else if d == 8 {
        '8'
    } else if d == 9 {
        '9'
    } else if d == 10 {
        'a'
    } else if d == 11 {
        'b'
    } else if d == 12 {
        'c'
    } else if d == 13 {
        'd'
    } else if d == 14 {
        'e'
    } else {
        'f'
    }
}

/// `n` in decimal, without leading zeros.
pub open spec fn dec(n: nat) -> Seq<char>
    decreases n,
{
    if n < 10 {
        seq![digit(n)]
    } else {
        dec(n / 10).push(digit(n % 10))
    }
}

/// `n` in lower-case hexadecimal, without leading zeros.
pub open spec fn hex(n: nat) -> Seq<char>
    decreases n,
{
    if n < 16 {
        seq![digit(n)]
    } else {
        hex(n / 16).push(digit(n % 16))
    }
}

/// `i` in decimal, with a minus sign where it is negative.
pub open spec fn signed_dec(i: int) -> Seq<char> {
    if i < 0 {
        seq!['-'] + dec((-i) as nat)
    } else {
        dec(i as nat)
    }
}

pub fn digit_char(d: u64) -> (r: char)
    ensures
        r == digit(d as nat),
{
    match d {
        0 => '0',
        1 => '1',
        2 => '2',
        3 => '3',
        4 => '4',
        5 => '5',
        6 => '6',
        7 => '7',
        8 => '8',
        9 => '9',
        10 => 'a',
        11 => 'b',
        12 => 'c',
        13 => 'd',
        14 => 'e',
        _ => 'f',
    }
}

/// Append `n` in decimal.
pub fn push_dec(out: &mut String, n: u64)
    ensures
        final(out)@ == old(out)@ + dec(n as nat),
    decreases n,
{
    let ghost start = out@;
    if n < 10 {
        out.push(digit_char(n));
    } else {
        push_dec(out, n / 10);
        out.push(digit_char(n % 10));
    }
    proof {
        assert(out@ =~= start + dec(n as nat));
    }
}

/// Append `n` in lower-case hexadecimal.
pub fn push_hex(out: &mut String, n: u64)
    ensures
        final(out)@ == old(out)@ + hex(n as nat),
    decreases n,
{
    let ghost start = out@;
    if n < 16 {
        out.push(digit_char(n));
    } else {
        push_hex(out, n / 16);
        out.push(digit_char(n % 16));
    }
    proof {
        assert(out@ =~= start + hex(n as nat));
    }
}

/// Append `i` in decimal.
pub fn push_signed(out: &mut String, i: i64)
    ensures
        final(out)@ == old(out)@ + signed_dec(i as int),
{
    if i < 0 {
        let ghost start = out@;
        let magnitude: u64 = if i == i64::MIN {
            0x8000_0000_0000_0000u64
        } else {
            (-i) as u64
        };
        out.push('-');
        push_dec(out, magnitude);
        proof {
            assert(out@ =~= start + signed_dec(i as int));
        }
    } else {
        push_dec(out, i as u64)
    }
}

/// `head`, `middle` and `tail` in one string.
pub fn joined(head: &str, middle: &str, tail: &str) -> (r: String)
    ensures
        r@ == head@ + middle@ + tail@,
{
    let mut out = String::new();
    out.push_str(head);
    out.push_str(middle);
    out.push_str(tail);
    proof {
        assert(out@ =~= head@ + middle@ + tail@);
    }
    out
}

/// The low `w` hexadecimal digits of `n`.
pub open spec fn fixed_hex(n: nat, w: nat) -> Seq<char>
    decreases w,
{
    if w == 0 {
        Seq::empty()
    } else {
        fixed_hex(n / 16, (w - 1) as nat).push(digit(n % 16))
    }
}

/// `n` with all its eight hexadecimal digits, behind `0x`.
pub open spec fn hex_word(n: u32) -> Seq<char> {
    "0x"@ + fixed_hex(n as nat, 8)
}

fn push_fixed_hex(out: &mut String, n: u64, w: u32)
    ensures
        final(out)@ == old(out)@ + fixed_hex(n as nat, w as nat),
    decreases w,
{
    let ghost start = out@;
    if w > 0 {
        push_fixed_hex(out, n / 16, w - 1);
        out.push(digit_char(n % 16));
    }
    proof {
        assert(out@ =~= start + fixed_hex(n as nat, w as nat));
    }
}

/// Append `n` with all its eight hexadecimal digits, behind `0x`.
pub fn push_hex_word(out: &mut String, n: u32)
    ensures
        final(out)@ == old(out)@ + hex_word(n),
{
    let ghost start = out@;
    out.push_str("0x");
    push_fixed_hex(out, n as u64, 8);
    proof {
        assert(out@ =~= start + hex_word(n));
    }
}

/// Four bytes in brackets.
pub open spec fn four_bytes(a: Seq<u8>) -> Seq<char> {
    "["@ + dec(a[0] as nat) + ", "@ + dec(a[1] as nat) + ", "@ + dec(a[2] as nat) + ", "@ + dec(
        a[3] as nat,
    ) + "]"@
}

/// Append four bytes in brackets.
pub fn push_four_bytes(out: &mut String, a: &[u8; 4])
    ensures
        final(out)@ == old(out)@ + four_bytes(a@),
{
    let ghost start = out@;
    out.push_str("[");
    push_dec(out, a[0] as u64);
    out.push_str(", ");
    push_dec(out, a[1] as u64);
    out.push_str(", ");
    push_dec(out, a[2] as u64);
    out.push_str(", ");
    push_dec(out, a[3] as u64);
    out.push_str("]");
    proof {
        assert(out@ =~= start + four_bytes(a@));
    }
}

/// `String::from_utf8`: the text that the bytes encode, if they encode one.
#[verifier::external_body]
pub(crate) fn text_from_utf8(bytes: Vec<u8>) -> (r: Option<String>)
    ensures
        match r {
            Some(s) => valid_utf8(bytes@) && s@ == decode_utf8(bytes@),
            None => !valid_utf8(bytes@),
        },
{
    String::from_utf8(bytes).ok()
}

} // verus!
