//! Little- and big-endian byte images of unsigned integers, and the small
//! buffer operations that every wire format in this crate is built from.

use vstd::prelude::*;

verus! {

/// `256` to the power `n`.
pub open spec fn pow256(n: nat) -> nat
    decreases n,
{
    if n == 0 {
        1
    } else {
        256 * pow256((n - 1) as nat)
    }
}

/// The `n` low bytes of `x`, least significant byte first.
pub open spec fn le(x: nat, n: nat) -> Seq<u8>
    decreases n,
{
    if n == 0 {
        Seq::empty()
    } else {
        seq![(x % 256) as u8] + le(x / 256, (n - 1) as nat)
    }
}

/// The number whose bytes, least significant first, are `s`.
pub open spec fn le_value(s: Seq<u8>) -> nat
    decreases s.len(),
{
    if s.len() == 0 {
        0
    } else {
        s[0] as nat + 256 * le_value(s.skip(1))
    }
}

/// The `n` low bytes of `x`, most significant byte first.
pub open spec fn be(x: nat, n: nat) -> Seq<u8>
    decreases n,
{
    if n == 0 {
        Seq::empty()
    } else {
        be(x / 256, (n - 1) as nat).push((x % 256) as u8)
    }
}

/// The number whose bytes, most significant first, are `s`.
pub open spec fn be_value(s: Seq<u8>) -> nat
    decreases s.len(),
{
    if s.len() == 0 {
        0
    } else {
        256 * be_value(s.drop_last()) + s.last() as nat
    }
}

/// `n` zero bytes.
pub open spec fn zeros(n: nat) -> Seq<u8> {
    Seq::new(n, |i: int| 0u8)
}

/// `a` comes before `b` when byte strings are compared byte by byte from the
/// left, a proper prefix coming first.
pub open spec fn lex_less(a: Seq<u8>, b: Seq<u8>) -> bool
    decreases b.len(),
{
    if b.len() == 0 {
        false
    } else if a.len() == 0 {
        true
    } else if a[0] != b[0] {
        a[0] < b[0]
    } else {
        lex_less(a.skip(1), b.skip(1))
    }
}

pub broadcast proof fn lemma_le_len(x: nat, n: nat)
    ensures
        #[trigger] le(x, n).len() == n,
    decreases n,
{
    if n > 0 {
        lemma_le_len(x / 256, (n - 1) as nat);
    }
}

pub broadcast proof fn lemma_be_len(x: nat, n: nat)
    ensures
        #[trigger] be(x, n).len() == n,
    decreases n,
{
    if n > 0 {
        lemma_be_len(x / 256, (n - 1) as nat);
    }
}

/// The powers of 256 that bound the machine integers.
pub proof fn lemma_pow256_values()
    ensures
        pow256(0) == 1,
        pow256(1) == 0x100,
        pow256(2) == 0x1_0000,
        pow256(4) == 0x1_0000_0000,
        pow256(6) == 0x1_0000_0000_0000,
        pow256(8) == 0x1_0000_0000_0000_0000,
{
    reveal_with_fuel(pow256, 9);
}

pub proof fn lemma_pow256_monotone(a: nat, b: nat)
    requires
        a <= b,
    ensures
        pow256(a) <= pow256(b),
        1 <= pow256(a),
    decreases b,
{
    if a < b {
        lemma_pow256_monotone(a, (b - 1) as nat);
    } else if a > 0 {
        lemma_pow256_monotone((a - 1) as nat, (b - 1) as nat);
    }
}

/// Reading back the little-endian image of a number that fits gives the number.
pub proof fn lemma_le_value_of_le(x: nat, n: nat)
    requires
        x < pow256(n),
    ensures
        le_value(le(x, n)) == x,
    decreases n,
{
    if n > 0 {
        let t = le(x / 256, (n - 1) as nat);
        assert(x / 256 < pow256((n - 1) as nat));
        lemma_le_value_of_le(x / 256, (n - 1) as nat);
        assert(le(x, n).skip(1) =~= t);
        assert(le(x, n)[0] == (x % 256) as u8);
    }
}

/// Any byte string is the little-endian image of its value.
pub proof fn lemma_le_of_le_value(s: Seq<u8>)
    ensures
        le(le_value(s), s.len()) == s,
        le_value(s) < pow256(s.len()),
    decreases s.len(),
{
    if s.len() > 0 {
        let t = s.skip(1);
        lemma_le_of_le_value(t);
        let v = le_value(s);
        assert(v % 256 == s[0] as nat && v / 256 == le_value(t));
        assert(le(v, s.len()) =~= s);
    } else {
        assert(le(le_value(s), s.len()) =~= s);
    }
}

/// Reading back the big-endian image of a number that fits gives the number.
pub proof fn lemma_be_value_of_be(x: nat, n: nat)
    requires
        x < pow256(n),
    ensures
        be_value(be(x, n)) == x,
    decreases n,
{
    if n > 0 {
        let t = be(x / 256, (n - 1) as nat);
        assert(x / 256 < pow256((n - 1) as nat));
        lemma_be_value_of_be(x / 256, (n - 1) as nat);
        assert(be(x, n).drop_last() =~= t);
    }
}

/// Any byte string is the big-endian image of its value.
pub proof fn lemma_be_of_be_value(s: Seq<u8>)
    ensures
        be(be_value(s), s.len()) == s,
        be_value(s) < pow256(s.len()),
    decreases s.len(),
{
    if s.len() > 0 {
        let t = s.drop_last();
        lemma_be_of_be_value(t);
        let v = be_value(s);
        assert(v % 256 == s.last() as nat && v / 256 == be_value(t));
        assert(be(v, s.len()) =~= s);
    } else {
        assert(be(be_value(s), s.len()) =~= s);
    }
}

/// Two numbers that fit in `n` bytes and have the same little-endian image are equal.
pub proof fn lemma_le_injective(x: nat, y: nat, n: nat)
    requires
        x < pow256(n),
        y < pow256(n),
        le(x, n) == le(y, n),
    ensures
        x == y,
{
    lemma_le_value_of_le(x, n);
    lemma_le_value_of_le(y, n);
}

/// Where two concatenations agree and their first parts have one length, the
/// parts agree.
pub proof fn lemma_cat_eq(a: Seq<u8>, b: Seq<u8>, c: Seq<u8>, d: Seq<u8>)
    requires
        a + b == c + d,
        a.len() == c.len() || b.len() == d.len(),
    ensures
        a == c,
        b == d,
{
    assert((a + b).len() == (c + d).len());
    assert(a =~= (a + b).take(a.len() as int));
    assert(c =~= (c + d).take(c.len() as int));
    assert(b =~= (a + b).skip(a.len() as int));
    assert(d =~= (c + d).skip(c.len() as int));
}

/// Two adjacent pieces of a byte string make up the piece that spans both.
pub proof fn lemma_adjacent(s: Seq<u8>, i: int, j: int, k: int)
    requires
        0 <= i <= j <= k <= s.len(),
    ensures
        s.subrange(i, j) + s.subrange(j, k) == s.subrange(i, k),
{
    assert(s.subrange(i, j) + s.subrange(j, k) =~= s.subrange(i, k));
}

/// Two `u16` with one image are equal.
pub proof fn lemma_u16_image(x: u16, y: u16)
    requires
        le(x as nat, 2) == le(y as nat, 2),
    ensures
        x == y,
{
    lemma_pow256_values();
    lemma_le_injective(x as nat, y as nat, 2);
}

/// Two `u32` with one image are equal.
pub proof fn lemma_u32_image(x: u32, y: u32)
    requires
        le(x as nat, 4) == le(y as nat, 4),
    ensures
        x == y,
{
    lemma_pow256_values();
    lemma_le_injective(x as nat, y as nat, 4);
}

/// Two `u64` with one image are equal.
pub proof fn lemma_u64_image(x: u64, y: u64)
    requires
        le(x as nat, 8) == le(y as nat, 8),
    ensures
        x == y,
{
    lemma_pow256_values();
    lemma_le_injective(x as nat, y as nat, 8);
}

/// `lex_less` is irreflexive and total.
pub proof fn lemma_lex_total(a: Seq<u8>, b: Seq<u8>)
    ensures
        !lex_less(a, a),
        !(lex_less(a, b) && lex_less(b, a)),
        a != b ==> lex_less(a, b) || lex_less(b, a),
    decreases a.len() + b.len(),
{
    if a.len() > 0 {
        lemma_lex_total(a.skip(1), if b.len() > 0 { b.skip(1) } else { b });
    }
    if a.len() == b.len() && a.len() == 0 {
        assert(a =~= b);
    }
    if a.len() > 0 && b.len() > 0 && a[0] == b[0] && a.skip(1) == b.skip(1) {
        assert(a =~= seq![a[0]] + a.skip(1));
        assert(b =~= seq![b[0]] + b.skip(1));
    }
}

/// `lex_less` is transitive.
pub proof fn lemma_lex_transitive(a: Seq<u8>, b: Seq<u8>, c: Seq<u8>)
    requires
        lex_less(a, b),
        lex_less(b, c),
    ensures
        lex_less(a, c),
    decreases c.len(),
{
    if a.len() > 0 && b.len() > 0 && a[0] == b[0] && b[0] == c[0] {
        lemma_lex_transitive(a.skip(1), b.skip(1), c.skip(1));
    }
}

/// A common prefix does not influence the comparison.
pub proof fn lemma_lex_prefix(p: Seq<u8>, a: Seq<u8>, b: Seq<u8>)
    ensures
        lex_less(p + a, p + b) == lex_less(a, b),
    decreases p.len(),
{
    if p.len() == 0 {
        assert(p + a =~= a);
        assert(p + b =~= b);
    } else {
        assert((p + a).skip(1) =~= p.skip(1) + a);
        assert((p + b).skip(1) =~= p.skip(1) + b);
        lemma_lex_prefix(p.skip(1), a, b);
    }
}

/// Of two strings that start with different blocks of one length, the blocks decide.
pub proof fn lemma_lex_blocks(p: Seq<u8>, q: Seq<u8>, a: Seq<u8>, b: Seq<u8>)
    requires
        p.len() == q.len(),
        p != q,
    ensures
        lex_less(p + a, q + b) == lex_less(p, q),
    decreases p.len(),
{
    if p.len() == 0 {
        assert(p =~= q);
    } else {
        assert((p + a).skip(1) =~= p.skip(1) + a);
        assert((q + b).skip(1) =~= q.skip(1) + b);
        if p[0] == q[0] {
            if p.skip(1) == q.skip(1) {
                assert(p =~= seq![p[0]] + p.skip(1));
                assert(q =~= seq![q[0]] + q.skip(1));
            }
            lemma_lex_blocks(p.skip(1), q.skip(1), a, b);
        }
    }
}

/// Big-endian images of one width sort as the numbers do.
pub proof fn lemma_be_order(x: nat, y: nat, n: nat)
    requires
        x < pow256(n),
        y < pow256(n),
    ensures
        lex_less(be(x, n), be(y, n)) == (x < y),
    decreases n,
{
    lemma_lex_total(be(x, n), be(y, n));
    if n > 0 {
        let m = (n - 1) as nat;
        let p = be(x / 256, m);
        let q = be(y / 256, m);
        lemma_be_order(x / 256, y / 256, m);
        lemma_be_len(x / 256, m);
        lemma_be_len(y / 256, m);
        let a = seq![(x % 256) as u8];
        let b = seq![(y % 256) as u8];
        assert(be(x, n) =~= p + a);
        assert(be(y, n) =~= q + b);
        if x / 256 == y / 256 {
            lemma_lex_prefix(p, a, b);
            assert(lex_less(a.skip(1), b.skip(1)) == false);
        } else {
            if p == q {
                lemma_be_value_of_be(x / 256, m);
                lemma_be_value_of_be(y / 256, m);
            }
            lemma_lex_blocks(p, q, a, b);
        }
    }
}

/// Append the low `n` bytes of `x`, least significant first.
pub fn put_le(out: &mut Vec<u8>, x: u64, n: usize)
    ensures
        final(out)@ == old(out)@ + le(x as nat, n as nat),
{
    let mut rest: u64 = x;
    let mut i: usize = 0;
    let ghost start = out@;
    proof {
        assert(start + le(x as nat, n as nat) =~= out@ + le(rest as nat, (n - i) as nat));
    }
    while i < n
        invariant
            i <= n,
            start + le(x as nat, n as nat) == out@ + le(rest as nat, (n - i) as nat),
        decreases n - i,
    {
        let ghost before = out@;
        let ghost r0 = rest;
        out.push((rest % 256) as u8);
        rest = rest / 256;
        i = i + 1;
        proof {
            assert(before + le(r0 as nat, (n - i + 1) as nat) =~= out@ + le(rest as nat, (n - i) as nat));
        }
    }
    proof {
        assert(out@ + le(rest as nat, 0) =~= out@);
    }
}

/// Append the low `n` bytes of `x`, most significant first.
pub fn put_be(out: &mut Vec<u8>, x: u64, n: usize)
    ensures
        final(out)@ == old(out)@ + be(x as nat, n as nat),
    decreases n,
{
    if n > 0 {
        let ghost start = out@;
        put_be(out, x / 256, n - 1);
        out.push((x % 256) as u8);
        proof {
            assert(out@ =~= start + be(x as nat, n as nat));
        }
    } else {
        proof {
            assert(out@ =~= out@ + be(x as nat, 0));
        }
    }
}

/// The number in the `n` bytes of `s` from `at` on, least significant first.
pub fn get_le(s: &[u8], at: usize, n: usize) -> (r: u64)
    requires
        n <= 8,
        at + n <= s@.len(),
    ensures
        r == le_value(s@.subrange(at as int, at + n)),
        r < pow256(n as nat),
{
    let total: usize = s.len();
    let mut acc: u64 = 0;
    let mut i: usize = n;
    while i > 0
        invariant
            i <= n,
            n <= 8,
            at + n <= total,
            total == s@.len(),
            acc == le_value(s@.subrange(at + i, at + n)),
            acc < pow256((n - i) as nat),
        decreases i,
    {
        i = i - 1;
        let ghost w = s@.subrange(at + i, at + n);
        proof {
            assert(w.skip(1) =~= s@.subrange(at + i + 1, at + n));
            assert(w[0] == s@[at + i]);
            lemma_pow256_monotone((n - i) as nat, 8);
            lemma_pow256_values();
            assert(acc * 256 + s@[at + i] < pow256((n - i) as nat));
        }
        acc = acc * 256 + s[at + i] as u64;
    }
    acc
}

/// The number in the `n` bytes of `s` from `at` on, most significant first.
pub fn get_be(s: &[u8], at: usize, n: usize) -> (r: u64)
    requires
        n <= 8,
        at + n <= s@.len(),
    ensures
        r == be_value(s@.subrange(at as int, at + n)),
        r < pow256(n as nat),
{
    let total: usize = s.len();
    let mut acc: u64 = 0;
    let mut i: usize = 0;
    while i < n
        invariant
            i <= n,
            n <= 8,
            at + n <= total,
            total == s@.len(),
            acc == be_value(s@.subrange(at as int, at + i)),
            acc < pow256(i as nat),
        decreases n - i,
    {
        let ghost w = s@.subrange(at as int, at + i + 1);
        proof {
            assert(w.drop_last() =~= s@.subrange(at as int, at + i));
            assert(w.last() == s@[at + i]);
            lemma_pow256_monotone((i + 1) as nat, 8);
            lemma_pow256_values();
            assert(acc * 256 + s@[at + i] < pow256((i + 1) as nat));
        }
        acc = acc * 256 + s[at + i] as u64;
        i = i + 1;
    }
    acc
}

/// The two-byte little-endian number at `at`.
pub fn get_u16(s: &[u8], at: usize) -> (r: u16)
    requires
        at + 2 <= s@.len(),
    ensures
        le(r as nat, 2) == s@.subrange(at as int, at + 2),
{
    let v = get_le(s, at, 2);
    proof {
        lemma_pow256_values();
        lemma_le_of_le_value(s@.subrange(at as int, at + 2));
    }
    v as u16
}

/// The four-byte little-endian number at `at`.
pub fn get_u32(s: &[u8], at: usize) -> (r: u32)
    requires
        at + 4 <= s@.len(),
    ensures
        le(r as nat, 4) == s@.subrange(at as int, at + 4),
{
    let v = get_le(s, at, 4);
    proof {
        lemma_pow256_values();
        lemma_le_of_le_value(s@.subrange(at as int, at + 4));
    }
    v as u32
}

/// The eight-byte little-endian number at `at`.
pub fn get_u64(s: &[u8], at: usize) -> (r: u64)
    requires
        at + 8 <= s@.len(),
    ensures
        le(r as nat, 8) == s@.subrange(at as int, at + 8),
{
    let v = get_le(s, at, 8);
    proof {
        lemma_le_of_le_value(s@.subrange(at as int, at + 8));
    }
    v
}

/// The two's-complement bit pattern of `x`.
pub open spec fn bits_of(x: i64) -> u64 {
    if x >= 0 {
        x as u64
    } else {
        (x + 0x1_0000_0000_0000_0000) as u64
    }
}

/// The two's-complement bit pattern of `x`.
pub fn to_bits(x: i64) -> (r: u64)
    ensures
        r == bits_of(x),
{
    if x >= 0 {
        x as u64
    } else {
        (x as i128 + 0x1_0000_0000_0000_0000i128) as u64
    }
}

/// The number with the two's-complement bit pattern `b`.
pub fn from_bits(b: u64) -> (r: i64)
    ensures
        bits_of(r) == b,
{
    if b < 0x8000_0000_0000_0000 {
        b as i64
    } else {
        (b as i128 - 0x1_0000_0000_0000_0000i128) as i64
    }
}

/// Append the bytes `s`.
pub fn put_bytes(out: &mut Vec<u8>, s: &[u8])
    ensures
        final(out)@ == old(out)@ + s@,
{
    let ghost start = out@;
    out.extend_from_slice(s);
    proof {
        assert(out@ =~= start + s@);
    }
}

/// Append `n` zero bytes.
pub fn put_zeros(out: &mut Vec<u8>, n: usize)
    ensures
        final(out)@ == old(out)@ + zeros(n as nat),
{
    let ghost start = out@;
    let mut i: usize = 0;
    while i < n
        invariant
            i <= n,
            out@ =~= start + zeros(i as nat),
        decreases n - i,
    {
        out.push(0);
        i = i + 1;
    }
}

/// A copy of the bytes `from..to` of `s`.
pub fn copy_range(s: &[u8], from: usize, to: usize) -> (r: Vec<u8>)
    requires
        from <= to <= s@.len(),
    ensures
        r@ == s@.subrange(from as int, to as int),
{
    let mut out: Vec<u8> = Vec::new();
    let mut i: usize = from;
    while i < to
        invariant
            from <= i <= to,
            to <= s@.len(),
            out@ =~= s@.subrange(from as int, i as int),
        decreases to - i,
    {
        out.push(s[i]);
        i = i + 1;
    }
    out
}

/// The `N` bytes of `s` from `at` on.
pub fn get_array<const N: usize>(s: &[u8], at: usize) -> (r: [u8; N])
    requires
        at + N <= s@.len(),
    ensures
        r@ == s@.subrange(at as int, at + N),
{
    let total: usize = s.len();
    let mut a: [u8; N] = [0u8; N];
    let mut i: usize = 0;
    while i < N
        invariant
            i <= N,
            at + N <= total,
            total == s@.len(),
            forall|j: int| 0 <= j < i ==> a@[j] == s@[at + j],
        decreases N - i,
    {
        a[i] = s[at + i];
        i = i + 1;
    }
    proof {
        assert(a@ =~= s@.subrange(at as int, at + N));
    }
    a
}

/// Whether two byte strings are equal.
pub fn same_bytes(a: &[u8], b: &[u8]) -> (r: bool)
    ensures
        r == (a@ == b@),
{
    if a.len() != b.len() {
        return false;
    }
    let mut i: usize = 0;
    while i < a.len()
        invariant
            i <= a@.len(),
            a@.len() == b@.len(),
            forall|j: int| 0 <= j < i ==> a@[j] == b@[j],
        decreases a@.len() - i,
    {
        if a[i] != b[i] {
            return false;
        }
        i = i + 1;
    }
    proof {
        assert(a@ =~= b@);
    }
    true
}

/// Whether `a` comes before `b` in byte order.
pub fn bytes_before(a: &[u8], b: &[u8]) -> (r: bool)
    ensures
        r == lex_less(a@, b@),
{
    let mut i: usize = 0;
    proof {
        assert(a@.skip(0) =~= a@);
        assert(b@.skip(0) =~= b@);
    }
    loop
        invariant
            i <= a@.len(),
            i <= b@.len(),
            lex_less(a@, b@) == lex_less(a@.skip(i as int), b@.skip(i as int)),
        decreases a@.len() - i,
    {
        if i >= b.len() {
            return false;
        }
        if i >= a.len() {
            return true;
        }
        proof {
            assert(a@.skip(i as int)[0] == a@[i as int]);
            assert(b@.skip(i as int)[0] == b@[i as int]);
            assert(a@.skip(i as int).skip(1) =~= a@.skip(i + 1));
            assert(b@.skip(i as int).skip(1) =~= b@.skip(i + 1));
        }
        if a[i] != b[i] {
            return a[i] < b[i];
        }
        i = i + 1;
    }
}

} // verus!
