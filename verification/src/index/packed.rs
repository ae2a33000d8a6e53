//! Packed assertions.

use vstd::prelude::*;
use crate::bytes::{get_u16, get_u32, get_u64, le, lemma_adjacent, lemma_cat_eq, lemma_le_len,
    lemma_u16_image, lemma_u32_image, lemma_u64_image, put_le};
use crate::index::error::IndexError;
use crate::index::value_hash::{hash_of, value_hash};
use crate::types::assertion::{Assertion, AssertionModel, TagOrigin};
use crate::types::id::{ObjectId, TagId};
use crate::types::value::{Value, ValueModel};

verus! {

pub const PACKED_ASSERTION_KIND_TAG: u8 = 0;

pub const PACKED_ASSERTION_KIND_ATTR: u8 = 1;

pub const PACKED_ASSERTION_KIND_RELATION: u8 = 2;

pub const PACKED_ASSERTION_ORIGIN_DIRECT: u8 = 0;

pub const PACKED_ASSERTION_ORIGIN_MATERIALIZED: u8 = 1;

/// Size of a [`PackedAssertion`].
pub const PACKED_ASSERTION_SIZE: usize = 16;

/// An assertion as it stands on disk.
#[derive(Clone, Copy, Debug, PartialEq, Eq, Structural)]
pub struct PackedAssertion {
    /// `[0..1]` `PACKED_ASSERTION_KIND_*`.
    pub kind: u8,
    /// `[1..2]` `PACKED_ASSERTION_ORIGIN_*`.
    pub origin: u8,
    /// `[2..4]`
    pub _pad: u16,
    /// `[4..8]` tag, attribute or predicate.
    pub a: u32,
    /// `[8..16]` hash of the attribute's value, target of the relation, or zero.
    pub b: u64,
}

/// The number that stands for an origin.
pub open spec fn origin_number(o: TagOrigin) -> u8 {
    match o {
        TagOrigin::Direct => PACKED_ASSERTION_ORIGIN_DIRECT,
        TagOrigin::Materialized => PACKED_ASSERTION_ORIGIN_MATERIALIZED,
    }
}

/// The packed form of an assertion, `hash` being that of the attribute's value.
pub open spec fn packed_with(m: AssertionModel, o: TagOrigin, hash: u64) -> PackedAssertion {
    match m {
        AssertionModel::Tag(t) => PackedAssertion {
            kind: PACKED_ASSERTION_KIND_TAG,
            origin: origin_number(o),
            _pad: 0,
            a: t.id,
            b: 0,
        },
        AssertionModel::Attr(key, _) => PackedAssertion {
            kind: PACKED_ASSERTION_KIND_ATTR,
            origin: origin_number(o),
            _pad: 0,
            a: key.id,
            b: hash,
        },
        AssertionModel::Relation(p, target) => PackedAssertion {
            kind: PACKED_ASSERTION_KIND_RELATION,
            origin: origin_number(o),
            _pad: 0,
            a: p.id,
            b: target.raw,
        },
    }
}

/// Sixteen zero bytes: the secret under which stored assertions are hashed.
pub open spec fn zero_secret() -> Seq<u8> {
    crate::bytes::zeros(16)
}

/// The packed form of an assertion, its value hashed under the zero secret.
pub open spec fn packed_form(m: AssertionModel, o: TagOrigin) -> PackedAssertion {
    packed_with(
        m,
        o,
        match m {
            AssertionModel::Attr(_, v) => hash_of(v, zero_secret()),
            _ => 0,
        },
    )
}

/// What a packed assertion says, an attribute having the value `v`. The
/// origin is read first.
pub open spec fn unpacked(p: PackedAssertion, v: ValueModel) -> Result<
    (AssertionModel, TagOrigin),
    IndexError,
> {
    if p.origin > 1 {
        Err(IndexError::InvalidAssertionOrigin(p.origin))
    } else {
        let o = if p.origin == 0 {
            TagOrigin::Direct
        } else {
            TagOrigin::Materialized
        };
        if p.kind == PACKED_ASSERTION_KIND_TAG {
            Ok((AssertionModel::Tag(TagId { id: p.a }), o))
        } else if p.kind == PACKED_ASSERTION_KIND_ATTR {
            Ok((AssertionModel::Attr(TagId { id: p.a }, v), o))
        } else if p.kind == PACKED_ASSERTION_KIND_RELATION {
            Ok((AssertionModel::Relation(TagId { id: p.a }, ObjectId { raw: p.b }), o))
        } else {
            Err(IndexError::InvalidAssertionKind(p.kind))
        }
    }
}

impl PackedAssertion {
    /// Pack an assertion. `value_hash` is that of an attribute's value, and
    /// not looked at otherwise.
    pub fn from_logical(assertion: &Assertion, origin: TagOrigin, value_hash: u64) -> (r: Self)
        ensures
            r == packed_with(assertion@, origin, value_hash),
    {
        let origin_byte: u8 = match origin {
            TagOrigin::Direct => PACKED_ASSERTION_ORIGIN_DIRECT,
            TagOrigin::Materialized => PACKED_ASSERTION_ORIGIN_MATERIALIZED,
        };
        match assertion {
            Assertion::Tag(t) => PackedAssertion {
                kind: PACKED_ASSERTION_KIND_TAG,
                origin: origin_byte,
                _pad: 0,
                a: t.raw(),
                b: 0,
            },
            Assertion::Attr { key, value: _ } => PackedAssertion {
                kind: PACKED_ASSERTION_KIND_ATTR,
                origin: origin_byte,
                _pad: 0,
                a: key.raw(),
                b: value_hash,
            },
            Assertion::Relation { predicate, target } => PackedAssertion {
                kind: PACKED_ASSERTION_KIND_RELATION,
                origin: origin_byte,
                _pad: 0,
                a: predicate.raw(),
                b: target.to_u64(),
            },
        }
    }

    /// Pack an assertion, its value hashed under the zero secret.
    pub fn pack(assertion: &Assertion, origin: TagOrigin) -> (r: Self)
        ensures
            r == packed_form(assertion@, origin),
    {
        let secret: [u8; 16] = [0u8; 16];
        proof {
            assert(secret@ =~= zero_secret());
        }
        let h: u64 = match assertion {
            Assertion::Attr { key: _, value } => value_hash(value, &secret),
            _ => 0,
        };
        PackedAssertion::from_logical(assertion, origin, h)
    }

    /// The origin.
    pub fn origin(&self) -> (r: Result<TagOrigin, IndexError>)
        ensures
            match r {
                Ok(o) => origin_number(o) == self.origin,
                Err(e) => self.origin > 1 && e == IndexError::InvalidAssertionOrigin(self.origin),
            },
    {
        match self.origin {
            0 => Ok(TagOrigin::Direct),
            1 => Ok(TagOrigin::Materialized),
            other => Err(IndexError::InvalidAssertionOrigin(other)),
        }
    }

    /// Unpack. The value of an attribute is not in the packed form:
    /// `attr_value` stands in for it, or else the integer zero.
    pub fn to_logical(&self, attr_value: Option<Value>) -> (r: Result<
        (Assertion, TagOrigin),
        IndexError,
    >)
        ensures
            match unpacked(
                *self,
                match attr_value {
                    Some(v) => v@,
                    None => ValueModel::Int(0),
                },
            ) {
                Ok((m, o)) => r is Ok && r->Ok_0.0@ == m && r->Ok_0.1 == o,
                Err(e) => r == Err::<(Assertion, TagOrigin), IndexError>(e),
            },
    {
        let origin = match self.origin() {
            Ok(o) => o,
            Err(e) => {
                return Err(e);
            },
        };
        let assertion = if self.kind == PACKED_ASSERTION_KIND_TAG {
            Assertion::Tag(TagId::new(self.a))
        } else if self.kind == PACKED_ASSERTION_KIND_ATTR {
            let value = match attr_value {
                Some(v) => v,
                None => Value::Int(0),
            };
            Assertion::Attr { key: TagId::new(self.a), value }
        } else if self.kind == PACKED_ASSERTION_KIND_RELATION {
            Assertion::Relation {
                predicate: TagId::new(self.a),
                target: ObjectId::from_u64(self.b),
            }
        } else {
            return Err(IndexError::InvalidAssertionKind(self.kind));
        };
        Ok((assertion, origin))
    }

    /// The bytes on disk.
    pub open spec fn image(&self) -> Seq<u8> {
        seq![self.kind] + seq![self.origin] + le(self._pad as nat, 2) + le(self.a as nat, 4) + le(
            self.b as nat,
            8,
        )
    }

    /// Append the bytes on disk to `out`.
    pub fn put(&self, out: &mut Vec<u8>)
        ensures
            final(out)@ == old(out)@ + self.image(),
    {
        let ghost start = out@;
        out.push(self.kind);
        out.push(self.origin);
        put_le(out, self._pad as u64, 2);
        put_le(out, self.a as u64, 4);
        put_le(out, self.b, 8);
        proof {
            assert(out@ =~= start + self.image());
        }
    }

    /// The value whose bytes stand at `at`.
    pub fn get(s: &[u8], at: usize) -> (r: Self)
        requires
            at + PACKED_ASSERTION_SIZE <= s@.len(),
        ensures
            r.image() == s@.subrange(at as int, at + 16),
    {
        let total = s.len();
        let r = PackedAssertion {
            kind: s[at],
            origin: s[at + 1],
            _pad: get_u16(s, at + 2),
            a: get_u32(s, at + 4),
            b: get_u64(s, at + 8),
        };
        proof {
            let t = at as int;
            assert(seq![r.kind] =~= s@.subrange(t, t + 1));
            assert(seq![r.origin] =~= s@.subrange(t + 1, t + 2));
            lemma_adjacent(s@, t, t + 1, t + 2);
            lemma_adjacent(s@, t, t + 2, t + 4);
            lemma_adjacent(s@, t, t + 4, t + 8);
            lemma_adjacent(s@, t, t + 8, t + 16);
        }
        r
    }

    /// An image has sixteen bytes.
    pub proof fn image_len(&self)
        ensures
            self.image().len() == 16,
    {
        broadcast use lemma_le_len;

    }

    /// The image determines the packed assertion.
    pub proof fn image_injective(x: PackedAssertion, y: PackedAssertion)
        requires
            x.image() == y.image(),
        ensures
            x == y,
    {
        broadcast use lemma_le_len;

        let x1 = seq![x.kind] + seq![x.origin];
        let y1 = seq![y.kind] + seq![y.origin];
        let x2 = x1 + le(x._pad as nat, 2);
        let y2 = y1 + le(y._pad as nat, 2);
        let x3 = x2 + le(x.a as nat, 4);
        let y3 = y2 + le(y.a as nat, 4);
        lemma_cat_eq(x3, le(x.b as nat, 8), y3, le(y.b as nat, 8));
        lemma_cat_eq(x2, le(x.a as nat, 4), y2, le(y.a as nat, 4));
        lemma_cat_eq(x1, le(x._pad as nat, 2), y1, le(y._pad as nat, 2));
        lemma_cat_eq(seq![x.kind], seq![x.origin], seq![y.kind], seq![y.origin]);
        assert(seq![x.kind][0] == seq![y.kind][0]);
        assert(seq![x.origin][0] == seq![y.origin][0]);
        lemma_u16_image(x._pad, y._pad);
        lemma_u32_image(x.a, y.a);
        lemma_u64_image(x.b, y.b);
    }
}

/// Unpacking what was packed gives the assertion back, an attribute with the
/// value that is handed in.
pub proof fn pack_round_trip(m: AssertionModel, o: TagOrigin, hash: u64, v: ValueModel)
    ensures
        unpacked(packed_with(m, o, hash), v) == Ok::<(AssertionModel, TagOrigin), IndexError>(
            (
                match m {
                    AssertionModel::Attr(k, _) => AssertionModel::Attr(k, v),
                    other => other,
                },
                o,
            ),
        ),
{
}

/// The images of the first `k` packed assertions.
pub open spec fn packed_images(s: Seq<PackedAssertion>, k: int) -> Seq<u8>
    decreases k,
{
    if k <= 0 {
        Seq::empty()
    } else {
        packed_images(s, k - 1) + s[k - 1].image()
    }
}

pub proof fn lemma_packed_len(s: Seq<PackedAssertion>, k: int)
    requires
        0 <= k <= s.len(),
    ensures
        packed_images(s, k).len() == 16 * k,
    decreases k,
{
    if k > 0 {
        lemma_packed_len(s, k - 1);
        s[k - 1].image_len();
    }
}

/// Assertion `i` stands at its position.
pub proof fn lemma_packed_at(s: Seq<PackedAssertion>, k: int, i: int)
    requires
        0 <= i < k <= s.len(),
    ensures
        packed_images(s, k).len() == 16 * k,
        packed_images(s, k).subrange(16 * i, 16 * i + 16) == s[i].image(),
    decreases k,
{
    lemma_packed_len(s, k - 1);
    lemma_packed_len(s, k);
    s[k - 1].image_len();
    if i < k - 1 {
        lemma_packed_at(s, k - 1, i);
        assert(packed_images(s, k).subrange(16 * i, 16 * i + 16) =~= packed_images(
            s,
            k - 1,
        ).subrange(16 * i, 16 * i + 16));
    } else {
        assert(packed_images(s, k).subrange(16 * i, 16 * i + 16) =~= s[i].image());
    }
}

pub proof fn lemma_packed_prefix(a: Seq<PackedAssertion>, b: Seq<PackedAssertion>, k: int)
    requires
        0 <= k <= a.len(),
        k <= b.len(),
        forall|i: int| 0 <= i < k ==> a[i] == b[i],
    ensures
        packed_images(a, k) == packed_images(b, k),
    decreases k,
{
    if k > 0 {
        lemma_packed_prefix(a, b, k - 1);
    }
}

/// Append the images of `v[from..to]`.
pub fn put_packed(out: &mut Vec<u8>, v: &Vec<PackedAssertion>, from: usize, to: usize)
    requires
        from <= to <= v@.len(),
    ensures
        final(out)@ == old(out)@ + packed_images(v@.subrange(from as int, to as int), to - from),
{
    let ghost start = out@;
    let ghost s = v@.subrange(from as int, to as int);
    let mut i: usize = from;
    proof {
        assert(start + packed_images(s, 0) =~= start);
    }
    while i < to
        invariant
            from <= i <= to,
            to <= v@.len(),
            s == v@.subrange(from as int, to as int),
            out@ == start + packed_images(s, i - from),
        decreases to - i,
    {
        v[i].put(out);
        proof {
            assert(s[i - from] == v@[i as int]);
            assert(out@ =~= start + packed_images(s, i - from + 1));
        }
        i = i + 1;
    }
}

/// Read `n` packed assertions from `at` on.
pub fn get_packed(s: &[u8], at: usize, n: usize) -> (r: Vec<PackedAssertion>)
    requires
        at + 16 * n <= s@.len(),
    ensures
        r@.len() == n,
        packed_images(r@, n as int) == s@.subrange(at as int, at + 16 * n),
{
    let total = s.len();
    let mut out: Vec<PackedAssertion> = Vec::new();
    let mut i: usize = 0;
    proof {
        assert(packed_images(out@, 0) =~= s@.subrange(at as int, at as int));
    }
    while i < n
        invariant
            i <= n,
            total == s@.len(),
            at + 16 * n <= total,
            out@.len() == i,
            packed_images(out@, i as int) == s@.subrange(at as int, at + 16 * i),
        decreases n - i,
    {
        let ghost before = out@;
        let p = PackedAssertion::get(s, at + 16 * i);
        out.push(p);
        proof {
            lemma_packed_prefix(before, out@, i as int);
            lemma_adjacent(s@, at as int, at + 16 * i, at + 16 * i + 16);
        }
        i = i + 1;
    }
    out
}

/// Sequences with the same images are equal.
pub proof fn lemma_packed_injective(a: Seq<PackedAssertion>, b: Seq<PackedAssertion>)
    requires
        a.len() == b.len(),
        packed_images(a, a.len() as int) == packed_images(b, b.len() as int),
    ensures
        a == b,
{
    assert forall|i: int| 0 <= i < a.len() implies a[i] == b[i] by {
        lemma_packed_at(a, a.len() as int, i);
        lemma_packed_at(b, b.len() as int, i);
        PackedAssertion::image_injective(a[i], b[i]);
    }
    assert(a =~= b);
}

} // verus!
