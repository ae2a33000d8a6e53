//! Arrays of records of a fixed size.

use vstd::prelude::*;
use crate::storage::block::BlockRef;

verus! {

/// A record whose image has a fixed size and determines it.
pub trait Fixed: Copy {
    /// The record's bytes.
    spec fn bytes(&self) -> Seq<u8>;

    /// How many bytes a record has.
    spec fn width() -> nat;

    proof fn bytes_len(&self)
        ensures
            self.bytes().len() == Self::width(),
    ;

    proof fn bytes_injective(x: Self, y: Self)
        requires
            x.bytes() == y.bytes(),
        ensures
            x == y,
    ;

    fn put_bytes(&self, out: &mut Vec<u8>)
        ensures
            final(out)@ == old(out)@ + self.bytes(),
    ;

    fn get_bytes(s: &[u8], at: usize) -> (r: Self)
        requires
            at + Self::width() <= s@.len(),
        ensures
            r.bytes() == s@.subrange(at as int, at + Self::width() as int),
    ;
}

/// The bytes of the first `k` records, one after the other.
pub open spec fn images<T: Fixed>(s: Seq<T>, k: int) -> Seq<u8>
    decreases k,
{
    if k <= 0 {
        Seq::empty()
    } else {
        images(s, k - 1) + s[k - 1].bytes()
    }
}

pub proof fn lemma_images_len<T: Fixed>(s: Seq<T>, k: int)
    requires
        0 <= k <= s.len(),
    ensures
        images(s, k).len() == k * T::width(),
    decreases k,
{
    if k > 0 {
        lemma_images_len(s, k - 1);
        s[k - 1].bytes_len();
        assert((k - 1) * T::width() + T::width() == k * T::width()) by (nonlinear_arith);
    } else {
        assert(0 * T::width() == 0) by (nonlinear_arith);
    }
}

/// The bytes determine the records.
pub proof fn lemma_images_injective<T: Fixed>(a: Seq<T>, b: Seq<T>, k: int)
    requires
        0 <= k <= a.len(),
        k <= b.len(),
        images(a, k) == images(b, k),
    ensures
        forall|i: int| 0 <= i < k ==> #[trigger] a[i] == b[i],
    decreases k,
{
    if k > 0 {
        lemma_images_len(a, k - 1);
        lemma_images_len(b, k - 1);
        a[k - 1].bytes_len();
        b[k - 1].bytes_len();
        crate::bytes::lemma_cat_eq(
            images(a, k - 1),
            a[k - 1].bytes(),
            images(b, k - 1),
            b[k - 1].bytes(),
        );
        lemma_images_injective(a, b, k - 1);
        T::bytes_injective(a[k - 1], b[k - 1]);
    }
}

/// Append the bytes of all records.
pub fn put_images<T: Fixed>(out: &mut Vec<u8>, records: &[T])
    ensures
        final(out)@ == old(out)@ + images(records@, records@.len() as int),
{
    let ghost start = out@;
    let mut i: usize = 0;
    proof {
        assert(start + images(records@, 0) =~= start);
    }
    while i < records.len()
        invariant
            i <= records@.len(),
            out@ == start + images(records@, i as int),
        decreases records@.len() - i,
    {
        records[i].put_bytes(out);
        i = i + 1;
        proof {
            assert(out@ =~= start + images(records@, i as int));
        }
    }
}

/// The `N` records of `width` bytes each at `at`.
pub fn get_images<T: Fixed, const N: usize>(s: &[u8], at: usize, width: usize) -> (r: [T; N])
    requires
        0 < N,
        width == T::width(),
        at + N * width <= s@.len(),
    ensures
        images(r@, N as int) == s@.subrange(at as int, at + N * width),
{
    let total: usize = s.len();
    proof {
        assert(width <= N * width) by (nonlinear_arith)
            requires
                0 < N,
        ;
    }
    let first = T::get_bytes(s, at);
    let mut a: [T; N] = [first; N];
    let mut i: usize = 1;
    let mut pos: usize = at + width;
    proof {
        assert(1 * width == width) by (nonlinear_arith);
        assert(images(a@, 0) =~= Seq::empty());
        assert(images(a@, 1) =~= s@.subrange(at as int, at + 1 * width));
    }
    while i < N
        invariant
            1 <= i <= N,
            width == T::width(),
            total == s@.len(),
            at + N * width <= total,
            pos == at + i * width,
            images(a@, i as int) == s@.subrange(at as int, at + i * width),
        decreases N - i,
    {
        let ghost before = a@;
        proof {
            assert((i + 1) * width == i * width + width) by (nonlinear_arith);
            assert((i + 1) * width <= N * width) by (nonlinear_arith)
                requires
                    i + 1 <= N,
            ;
        }
        a[i] = T::get_bytes(s, pos);
        proof {
            lemma_images_prefix(before, a@, i as int);
            crate::bytes::lemma_adjacent(s@, at as int, pos as int, pos + width);
        }
        pos = pos + width;
        i = i + 1;
    }
    a
}

proof fn lemma_images_prefix<T: Fixed>(a: Seq<T>, b: Seq<T>, k: int)
    requires
        0 <= k <= a.len(),
        k <= b.len(),
        forall|i: int| 0 <= i < k ==> a[i] == b[i],
    ensures
        images(a, k) == images(b, k),
    decreases k,
{
    if k > 0 {
        lemma_images_prefix(a, b, k - 1);
    }
}

impl Fixed for BlockRef {
    open spec fn bytes(&self) -> Seq<u8> {
        self.image()
    }

    open spec fn width() -> nat {
        16
    }

    proof fn bytes_len(&self) {
        self.image_len();
    }

    proof fn bytes_injective(x: Self, y: Self) {
        BlockRef::image_injective(x, y);
    }

    fn put_bytes(&self, out: &mut Vec<u8>) {
        self.put(out);
    }

    fn get_bytes(s: &[u8], at: usize) -> (r: Self) {
        BlockRef::get(s, at)
    }
}

} // verus!
