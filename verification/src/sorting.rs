//! A stable sort.

use vstd::prelude::*;

verus! {

/// What can be sorted: each value has a rank, lower ranks come first.
pub trait Ranked: Sized {
    spec fn rank(&self) -> int;

    /// Whether this value comes before the other.
    fn ranks_before(&self, other: &Self) -> (r: bool)
        ensures
            r == (self.rank() < other.rank()),
    ;
}

/// The values of rank `k`, in order.
pub open spec fn of_rank<T: Ranked>(s: Seq<T>, k: int) -> Seq<T> {
    s.filter(|x: T| x.rank() == k)
}

/// No value comes before one of a lower rank.
pub open spec fn by_rank<T: Ranked>(s: Seq<T>) -> bool {
    forall|i: int, j: int|
        0 <= i < j < s.len() ==> (#[trigger] s[i]).rank() <= (#[trigger] s[j]).rank()
}

/// `after` has the values of `before` in the order of their ranks; values of
/// one rank keep their order.
pub open spec fn stably_sorted<T: Ranked>(before: Seq<T>, after: Seq<T>) -> bool {
    &&& by_rank(after)
    &&& forall|k: int| #[trigger] of_rank(after, k) == of_rank(before, k)
}

/// Sort by rank.
pub fn stable_sort<T: Ranked>(v: Vec<T>) -> (r: Vec<T>)
    ensures
        stably_sorted(v@, r@),
        r@.len() == v@.len(),
        r@.to_multiset() == v@.to_multiset(),
{
    let ghost s = v@;
    let mut rest = v;
    let mut out: Vec<T> = Vec::new();
    proof {
        assert(rest@ + out@ =~= s);
    }
    while rest.len() > 0
        invariant
            by_rank(out@),
            forall|k: int| #[trigger] of_rank(rest@, k) + of_rank(out@, k) == of_rank(s, k),
            rest@.len() + out@.len() == s.len(),
            (rest@ + out@).to_multiset() == s.to_multiset(),
        decreases rest@.len(),
    {
        let ghost before = out@;
        let ghost left = rest@;
        match rest.pop() {
            Some(x) => {
                let mut at: usize = 0;
                while at < out.len() && out[at].ranks_before(&x)
                    invariant
                        at <= out@.len(),
                        out@ == before,
                        forall|j: int| 0 <= j < at ==> (#[trigger] out@[j]).rank() < x.rank(),
                    decreases out@.len() - at,
                {
                    at = at + 1;
                }
                out.insert(at, x);
                proof {
                    lemma_insert(before, at as int, x);
                    assert(left =~= rest@.push(x));
                    assert forall|k: int| #[trigger]
                        of_rank(rest@, k) + of_rank(out@, k) == of_rank(s, k) by {
                        assert(of_rank(left, k) + of_rank(before, k) == of_rank(s, k));
                        assert(left.drop_last() =~= rest@);
                        reveal(Seq::filter);
                        assert(of_rank(rest@, k) + of_rank(out@, k) =~= of_rank(left, k) + of_rank(
                            before,
                            k,
                        ));
                    }
                    assert(out@ =~= before.insert(at as int, x));
                    broadcast use vstd::seq_lib::group_to_multiset_ensures;

                    vstd::seq_lib::lemma_multiset_commutative(rest@, out@);
                    vstd::seq_lib::lemma_multiset_commutative(left, before);
                    assert(out@.to_multiset() =~= before.to_multiset().insert(x));
                    assert(left.to_multiset() =~= rest@.to_multiset().insert(x));
                    assert((rest@ + out@).to_multiset() =~= (left + before).to_multiset());
                }
            },
            None => {},
        }
    }
    proof {
        assert(rest@ + out@ =~= out@);
        assert forall|k: int| #[trigger] of_rank(out@, k) == of_rank(s, k) by {
            reveal(Seq::filter);
            assert(of_rank(rest@, k) =~= Seq::empty());
            assert(of_rank(rest@, k) + of_rank(out@, k) =~= of_rank(out@, k));
        }
    }
    out
}

/// Inserting before the values of the same and of higher ranks.
proof fn lemma_insert<T: Ranked>(s: Seq<T>, at: int, x: T)
    requires
        by_rank(s),
        0 <= at <= s.len(),
        forall|j: int| 0 <= j < at ==> (#[trigger] s[j]).rank() < x.rank(),
        at < s.len() ==> s[at].rank() >= x.rank(),
    ensures
        by_rank(s.insert(at, x)),
        forall|k: int| #[trigger]
            of_rank(s.insert(at, x), k) == (if k == x.rank() {
                seq![x] + of_rank(s, k)
            } else {
                of_rank(s, k)
            }),
{
    let t = s.insert(at, x);
    assert forall|i: int, j: int| 0 <= i < j < t.len() implies (#[trigger] t[i]).rank() <= (
    #[trigger] t[j]).rank() by {
        if i < at && j > at {
            assert(s[i].rank() <= s[j - 1].rank());
        } else if i > at {
            assert(s[i - 1].rank() <= s[j - 1].rank());
        } else if j < at {
            assert(s[i].rank() <= s[j].rank());
        } else if i == at {
            assert(s[at].rank() <= s[j - 1].rank());
        }
    }
    assert forall|k: int| #[trigger] of_rank(t, k) == (if k == x.rank() {
        seq![x] + of_rank(s, k)
    } else {
        of_rank(s, k)
    }) by {
        let p = |y: T| y.rank() == k;
        let low = s.take(at);
        let high = s.skip(at);
        assert(t =~= (low + seq![x]) + high);
        assert(s =~= low + high);
        Seq::filter_distributes_over_add(low + seq![x], high, p);
        Seq::filter_distributes_over_add(low, seq![x], p);
        Seq::filter_distributes_over_add(low, high, p);
        assert(seq![x].filter(p) =~= if k == x.rank() {
            seq![x]
        } else {
            Seq::empty()
        }) by {
            reveal(Seq::filter);
            assert(seq![x].drop_last() =~= Seq::empty());
            assert(seq![x].drop_last().filter(p) =~= Seq::empty());
        }
        if k == x.rank() {
            lemma_none(low, k);
            assert(of_rank(t, k) =~= seq![x] + of_rank(s, k));
        } else {
            assert(of_rank(t, k) =~= of_rank(s, k));
        }
    }
}

pub(crate) proof fn lemma_none<T: Ranked>(s: Seq<T>, k: int)
    requires
        forall|j: int| 0 <= j < s.len() ==> (#[trigger] s[j]).rank() != k,
    ensures
        of_rank(s, k) == Seq::<T>::empty(),
    decreases s.len(),
{
    reveal(Seq::filter);
    if s.len() > 0 {
        assert(s.drop_last() =~= s.take(s.len() - 1));
        lemma_none(s.drop_last(), k);
        assert(s.last().rank() != k);
    }
}

/// Appending a value appends it to the values of its rank.
pub(crate) proof fn lemma_rank_push<T: Ranked>(s: Seq<T>, k: int)
    requires
        s.len() > 0,
    ensures
        of_rank(s, k) == (if s.last().rank() == k {
            of_rank(s.drop_last(), k).push(s.last())
        } else {
            of_rank(s.drop_last(), k)
        }),
{
    reveal(Seq::filter);
}

/// A value of rank `k` among the values of rank `k` is one of all values.
proof fn lemma_rank_from<T: Ranked>(s: Seq<T>, k: int)
    requires
        of_rank(s, k).len() > 0,
    ensures
        exists|i: int| 0 <= i < s.len() && (#[trigger] s[i]).rank() == k,
{
    if forall|i: int| 0 <= i < s.len() ==> (#[trigger] s[i]).rank() != k {
        lemma_none(s, k);
    }
}

/// The values of a rank in two parts, one behind the other.
pub(crate) proof fn lemma_of_rank_join<T: Ranked>(a: Seq<T>, b: Seq<T>, k: int)
    ensures
        of_rank(a + b, k) == of_rank(a, k) + of_rank(b, k),
    decreases b.len(),
{
    if b.len() == 0 {
        assert(a + b =~= a);
        lemma_none(b, k);
        assert(of_rank(a, k) + of_rank(b, k) =~= of_rank(a, k));
    } else {
        lemma_of_rank_join(a, b.drop_last(), k);
        assert((a + b).drop_last() =~= a + b.drop_last());
        assert((a + b).last() == b.last());
        lemma_rank_push(a + b, k);
        lemma_rank_push(b, k);
        assert(of_rank(a + b, k) =~= of_rank(a, k) + of_rank(b, k));
    }
}

/// The order in which a stable sort puts values is the only one.
pub proof fn sorted_order_is_unique<T: Ranked>(a: Seq<T>, b: Seq<T>)
    requires
        by_rank(a),
        by_rank(b),
        forall|k: int| #[trigger] of_rank(a, k) == of_rank(b, k),
    ensures
        a == b,
    decreases a.len(),
{
    if a.len() == 0 {
        if b.len() > 0 {
            lemma_rank_push(b, b.last().rank());
            assert(of_rank(a, b.last().rank()) == of_rank(b, b.last().rank()));
            lemma_rank_from(a, b.last().rank());
        }
        assert(a =~= b);
    } else {
        let k = a.last().rank();
        lemma_rank_push(a, k);
        assert(of_rank(a, k) == of_rank(b, k));
        lemma_rank_from(b, k);
        let l = b.last().rank();
        assert(l >= k);
        lemma_rank_push(b, l);
        assert(of_rank(a, l) == of_rank(b, l));
        lemma_rank_from(a, l);
        assert(l == k);
        assert(a.last() == of_rank(a, k).last());
        assert(b.last() == of_rank(b, k).last());
        let c = a.drop_last();
        let d = b.drop_last();
        assert forall|j: int| #[trigger] of_rank(c, j) == of_rank(d, j) by {
            lemma_rank_push(a, j);
            lemma_rank_push(b, j);
            assert(of_rank(a, j) == of_rank(b, j));
            if j == k {
                assert(of_rank(c, j) =~= of_rank(a, j).drop_last());
                assert(of_rank(d, j) =~= of_rank(b, j).drop_last());
            }
        }
        sorted_order_is_unique(c, d);
        assert(a =~= c.push(a.last()));
        assert(b =~= d.push(b.last()));
    }
}

/// Sorting leaves what is sorted as it is.
pub proof fn sorted_stays_sorted<T: Ranked>(before: Seq<T>, after: Seq<T>)
    requires
        by_rank(before),
        stably_sorted(before, after),
    ensures
        after == before,
{
    sorted_order_is_unique(after, before);
}

} // verus!
