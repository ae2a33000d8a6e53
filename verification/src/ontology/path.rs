//! Walks in a set of edges.

use vstd::prelude::*;
use crate::ontology::graph::{is_walk, on_cycle, steps};

verus! {

/// Some walk, possibly of no edge, leads from `a` to `b`.
pub open spec fn reach<A>(edges: Set<(A, A)>, a: A, b: A) -> bool {
    exists|p: Seq<A>| #[trigger] is_walk(edges, p) && p[0] == a && p.last() == b
}

/// No walk of at least one edge leads back to its start.
pub open spec fn acyclic<A>(edges: Set<(A, A)>) -> bool {
    forall|a: A| !#[trigger] on_cycle(edges, a)
}

pub proof fn lemma_reach_self<A>(edges: Set<(A, A)>, a: A)
    ensures
        reach(edges, a, a),
{
    assert(is_walk(edges, seq![a]));
}

pub proof fn lemma_reach_edge<A>(edges: Set<(A, A)>, a: A, b: A)
    requires
        edges.contains((a, b)),
    ensures
        reach(edges, a, b),
{
    let p = seq![a, b];
    assert forall|i: int| 0 <= i < p.len() - 1 implies #[trigger] steps(edges, p, i) by {}
    assert(is_walk(edges, p));
    assert(p.last() == b);
}

pub proof fn lemma_walk_join<A>(edges: Set<(A, A)>, p: Seq<A>, q: Seq<A>)
    requires
        is_walk(edges, p),
        is_walk(edges, q),
        p.last() == q[0],
    ensures
        is_walk(edges, p + q.skip(1)),
        (p + q.skip(1))[0] == p[0],
        (p + q.skip(1)).last() == q.last(),
        (p + q.skip(1)).len() == p.len() + q.len() - 1,
{
    let r = p + q.skip(1);
    assert forall|i: int| 0 <= i < r.len() - 1 implies #[trigger] steps(edges, r, i) by {
        if i + 1 < p.len() {
            assert(steps(edges, p, i));
            assert(r[i] == p[i] && r[i + 1] == p[i + 1]);
        } else {
            let j = i - (p.len() - 1);
            assert(steps(edges, q, j));
            assert(r[i] == q[j]);
            assert(r[i + 1] == q[j + 1]);
        }
    }
}

pub proof fn lemma_reach_join<A>(edges: Set<(A, A)>, a: A, b: A, c: A)
    requires
        reach(edges, a, b),
        reach(edges, b, c),
    ensures
        reach(edges, a, c),
{
    let p = choose|p: Seq<A>| #[trigger] is_walk(edges, p) && p[0] == a && p.last() == b;
    let q = choose|q: Seq<A>| #[trigger] is_walk(edges, q) && q[0] == b && q.last() == c;
    lemma_walk_join(edges, p, q);
}

/// A set that holds the start of a walk and is closed under the edges holds
/// the end.
pub proof fn lemma_closed_reach<A>(edges: Set<(A, A)>, closed: Set<A>, a: A, b: A)
    requires
        closed.contains(a),
        reach(edges, a, b),
        forall|x: A, y: A|
            closed.contains(x) && #[trigger] edges.contains((x, y)) ==> closed.contains(y),
    ensures
        closed.contains(b),
{
    let p = choose|p: Seq<A>| #[trigger] is_walk(edges, p) && p[0] == a && p.last() == b;
    lemma_closed_walk(edges, closed, p, p.len() - 1);
}

proof fn lemma_closed_walk<A>(edges: Set<(A, A)>, closed: Set<A>, p: Seq<A>, i: int)
    requires
        is_walk(edges, p),
        closed.contains(p[0]),
        0 <= i < p.len(),
        forall|x: A, y: A|
            closed.contains(x) && #[trigger] edges.contains((x, y)) ==> closed.contains(y),
    ensures
        closed.contains(p[i]),
    decreases i,
{
    if i > 0 {
        lemma_closed_walk(edges, closed, p, i - 1);
        assert(steps(edges, p, i - 1));
    }
}

proof fn lemma_walk_subset<A>(small: Set<(A, A)>, big: Set<(A, A)>, p: Seq<A>)
    requires
        small.subset_of(big),
        is_walk(small, p),
    ensures
        is_walk(big, p),
{
    assert forall|i: int| 0 <= i < p.len() - 1 implies #[trigger] steps(big, p, i) by {
        assert(steps(small, p, i));
    }
}

/// Fewer edges make no new cycle.
pub proof fn lemma_acyclic_subset<A>(small: Set<(A, A)>, big: Set<(A, A)>)
    requires
        small.subset_of(big),
        acyclic(big),
    ensures
        acyclic(small),
{
    assert forall|a: A| !#[trigger] on_cycle(small, a) by {
        if on_cycle(small, a) {
            let p = choose|p: Seq<A>| #[trigger]
                is_walk(small, p) && p.len() > 1 && p[0] == a && p.last() == a;
            lemma_walk_subset(small, big, p);
            assert(on_cycle(big, a));
        }
    }
}

/// The part of a walk before the first use of the edge `(a, b)`.
proof fn lemma_walk_to_first_use<A>(edges: Set<(A, A)>, a: A, b: A, p: Seq<A>)
    requires
        is_walk(edges.insert((a, b)), p),
    ensures
        is_walk(edges, p) || reach(edges, p[0], a),
    decreases p.len(),
{
    if p.len() > 1 {
        let e = edges.insert((a, b));
        assert(steps(e, p, 0));
        if edges.contains((p[0], p[1])) {
            let t = p.skip(1);
            assert(is_walk(e, t)) by {
                assert forall|i: int| 0 <= i < t.len() - 1 implies #[trigger] steps(e, t, i) by {
                    assert(steps(e, p, i + 1));
                }
            }
            lemma_walk_to_first_use(edges, a, b, t);
            if is_walk(edges, t) {
                assert forall|i: int| 0 <= i < p.len() - 1 implies #[trigger] steps(edges, p, i) by {
                    if i > 0 {
                        assert(steps(edges, t, i - 1));
                    }
                }
            } else {
                lemma_reach_edge(edges, p[0], p[1]);
                lemma_reach_join(edges, p[0], p[1], a);
            }
        } else {
            lemma_reach_self(edges, a);
        }
    }
}

/// The part of a walk after the last use of the edge `(a, b)`.
proof fn lemma_walk_from_last_use<A>(edges: Set<(A, A)>, a: A, b: A, p: Seq<A>)
    requires
        is_walk(edges.insert((a, b)), p),
    ensures
        is_walk(edges, p) || reach(edges, b, p.last()),
    decreases p.len(),
{
    if p.len() > 1 {
        let e = edges.insert((a, b));
        let k = p.len() - 2;
        assert(steps(e, p, k));
        if edges.contains((p[k], p[k + 1])) {
            let t = p.drop_last();
            assert(is_walk(e, t)) by {
                assert forall|i: int| 0 <= i < t.len() - 1 implies #[trigger] steps(e, t, i) by {
                    assert(steps(e, p, i));
                }
            }
            lemma_walk_from_last_use(edges, a, b, t);
            if is_walk(edges, t) {
                assert forall|i: int| 0 <= i < p.len() - 1 implies #[trigger] steps(edges, p, i) by {
                    if i < k {
                        assert(steps(edges, t, i));
                    }
                }
            } else {
                lemma_reach_edge(edges, p[k], p[k + 1]);
                lemma_reach_join(edges, b, p[k], p[k + 1]);
            }
        } else {
            lemma_reach_self(edges, b);
        }
    }
}

/// Adding an edge to a set without cycles makes a cycle exactly when its end
/// already led to its start.
pub proof fn lemma_new_edge_cycle<A>(edges: Set<(A, A)>, a: A, b: A)
    requires
        acyclic(edges),
    ensures
        acyclic(edges.insert((a, b))) == !reach(edges, b, a),
{
    let e = edges.insert((a, b));
    if reach(edges, b, a) {
        let q = choose|q: Seq<A>| #[trigger] is_walk(edges, q) && q[0] == b && q.last() == a;
        lemma_walk_subset(edges, e, q);
        let step = seq![a, b];
        assert forall|i: int| 0 <= i < step.len() - 1 implies #[trigger] steps(e, step, i) by {}
        assert(is_walk(e, step));
        assert(step.last() == b);
        lemma_walk_join(e, step, q);
        assert(on_cycle(e, a));
    } else {
        assert forall|x: A| !#[trigger] on_cycle(e, x) by {
            if on_cycle(e, x) {
                let p = choose|p: Seq<A>| #[trigger]
                    is_walk(e, p) && p.len() > 1 && p[0] == x && p.last() == x;
                lemma_walk_to_first_use(edges, a, b, p);
                lemma_walk_from_last_use(edges, a, b, p);
                if is_walk(edges, p) {
                    assert(on_cycle(edges, x));
                } else {
                    lemma_reach_join(edges, b, x, a);
                }
            }
        }
    }
}

} // verus!
