//! What the operations on the ontology bring about, in terms of their arguments
//! and results.

use vstd::prelude::*;
use crate::ontology::error::{OntologyError, StorageAxis};
use crate::ontology::image::{image_fits, snapshot_restores, OntologyImage};
use crate::ontology::implication_dag::{closure_set, implied, reach_set, DagSnapshot,
    ImplicationDag};
use crate::ontology::laws::{ids_below, install_keeps_axes};
use crate::ontology::module::{IdAllocator, InstallResult, ModuleModel, OntologyModule};
use crate::ontology::path::{acyclic, lemma_closed_reach, lemma_reach_edge, lemma_reach_join,
    lemma_reach_self, reach};
use crate::ontology::resolve::{leads, lemma_unbeaten_exists, most_derived, unbeaten, winner};
use crate::ontology::scrub::{edge_claimed, lemma_kept_relations, names_of, own_edges,
    own_relations, own_tags, relation_claimed, scrubbed, tag_claimed};
use crate::ontology::state::{axis_clear, conflict, declares, fits, installed, InstallFault,
    lemma_registered_grows, linked, registered, related, OntologyModel, OntologyState, Relation};
use crate::ontology::undo::{lemma_edges_added, lemma_kept_targets, lemma_relations_added};
use crate::ontology::upgrade::{defines, dropped, fresh_next, without_record};
use crate::types::id::{ModuleId, TagId};
use crate::types::policy::StoragePolicy;
use crate::types::tag::{TagModel, TagRelation};

verus! {

// ---------------------------------------------------------------------
// Implications
// ---------------------------------------------------------------------

/// Every tag of the graph is itself; a tag is what it directly implies; and
/// what it is, is passed on.
pub proof fn is_a_is_an_order(
    d: ImplicationDag,
    a: TagId,
    b: TagId,
    c: TagId,
    own: bool,
    first: bool,
    second: bool,
    both: bool,
    direct: Vec<TagId>,
    known: bool,
)
    requires
        d.wf(),
        call_ensures(ImplicationDag::contains, (&d, a), known),
        call_ensures(ImplicationDag::is_a, (&d, a, a), own),
        call_ensures(ImplicationDag::is_a, (&d, a, b), first),
        call_ensures(ImplicationDag::is_a, (&d, b, c), second),
        call_ensures(ImplicationDag::is_a, (&d, a, c), both),
        call_ensures(ImplicationDag::direct_implies, (&d, a), direct),
    ensures
        own == known,
        direct@.contains(b) ==> first,
        first && second ==> both,
        first ==> known,
        first && direct@.len() == 0 ==> a == b,
{
    let e = d@.edges;
    d.edges_join_tags();
    lemma_reach_self(e, a);
    if direct@.contains(b) {
        lemma_reach_edge(e, a, b);
    }
    if first && second {
        lemma_reach_join(e, a, b, c);
    }
    if first && a != b && direct@.len() == 0 {
        let closed = Set::new(|t: TagId| t == a);
        assert forall|x: TagId, y: TagId|
            closed.contains(x) && #[trigger] e.contains((x, y)) implies closed.contains(y) by {
            assert(direct@.contains(y));
        }
        lemma_closed_reach(e, closed, a, b);
    }
}

/// A tag is nothing but what it leads to: every set that holds it, and with a
/// tag whatever that directly implies, holds all that it is.
pub proof fn is_a_goes_no_further(
    d: ImplicationDag,
    a: TagId,
    b: TagId,
    r: bool,
    closed: Set<TagId>,
)
    requires
        d.wf(),
        call_ensures(ImplicationDag::is_a, (&d, a, b), r),
        closed.contains(a),
        forall|x: TagId, y: TagId|
            closed.contains(x) && #[trigger] d@.edges.contains((x, y)) ==> closed.contains(y),
    ensures
        r ==> closed.contains(b),
{
    if r {
        lemma_closed_reach(d@.edges, closed, a, b);
    }
}

/// The closure of some tags holds these, and with a tag whatever that directly
/// implies; each once, in ascending order.
pub proof fn closure_holds_what_follows(
    d: ImplicationDag,
    tags: Vec<TagId>,
    r: Vec<TagId>,
    t: TagId,
    u: TagId,
)
    requires
        d.wf(),
        call_ensures(ImplicationDag::closure, (&d, &tags), r),
    ensures
        tags@.contains(t) ==> r@.contains(t),
        r@.contains(t) && d@.edges.contains((t, u)) ==> r@.contains(u),
        forall|i: int, j: int|
            0 <= i < j < r@.len() ==> (#[trigger] r@[i]).id < (#[trigger] r@[j]).id,
{
    let c = closure_set(d@, tags@);
    d.edges_join_tags();
    assert forall|x: TagId| r@.contains(x) == #[trigger] c.contains(x) by {
        assert(r@.to_set().contains(x) == r@.contains(x));
    }
    if tags@.contains(t) {
        assert(c.contains(t));
    }
    if r@.contains(t) && d@.edges.contains((t, u)) {
        assert(c.contains(t));
        lemma_reach_edge(d@.edges, t, u);
        if reach_set(d@, tags@).contains(t) {
            let s = choose|s: TagId| #[trigger] tags@.contains(s) && implied(d@, s, t);
            lemma_reach_join(d@.edges, s, t, u);
            assert(implied(d@, s, u));
            assert(reach_set(d@, tags@).contains(u));
        } else {
            assert(tags@.contains(t));
            assert(implied(d@, t, u));
            assert(reach_set(d@, tags@).contains(u));
        }
        assert(c.contains(u));
    }
}

/// The closure of some tags holds no other: every set that holds them, and with
/// a tag whatever that directly implies, holds the closure.
pub proof fn closure_goes_no_further(
    d: ImplicationDag,
    tags: Vec<TagId>,
    r: Vec<TagId>,
    t: TagId,
    closed: Set<TagId>,
)
    requires
        d.wf(),
        call_ensures(ImplicationDag::closure, (&d, &tags), r),
        forall|s: TagId| #[trigger] tags@.contains(s) ==> closed.contains(s),
        forall|x: TagId, y: TagId|
            closed.contains(x) && #[trigger] d@.edges.contains((x, y)) ==> closed.contains(y),
        r@.contains(t),
    ensures
        closed.contains(t),
{
    assert(r@.to_set().contains(t));
    let c = closure_set(d@, tags@);
    assert(c.contains(t));
    if !tags@.contains(t) {
        let s = choose|s: TagId| #[trigger] tags@.contains(s) && implied(d@, s, t);
        lemma_closed_reach(d@.edges, closed, s, t);
    }
}

/// The tags of an object in the registry are those of the closure of its direct
/// tags.
pub proof fn materialised_tags_are_the_closure(
    state: OntologyState,
    tags: Vec<TagId>,
    r: Vec<TagId>,
    c: Vec<TagId>,
)
    requires
        state.wf(),
        call_ensures(OntologyState::materialise, (&state, &tags), r),
        call_ensures(ImplicationDag::closure, (&state.dag, &tags), c),
    ensures
        r@.to_set() == c@.to_set(),
{
}

/// An implication is added exactly where both tags are there and the target is
/// not the source already. It makes the source what the target is, takes
/// nothing away, and brings nothing that does not go through it.
pub proof fn added_implication_holds(
    d: &mut ImplicationDag,
    from: TagId,
    to: TagId,
    r: Result<(), OntologyError>,
    knows_from: bool,
    knows_to: bool,
    back: bool,
    a: TagId,
    b: TagId,
    before: bool,
    after: bool,
    to_from: bool,
    on_from: bool,
)
    requires
        old(d).wf(),
        call_ensures(ImplicationDag::add_implication, (d, from, to), r),
        call_ensures(ImplicationDag::contains, (&*old(d), from), knows_from),
        call_ensures(ImplicationDag::contains, (&*old(d), to), knows_to),
        call_ensures(ImplicationDag::is_a, (&*old(d), to, from), back),
        call_ensures(ImplicationDag::is_a, (&*old(d), a, b), before),
        call_ensures(ImplicationDag::is_a, (&*final(d), a, b), after),
        call_ensures(ImplicationDag::is_a, (&*old(d), a, from), to_from),
        call_ensures(ImplicationDag::is_a, (&*old(d), to, b), on_from),
    ensures
        final(d).wf(),
        r is Ok <==> knows_from && knows_to && !back,
        !knows_from ==> r == Err::<(), OntologyError>(OntologyError::TagNotFound(from)),
        knows_from && !knows_to ==> r == Err::<(), OntologyError>(OntologyError::TagNotFound(to)),
        knows_from && knows_to && back ==> r is Err && r->Err_0 is CycleDetected,
        r is Err ==> after == before,
        r is Ok ==> after == (before || (to_from && on_from)),
{
    let e = old(d)@.edges;
    let f = final(d)@.edges;
    if r is Ok {
        assert(f == e.insert((from, to)));
        if before {
            lemma_more_edges(e, f, a, b);
        }
        if to_from && on_from {
            lemma_more_edges(e, f, a, from);
            lemma_more_edges(e, f, to, b);
            lemma_reach_edge(f, from, to);
            lemma_reach_join(f, a, from, to);
            lemma_reach_join(f, a, to, b);
        }
        if after && !before {
            let closed = Set::new(
                |t: TagId| reach(e, a, t) || (reach(e, a, from) && reach(e, to, t)),
            );
            lemma_reach_self(e, a);
            lemma_reach_self(e, to);
            assert forall|x: TagId, y: TagId|
                closed.contains(x) && #[trigger] f.contains((x, y)) implies closed.contains(y) by {
                if e.contains((x, y)) {
                    lemma_reach_edge(e, x, y);
                    if reach(e, a, x) {
                        lemma_reach_join(e, a, x, y);
                    } else {
                        lemma_reach_join(e, to, x, y);
                    }
                } else {
                    assert((x, y) == (from, to));
                    if !reach(e, a, from) {
                        assert(reach(e, a, x));
                    }
                }
            }
            lemma_closed_reach(f, closed, a, b);
            old(d).edges_join_tags();
        }
    }
}

/// What is reached is reached along more edges, too.
proof fn lemma_more_edges(e: Set<(TagId, TagId)>, f: Set<(TagId, TagId)>, a: TagId, b: TagId)
    requires
        e.subset_of(f),
        reach(e, a, b),
    ensures
        reach(f, a, b),
{
    let closed = Set::new(|t: TagId| reach(f, a, t));
    lemma_reach_self(f, a);
    assert forall|x: TagId, y: TagId|
        closed.contains(x) && #[trigger] e.contains((x, y)) implies closed.contains(y) by {
        lemma_reach_edge(f, x, y);
        lemma_reach_join(f, a, x, y);
    }
    lemma_closed_reach(e, closed, a, b);
}

/// A tag that is removed is nothing any more and implies nothing; the direct
/// implications among other tags stay.
pub proof fn removed_tag_implies_nothing(
    d: &mut ImplicationDag,
    gone: TagId,
    a: TagId,
    b: TagId,
    known: bool,
    still: bool,
    before: Vec<TagId>,
    after: Vec<TagId>,
)
    requires
        old(d).wf(),
        call_ensures(ImplicationDag::remove_tag, (d, gone), ()),
        call_ensures(ImplicationDag::contains, (&*final(d), gone), known),
        call_ensures(ImplicationDag::is_a, (&*final(d), gone, b), still),
        call_ensures(ImplicationDag::direct_implies, (&*old(d), a), before),
        call_ensures(ImplicationDag::direct_implies, (&*final(d), a), after),
    ensures
        final(d).wf(),
        !known,
        !still,
        a != gone ==> (after@.contains(b) <==> before@.contains(b) && b != gone),
        a == gone ==> !after@.contains(b),
{
}

/// An implication that is taken back is gone; the other direct implications
/// stay.
pub proof fn taken_back_implication_is_gone(
    d: &mut ImplicationDag,
    from: TagId,
    to: TagId,
    a: TagId,
    b: TagId,
    before: Vec<TagId>,
    after: Vec<TagId>,
)
    requires
        old(d).wf(),
        call_ensures(ImplicationDag::remove_implication, (d, from, to), ()),
        call_ensures(ImplicationDag::direct_implies, (&*old(d), a), before),
        call_ensures(ImplicationDag::direct_implies, (&*final(d), a), after),
    ensures
        final(d).wf(),
        after@.contains(b) <==> before@.contains(b) && !(a == from && b == to),
{
}

// ---------------------------------------------------------------------
// Policies
// ---------------------------------------------------------------------

/// The tag declares how content is cut into chunks.
pub open spec fn sets_chunking(state: OntologyState, t: TagId) -> bool {
    &&& state@.tags.contains_key(t)
    &&& state@.tags[t].storage is Some
    &&& state@.tags[t].storage->0.chunking is Some
}

/// The tag declares how content is compressed.
pub open spec fn sets_compression(state: OntologyState, t: TagId) -> bool {
    &&& state@.tags.contains_key(t)
    &&& state@.tags[t].storage is Some
    &&& state@.tags[t].storage->0.compression is Some
}

/// The tag declares how content is encrypted.
pub open spec fn sets_encryption(state: OntologyState, t: TagId) -> bool {
    &&& state@.tags.contains_key(t)
    &&& state@.tags[t].storage is Some
    &&& state@.tags[t].storage->0.encryption is Some
}

/// If a tag that an object has, or one that follows, declares an axis, the
/// policy of the object has there what a declaring tag says that no other
/// declaring tag of the object implies: the default does not matter. Only
/// where none declares the axis the default decides.
pub proof fn declared_axes_decide(
    state: OntologyState,
    tags: Vec<TagId>,
    all: Vec<TagId>,
    default: StoragePolicy,
    other: StoragePolicy,
    r: StoragePolicy,
    s: StoragePolicy,
)
    requires
        state.wf(),
        call_ensures(OntologyState::materialise, (&state, &tags), all),
        call_ensures(OntologyState::resolve_policy, (&state, &tags, &default), r),
        call_ensures(OntologyState::resolve_policy, (&state, &tags, &other), s),
    ensures
        (exists|u: TagId| #[trigger] all@.contains(u) && sets_chunking(state, u)) ==> {
            &&& r.chunking == s.chunking
            &&& exists|t: TagId|
                {
                    &&& #[trigger] all@.contains(t)
                    &&& sets_chunking(state, t)
                    &&& r.chunking == state@.tags[t].storage->0.chunking
                    &&& forall|u: TagId| #[trigger]
                        all@.contains(u) && sets_chunking(state, u) && u != t ==> !implied(
                            state@.dag,
                            u,
                            t,
                        )
                }
        },
        !(exists|u: TagId| #[trigger] all@.contains(u) && sets_chunking(state, u)) ==> r.chunking
            == default.chunking,
        (exists|u: TagId| #[trigger] all@.contains(u) && sets_compression(state, u)) ==> {
            &&& r.compression == s.compression
            &&& exists|t: TagId|
                {
                    &&& #[trigger] all@.contains(t)
                    &&& sets_compression(state, t)
                    &&& r.compression == state@.tags[t].storage->0.compression
                    &&& forall|u: TagId| #[trigger]
                        all@.contains(u) && sets_compression(state, u) && u != t ==> !implied(
                            state@.dag,
                            u,
                            t,
                        )
                }
        },
        !(exists|u: TagId| #[trigger] all@.contains(u) && sets_compression(state, u))
            ==> r.compression == default.compression,
        (exists|u: TagId| #[trigger] all@.contains(u) && sets_encryption(state, u)) ==> {
            &&& r.encryption == s.encryption
            &&& exists|t: TagId|
                {
                    &&& #[trigger] all@.contains(t)
                    &&& sets_encryption(state, t)
                    &&& r.encryption == state@.tags[t].storage->0.encryption
                    &&& forall|u: TagId| #[trigger]
                        all@.contains(u) && sets_encryption(state, u) && u != t ==> !implied(
                            state@.dag,
                            u,
                            t,
                        )
                }
        },
        !(exists|u: TagId| #[trigger] all@.contains(u) && sets_encryption(state, u))
            ==> r.encryption == default.encryption,
{
    let m = state@;
    let c = closure_set(m.dag, tags@);
    assert(all@.to_set() == c);
    lemma_axis(m, StorageAxis::Chunking, all@);
    lemma_axis(m, StorageAxis::Compression, all@);
    lemma_axis(m, StorageAxis::Encryption, all@);
    if exists|u: TagId| #[trigger] all@.contains(u) && sets_chunking(state, u) {
        let u = choose|u: TagId| #[trigger] all@.contains(u) && sets_chunking(state, u);
        assert(declares(m, StorageAxis::Chunking, u));
        let t = winner(m, StorageAxis::Chunking, c)->0;
        assert(all@.contains(t));
        assert forall|v: TagId| #[trigger]
            all@.contains(v) && sets_chunking(state, v) && v != t implies !implied(m.dag, v, t) by {
            assert(declares(m, StorageAxis::Chunking, v));
            assert(c.contains(v));
        }
    }
    if exists|u: TagId| #[trigger] all@.contains(u) && sets_compression(state, u) {
        let u = choose|u: TagId| #[trigger] all@.contains(u) && sets_compression(state, u);
        assert(declares(m, StorageAxis::Compression, u));
        let t = winner(m, StorageAxis::Compression, c)->0;
        assert(all@.contains(t));
        assert forall|v: TagId| #[trigger]
            all@.contains(v) && sets_compression(state, v) && v != t implies !implied(
            m.dag,
            v,
            t,
        ) by {
            assert(declares(m, StorageAxis::Compression, v));
            assert(c.contains(v));
        }
    }
    if exists|u: TagId| #[trigger] all@.contains(u) && sets_encryption(state, u) {
        let u = choose|u: TagId| #[trigger] all@.contains(u) && sets_encryption(state, u);
        assert(declares(m, StorageAxis::Encryption, u));
        let t = winner(m, StorageAxis::Encryption, c)->0;
        assert(all@.contains(t));
        assert forall|v: TagId| #[trigger]
            all@.contains(v) && sets_encryption(state, v) && v != t implies !implied(
            m.dag,
            v,
            t,
        ) by {
            assert(declares(m, StorageAxis::Encryption, v));
            assert(c.contains(v));
        }
    }
}

/// The axis has a deciding tag among the candidates exactly where one of them
/// declares it.
proof fn lemma_axis(m: OntologyModel, axis: StorageAxis, all: Seq<TagId>)
    requires
        acyclic(m.dag.edges),
    ensures
        winner(m, axis, all.to_set()) is Some <==> exists|u: TagId| #[trigger]
            all.contains(u) && declares(m, axis, u),
        winner(m, axis, all.to_set()) is Some ==> most_derived(
            m,
            axis,
            all.to_set(),
            winner(m, axis, all.to_set())->0,
        ) && all.contains(winner(m, axis, all.to_set())->0),
{
    let c = all.to_set();
    if exists|u: TagId| #[trigger] all.contains(u) && declares(m, axis, u) {
        let u = choose|u: TagId| #[trigger] all.contains(u) && declares(m, axis, u);
        let p = |t: TagId| declares(m, axis, t);
        let list = all.filter(p);
        lemma_filtered(all, p);
        assert(list.contains(u));
        assert(list.len() > 0);
        lemma_unbeaten_exists(m.dag, list);
        let i = choose|i: int| 0 <= i < list.len() && #[trigger] unbeaten(m.dag, list, i);
        let t = list[i];
        assert(list.contains(t));
        assert(most_derived(m, axis, c, t)) by {
            assert forall|v: TagId| #[trigger]
                c.contains(v) && declares(m, axis, v) && v != t implies !implied(m.dag, v, t) by {
                assert(all.contains(v) && p(v));
                assert(list.contains(v));
                let j = list.index_of(v);
                assert(list[j] != list[i]);
            }
        }
        lemma_least(all, |v: TagId| most_derived(m, axis, c, v), t);
        let w = choose|w: TagId|
            {
                &&& #[trigger] all.contains(w)
                &&& most_derived(m, axis, c, w)
                &&& forall|v: TagId| #[trigger]
                    all.contains(v) && most_derived(m, axis, c, v) ==> w.id <= v.id
            };
        assert(leads(m, axis, c, w)) by {
            assert forall|v: TagId| #[trigger] most_derived(m, axis, c, v) implies w.id <= v.id by {
                assert(all.contains(v));
            }
        }
    }
    if winner(m, axis, c) is Some {
        let w = winner(m, axis, c)->0;
        assert(leads(m, axis, c, w));
        assert(all.contains(w) && declares(m, axis, w));
    }
}

/// What a filtered list holds.
proof fn lemma_filtered(all: Seq<TagId>, p: spec_fn(TagId) -> bool)
    ensures
        forall|x: TagId| #[trigger] all.filter(p).contains(x) <==> all.contains(x) && p(x),
    decreases all.len(),
{
    reveal(Seq::filter);
    if all.len() > 0 {
        let front = all.drop_last();
        lemma_filtered(front, p);
        let f = front.filter(p);
        let g = all.filter(p);
        assert forall|x: TagId| #[trigger] g.contains(x) <==> all.contains(x) && p(x) by {
            assert(all.contains(x) <==> front.contains(x) || x == all.last()) by {
                if front.contains(x) {
                    let i = front.index_of(x);
                    assert(all[i] == x);
                }
                if all.contains(x) {
                    let i = all.index_of(x);
                    if i < front.len() {
                        assert(front[i] == x);
                    }
                }
                assert(all[all.len() - 1] == all.last());
            }
            if p(all.last()) {
                if f.contains(x) {
                    let i = f.index_of(x);
                    assert(g[i] == x);
                }
                assert(g[f.len() as int] == all.last());
            }
        }
    }
}

/// Among the tags of a list with a property one has the smallest id.
proof fn lemma_least(s: Seq<TagId>, p: spec_fn(TagId) -> bool, t: TagId)
    requires
        s.contains(t),
        p(t),
    ensures
        exists|w: TagId|
            {
                &&& #[trigger] s.contains(w)
                &&& p(w)
                &&& forall|v: TagId| #[trigger] s.contains(v) && p(v) ==> w.id <= v.id
            },
    decreases t.id,
{
    if exists|v: TagId| #[trigger] s.contains(v) && p(v) && v.id < t.id {
        let v = choose|v: TagId| #[trigger] s.contains(v) && p(v) && v.id < t.id;
        lemma_least(s, p, v);
    } else {
        assert forall|v: TagId| #[trigger] s.contains(v) && p(v) implies t.id <= v.id by {}
    }
}

// ---------------------------------------------------------------------
// Modules
// ---------------------------------------------------------------------

/// Definition `i` is the first of its name, and the name is not taken in `m`.
pub open spec fn brings(m: OntologyModel, defs: Seq<TagModel>, i: int) -> bool {
    &&& 0 <= i < defs.len()
    &&& !m.names.contains_key(defs[i].name)
    &&& forall|j: int| 0 <= j < i ==> (#[trigger] defs[j]).name != defs[i].name
}

/// What registering the first `k` definitions leaves and brings.
spec fn registered_well(
    m: OntologyModel,
    r: OntologyModel,
    next: int,
    to: int,
    fresh: Seq<TagId>,
    defs: Seq<TagModel>,
    k: int,
) -> bool {
    &&& forall|x: Seq<char>| #[trigger]
        m.names.contains_key(x) ==> r.names.contains_key(x) && r.names[x] == m.names[x]
    &&& forall|x: Seq<char>| #[trigger]
        r.names.contains_key(x) && !m.names.contains_key(x) ==> exists|i: int|
            0 <= i < k && #[trigger] brings(m, defs, i) && defs[i].name == x
    &&& forall|i: int|
        0 <= i < k && #[trigger] brings(m, defs, i) ==> {
            let t = r.names[defs[i].name];
            &&& r.names.contains_key(defs[i].name)
            &&& next <= t.id < to
            &&& fresh.contains(t)
            &&& r.tags.contains_key(t)
            &&& r.tags[t] == TagModel { id: t, ..defs[i] }
        }
    &&& forall|t: TagId| #[trigger]
        fresh.contains(t) ==> next <= t.id < to && exists|i: int|
            0 <= i < k && #[trigger] brings(m, defs, i) && r.names[defs[i].name] == t
    &&& forall|t: TagId| #[trigger]
        r.tags.contains_key(t) <==> m.tags.contains_key(t) || fresh.contains(t)
    &&& forall|t: TagId| #[trigger]
        m.tags.contains_key(t) && !fresh.contains(t) ==> r.tags[t] == m.tags[t]
    &&& r.dag.edges == m.dag.edges
    &&& r.relations == m.relations
    &&& r.modules == m.modules
    &&& next <= to
}

proof fn lemma_registered_well(m: OntologyModel, next: int, defs: Seq<TagModel>, k: int, n: int)
    requires
        0 <= next,
        0 <= k <= n <= defs.len(),
        registered(m, next, defs, n).next <= u32::MAX,
    ensures
        registered_well(
            m,
            registered(m, next, defs, k).model,
            next,
            registered(m, next, defs, k).next,
            registered(m, next, defs, k).fresh,
            defs,
            k,
        ),
    decreases k,
{
    if k > 0 {
        lemma_registered_well(m, next, defs, k - 1, n);
        lemma_registered_grows(m, next, defs, k, n);
        lemma_registered_grows(m, next, defs, k - 1, n);
        let r = registered(m, next, defs, k - 1);
        let s = registered(m, next, defs, k);
        let d = defs[k - 1];
        if r.model.names.contains_key(d.name) {
            assert(!brings(m, defs, k - 1)) by {
                if brings(m, defs, k - 1) {
                    let i = choose|i: int|
                        0 <= i < k - 1 && #[trigger] brings(m, defs, i) && defs[i].name == d.name;
                    assert(defs[i].name != defs[k - 1].name);
                }
            }
        } else {
            let id = TagId { id: r.next as u32 };
            assert(id.id == r.next);
            assert(!m.names.contains_key(d.name));
            assert(brings(m, defs, k - 1)) by {
                assert forall|j: int| 0 <= j < k - 1 implies (#[trigger] defs[j]).name != d.name by {
                    if defs[j].name == d.name {
                        lemma_first_of_name(m, defs, j);
                        let i = choose|i: int|
                            0 <= i <= j && #[trigger] brings(m, defs, i) && defs[i].name
                                == defs[j].name;
                        assert(r.model.names.contains_key(defs[i].name));
                    }
                }
            }
            assert forall|t: TagId| #[trigger] s.fresh.contains(t) <==> r.fresh.contains(t) || t
                == id by {
                if r.fresh.contains(t) {
                    let i = r.fresh.index_of(t);
                    assert(s.fresh[i] == t);
                }
                assert(s.fresh[r.fresh.len() as int] == id);
            }
            assert forall|i: int| 0 <= i < k && #[trigger] brings(m, defs, i) implies {
                let t = s.model.names[defs[i].name];
                &&& s.model.names.contains_key(defs[i].name)
                &&& next <= t.id < s.next
                &&& s.fresh.contains(t)
                &&& s.model.tags.contains_key(t)
                &&& s.model.tags[t] == TagModel { id: t, ..defs[i] }
            } by {
                if i < k - 1 {
                    let t = r.model.names[defs[i].name];
                    assert(defs[i].name != d.name) by {
                        assert(r.model.names.contains_key(defs[i].name));
                    }
                    assert(s.model.names[defs[i].name] == t);
                    assert(t.id < r.next);
                    assert(t != id);
                } else {
                    assert(s.model.names[d.name] == id);
                }
            }
            assert forall|t: TagId| #[trigger] s.fresh.contains(t) implies next <= t.id < s.next
                && exists|i: int|
                0 <= i < k && #[trigger] brings(m, defs, i) && s.model.names[defs[i].name] == t by {
                if r.fresh.contains(t) {
                    let i = choose|i: int|
                        0 <= i < k - 1 && #[trigger] brings(m, defs, i) && r.model.names[
                        defs[i].name] == t;
                    assert(r.model.names.contains_key(defs[i].name));
                    assert(defs[i].name != d.name);
                    assert(s.model.names[defs[i].name] == t);
                } else {
                    assert(s.model.names[defs[k - 1].name] == t);
                }
            }
            assert forall|x: Seq<char>| #[trigger]
                s.model.names.contains_key(x) && !m.names.contains_key(x) implies exists|i: int|
                0 <= i < k && #[trigger] brings(m, defs, i) && defs[i].name == x by {
                if x == d.name {
                    assert(brings(m, defs, k - 1) && defs[k - 1].name == x);
                } else {
                    assert(r.model.names.contains_key(x));
                }
            }
        }
    }
}

/// A name that is not taken has a first definition.
proof fn lemma_first_of_name(m: OntologyModel, defs: Seq<TagModel>, j: int)
    requires
        0 <= j < defs.len(),
        !m.names.contains_key(defs[j].name),
    ensures
        exists|i: int| 0 <= i <= j && #[trigger] brings(m, defs, i) && defs[i].name == defs[j].name,
    decreases j,
{
    if exists|i: int| 0 <= i < j && (#[trigger] defs[i]).name == defs[j].name {
        let i = choose|i: int| 0 <= i < j && (#[trigger] defs[i]).name == defs[j].name;
        lemma_first_of_name(m, defs, i);
    } else {
        assert(brings(m, defs, j));
    }
}

/// What installing `module` into `m` gives, if it succeeds.
pub open spec fn takes_effect(
    m: OntologyModel,
    n: OntologyModel,
    module: ModuleModel,
    next: int,
) -> bool {
    &&& forall|x: Seq<char>| #[trigger]
        m.names.contains_key(x) ==> n.names.contains_key(x) && n.names[x] == m.names[x]
    &&& forall|x: Seq<char>| #[trigger]
        n.names.contains_key(x) && !m.names.contains_key(x) ==> exists|i: int|
            #[trigger] brings(m, module.tags, i) && module.tags[i].name == x
    &&& forall|i: int| #[trigger]
        brings(m, module.tags, i) ==> {
            let d = module.tags[i];
            let t = n.names[d.name];
            &&& n.names.contains_key(d.name)
            &&& t.id >= next
            &&& n.tags.contains_key(t)
            &&& n.tags[t].id == t
            &&& n.tags[t].name == d.name
            &&& n.tags[t].semantics == d.semantics
            &&& n.tags[t].storage == d.storage
            &&& d.implies.is_prefix_of(n.tags[t].implies)
        }
    &&& forall|t: TagId| #[trigger]
        n.tags.contains_key(t) && !m.tags.contains_key(t) ==> exists|i: int|
            #[trigger] brings(m, module.tags, i) && n.names[module.tags[i].name] == t
    &&& forall|t: TagId| #[trigger]
        m.tags.contains_key(t) && t.id < next ==> {
            &&& n.tags.contains_key(t)
            &&& n.tags[t].id == m.tags[t].id
            &&& n.tags[t].name == m.tags[t].name
            &&& n.tags[t].semantics == m.tags[t].semantics
            &&& n.tags[t].storage == m.tags[t].storage
            &&& m.tags[t].implies.is_prefix_of(n.tags[t].implies)
        }
    &&& forall|i: int|
        0 <= i < module.implications.len() ==> {
            let (a, b) = #[trigger] module.implications[i];
            &&& n.names.contains_key(a)
            &&& n.names.contains_key(b)
            &&& n.dag.edges.contains((n.names[a], n.names[b]))
            &&& n.tags.contains_key(n.names[a]) ==> n.tags[n.names[a]].implies.contains(n.names[b])
        }
    &&& forall|e: (TagId, TagId)| #[trigger]
        n.dag.edges.contains(e) <==> m.dag.edges.contains(e) || exists|i: int|
            {
                &&& 0 <= i < module.implications.len()
                &&& n.names[(#[trigger] module.implications[i]).0] == e.0
                &&& n.names[module.implications[i].1] == e.1
            }
    &&& forall|e: Relation| #[trigger]
        n.relations.contains(e) <==> m.relations.contains(e) || exists|i: int|
            {
                &&& 0 <= i < module.relations.len()
                &&& n.names[(#[trigger] module.relations[i]).0] == e.0
                &&& module.relations[i].1 == e.1
                &&& n.names[module.relations[i].2] == e.2
            }
    &&& m.relations.is_prefix_of(n.relations)
    &&& n.modules.contains_key(module.id)
    &&& n.modules[module.id].id == module.id
    &&& n.modules[module.id].version == module.version
    &&& n.modules[module.id].name == module.name
    &&& n.modules.remove(module.id) == m.modules.remove(module.id)
    &&& forall|t: TagId| #[trigger]
        n.modules[module.id].tags.contains(t) <==> exists|i: int|
            #[trigger] brings(m, module.tags, i) && n.names[module.tags[i].name] == t
    &&& n.modules[module.id].implications.len() == module.implications.len()
    &&& forall|i: int|
        0 <= i < module.implications.len() ==> #[trigger] n.modules[module.id].implications[i] == (
            n.names[module.implications[i].0],
            n.names[module.implications[i].1],
        )
    &&& n.modules[module.id].relations.len() == module.relations.len()
    &&& forall|i: int|
        0 <= i < module.relations.len() ==> #[trigger] n.modules[module.id].relations[i] == (
            n.names[module.relations[i].0],
            module.relations[i].1,
            n.names[module.relations[i].2],
        )
}

/// The pairs of tags that implications stand for.
proof fn lemma_linked_pairs(m: OntologyModel, imps: Seq<(Seq<char>, Seq<char>)>, k: int)
    requires
        0 <= k <= imps.len(),
        linked(m, imps, k) is Ok,
    ensures
        linked(m, imps, k)->Ok_0.1.len() == k,
        linked(m, imps, k)->Ok_0.0.names == m.names,
        forall|i: int|
            0 <= i < k ==> m.names.contains_key((#[trigger] imps[i]).0) && m.names.contains_key(
                imps[i].1,
            ) && linked(m, imps, k)->Ok_0.1[i] == (
                m.names[imps[i].0],
                m.names[imps[i].1],
            ),
    decreases k,
{
    if k > 0 {
        lemma_linked_pairs(m, imps, k - 1);
        let added = linked(m, imps, k - 1)->Ok_0.1;
        let all = linked(m, imps, k)->Ok_0.1;
        assert forall|i: int| 0 <= i < k implies m.names.contains_key((#[trigger] imps[i]).0)
            && m.names.contains_key(imps[i].1) && all[i] == (
            m.names[imps[i].0],
            m.names[imps[i].1],
        ) by {
            if i < k - 1 {
                assert(all[i] == added[i]);
            }
        }
    }
}

/// The triples that relations stand for.
proof fn lemma_related_triples(
    m: OntologyModel,
    rels: Seq<(Seq<char>, TagRelation, Seq<char>)>,
    k: int,
)
    requires
        0 <= k <= rels.len(),
        related(m, rels, k) is Ok,
    ensures
        related(m, rels, k)->Ok_0.1.len() == k,
        related(m, rels, k)->Ok_0.0.names == m.names,
        forall|i: int|
            0 <= i < k ==> m.names.contains_key((#[trigger] rels[i]).0) && m.names.contains_key(
                rels[i].2,
            ) && related(m, rels, k)->Ok_0.1[i] == (
                m.names[rels[i].0],
                rels[i].1,
                m.names[rels[i].2],
            ),
    decreases k,
{
    if k > 0 {
        lemma_related_triples(m, rels, k - 1);
        let added = related(m, rels, k - 1)->Ok_0.1;
        let all = related(m, rels, k)->Ok_0.1;
        assert forall|i: int| 0 <= i < k implies m.names.contains_key((#[trigger] rels[i]).0)
            && m.names.contains_key(rels[i].2) && all[i] == (
            m.names[rels[i].0],
            rels[i].1,
            m.names[rels[i].2],
        ) by {
            if i < k - 1 {
                assert(all[i] == added[i]);
            }
        }
    }
}

proof fn lemma_takes_effect(m: OntologyModel, next: int, module: ModuleModel)
    requires
        0 <= next,
        registered(m, next, module.tags, module.tags.len() as int).next <= u32::MAX,
        installed(m, next, module) is Ok,
    ensures
        takes_effect(m, installed(m, next, module)->Ok_0.model, module, next),
{
    let k = module.tags.len() as int;
    let reg = registered(m, next, module.tags, k);
    let base = reg.model;
    lemma_registered_well(m, next, module.tags, k, k);
    let j = module.implications.len() as int;
    lemma_edges_added(base, module.implications, j);
    lemma_linked_pairs(base, module.implications, j);
    let (q, imps) = linked(base, module.implications, j)->Ok_0;
    let i = module.relations.len() as int;
    lemma_relations_added(q, module.relations, i);
    lemma_related_triples(q, module.relations, i);
    let (p, rels) = related(q, module.relations, i)->Ok_0;
    let n = installed(m, next, module)->Ok_0.model;
    let rec = n.modules[module.id];
    assert(rec.tags == reg.fresh && rec.implications == imps && rec.relations == rels);
    assert(n.names == base.names);
    assert(n.tags == q.tags);
    assert forall|t: TagId| #[trigger] base.tags.contains_key(t) implies n.tags.contains_key(t)
        && base.tags[t].implies.is_prefix_of(n.tags[t].implies) by {
        assert(q.tags.dom().contains(t));
        let a = base.tags[t].implies;
        let b = q.tags[t].implies;
        assert(b.take(a.len() as int) == a);
        assert(a =~= b.subrange(0, a.len() as int));
    }
    assert forall|t: TagId| #[trigger] n.tags.contains_key(t) implies base.tags.contains_key(t) by {
        assert(q.tags.dom().contains(t));
    }
    assert forall|x: int| #[trigger] brings(m, module.tags, x) implies {
        let d = module.tags[x];
        let t = n.names[d.name];
        &&& n.names.contains_key(d.name)
        &&& t.id >= next
        &&& n.tags.contains_key(t)
        &&& n.tags[t].id == t
        &&& n.tags[t].name == d.name
        &&& n.tags[t].semantics == d.semantics
        &&& n.tags[t].storage == d.storage
        &&& d.implies.is_prefix_of(n.tags[t].implies)
    } by {
        let t = base.names[module.tags[x].name];
        assert(base.tags.contains_key(t));
        assert(q.tags[t] == TagModel { implies: q.tags[t].implies, ..base.tags[t] });
    }
    assert forall|t: TagId| #[trigger] m.tags.contains_key(t) && t.id < next implies {
        &&& n.tags.contains_key(t)
        &&& n.tags[t].id == m.tags[t].id
        &&& n.tags[t].name == m.tags[t].name
        &&& n.tags[t].semantics == m.tags[t].semantics
        &&& n.tags[t].storage == m.tags[t].storage
        &&& m.tags[t].implies.is_prefix_of(n.tags[t].implies)
    } by {
        assert(!reg.fresh.contains(t));
        assert(base.tags.contains_key(t));
        assert(q.tags[t] == TagModel { implies: q.tags[t].implies, ..base.tags[t] });
    }
    assert forall|x: int| 0 <= x < j implies {
        let (a, b) = #[trigger] module.implications[x];
        &&& n.names.contains_key(a)
        &&& n.names.contains_key(b)
        &&& n.dag.edges.contains((n.names[a], n.names[b]))
        &&& n.tags.contains_key(n.names[a]) ==> n.tags[n.names[a]].implies.contains(n.names[b])
    } by {
        let e = imps[x];
        assert(imps.contains(e));
        assert(e == (base.names[module.implications[x].0], base.names[module.implications[x].1]));
        assert(q.dag.edges.contains(e));
        if n.tags.contains_key(e.0) {
            assert(base.tags.contains_key(e.0));
        }
    }
    assert forall|e: (TagId, TagId)| #[trigger] n.dag.edges.contains(e) <==> m.dag.edges.contains(
        e,
    ) || exists|x: int|
        {
            &&& 0 <= x < j
            &&& n.names[(#[trigger] module.implications[x]).0] == e.0
            &&& n.names[module.implications[x].1] == e.1
        } by {
        if imps.contains(e) {
            let x = imps.index_of(e);
            assert(imps[x] == e);
            assert(n.names[module.implications[x].0] == e.0);
        }
        if exists|x: int|
            {
                &&& 0 <= x < j
                &&& n.names[(#[trigger] module.implications[x]).0] == e.0
                &&& n.names[module.implications[x].1] == e.1
            } {
            let x = choose|x: int|
                {
                    &&& 0 <= x < j
                    &&& n.names[(#[trigger] module.implications[x]).0] == e.0
                    &&& n.names[module.implications[x].1] == e.1
                };
            assert(imps[x] == e);
            assert(imps.contains(e));
        }
    }
    assert forall|e: Relation| #[trigger] n.relations.contains(e) <==> m.relations.contains(e)
        || exists|x: int|
        {
            &&& 0 <= x < i
            &&& n.names[(#[trigger] module.relations[x]).0] == e.0
            &&& module.relations[x].1 == e.1
            &&& n.names[module.relations[x].2] == e.2
        } by {
        let a = m.relations;
        let b = p.relations;
        if a.contains(e) {
            let x = a.index_of(e);
            assert(b.take(a.len() as int)[x] == b[x]);
        }
        if b.contains(e) && !a.contains(e) {
            let x = b.index_of(e);
            if x < a.len() {
                assert(b.take(a.len() as int)[x] == b[x]);
                assert(a[x] == e);
            }
            assert(rels.contains(b[x]));
            let y = rels.index_of(e);
            assert(rels[y] == e);
            assert(n.names[module.relations[y].0] == e.0);
        }
        if exists|x: int|
            {
                &&& 0 <= x < i
                &&& n.names[(#[trigger] module.relations[x]).0] == e.0
                &&& module.relations[x].1 == e.1
                &&& n.names[module.relations[x].2] == e.2
            } {
            let x = choose|x: int|
                {
                    &&& 0 <= x < i
                    &&& n.names[(#[trigger] module.relations[x]).0] == e.0
                    &&& module.relations[x].1 == e.1
                    &&& n.names[module.relations[x].2] == e.2
                };
            assert(rels[x] == e);
            assert(rels.contains(e));
        }
    }
    assert(m.relations.is_prefix_of(n.relations)) by {
        let a = m.relations;
        let b = p.relations;
        assert(a =~= b.subrange(0, a.len() as int)) by {
            assert(b.take(a.len() as int) =~= b.subrange(0, a.len() as int));
        }
    }
    assert(n.modules == m.modules.insert(module.id, rec));
    assert(n.modules.remove(module.id) =~= m.modules.remove(module.id));
    assert forall|t: TagId| #[trigger] rec.tags.contains(t) <==> exists|x: int|
        #[trigger] brings(m, module.tags, x) && n.names[module.tags[x].name] == t by {
        if exists|x: int| #[trigger] brings(m, module.tags, x) && n.names[module.tags[x].name] == t {
            let x = choose|x: int| #[trigger]
                brings(m, module.tags, x) && n.names[module.tags[x].name] == t;
            assert(reg.fresh.contains(t));
        }
    }
    assert forall|t: TagId| #[trigger]
        n.tags.contains_key(t) && !m.tags.contains_key(t) implies exists|x: int|
        #[trigger] brings(m, module.tags, x) && n.names[module.tags[x].name] == t by {
        assert(base.tags.contains_key(t));
        assert(reg.fresh.contains(t));
    }
}

/// A module that is installed brings its tags as it defines them: under new
/// ids, with their semantics, storage policies and implied tags. Names that are
/// taken keep their meaning. Its implications and relations hold from then on,
/// and nothing else is added or taken away. The result counts what was done.
pub proof fn installed_module_takes_effect(
    state: &mut OntologyState,
    module: OntologyModule,
    alloc: &mut IdAllocator,
    res: InstallResult,
)
    requires
        old(state).wf(),
        fits(old(state)@, old(alloc).next as int, module@),
        call_ensures(OntologyState::install, (state, module, alloc), Ok(res)),
    ensures
        final(state).wf(),
        !old(state)@.modules.contains_key(module@.id),
        takes_effect(old(state)@, final(state)@, module@, old(alloc).next as int),
        res.implications_added == module@.implications.len(),
        res.tags_registered == final(state)@.modules[module@.id].tags.len(),
        res.tags_registered + res.tags_skipped == module@.tags.len(),
        final(alloc).next >= old(alloc).next,
        ids_below(old(state)@, old(alloc).next as int) ==> ids_below(
            final(state)@,
            final(alloc).next as int,
        ),
{
    let m = old(state)@;
    let next = old(alloc).next as int;
    let k = module@.tags.len() as int;
    let i = installed(m, next, module@)->Ok_0;
    lemma_takes_effect(m, next, module@);
    lemma_registered_well(m, next, module@.tags, k, k);
    lemma_counts(m, next, module@.tags, k);
    lemma_linked_pairs(
        registered(m, next, module@.tags, k).model,
        module@.implications,
        module@.implications.len() as int,
    );
    let n = final(state)@;
    let base = registered(m, next, module@.tags, k).model;
    let q = linked(base, module@.implications, module@.implications.len() as int)->Ok_0.0;
    lemma_related_triples(q, module@.relations, module@.relations.len() as int);
    assert(n.names == base.names);
    if ids_below(m, next) {
        assert forall|t: TagId| #[trigger] n.tags.contains_key(t) implies t.id
            < final(alloc).next by {
            if !m.tags.contains_key(t) {
                let x = choose|x: int| #[trigger]
                    brings(m, module@.tags, x) && n.names[module@.tags[x].name] == t;
            }
        }
    }
}

proof fn lemma_counts(m: OntologyModel, next: int, defs: Seq<TagModel>, k: int)
    requires
        0 <= k <= defs.len(),
    ensures
        registered(m, next, defs, k).fresh.len() + registered(m, next, defs, k).skipped == k,
    decreases k,
{
    if k > 0 {
        lemma_counts(m, next, defs, k - 1);
    }
}

/// `a` and `b` declare an axis in common.
pub open spec fn share_an_axis(state: OntologyState, a: TagId, b: TagId) -> bool {
    ||| sets_chunking(state, a) && sets_chunking(state, b)
    ||| sets_compression(state, a) && sets_compression(state, b)
    ||| sets_encryption(state, a) && sets_encryption(state, b)
}

/// Once a module is installed, no two tags quarrel over an axis: of two tags
/// that declare the same one, one implies the other.
pub proof fn declaring_tags_imply_each_other(
    state: &mut OntologyState,
    module: OntologyModule,
    alloc: &mut IdAllocator,
    res: InstallResult,
    a: TagId,
    b: TagId,
    first: bool,
    second: bool,
)
    requires
        old(state).wf(),
        fits(old(state)@, old(alloc).next as int, module@),
        call_ensures(OntologyState::install, (state, module, alloc), Ok(res)),
        call_ensures(ImplicationDag::is_a, (&final(state).dag, a, b), first),
        call_ensures(ImplicationDag::is_a, (&final(state).dag, b, a), second),
    ensures
        a != b && share_an_axis(*final(state), a, b) ==> first || second,
{
    let n = final(state)@;
    install_keeps_axes(old(state)@, old(alloc).next as int, module@);
    if a != b && share_an_axis(*final(state), a, b) {
        assert forall|axis: StorageAxis|
            axis_clear(n, axis) && declares(n, axis, a) && declares(n, axis, b) implies first
            || second by {
            assert(!conflict(n, axis, a, b));
            assert(!conflict(n, axis, b, a));
        }
        if sets_chunking(*final(state), a) && sets_chunking(*final(state), b) {
            assert(declares(n, StorageAxis::Chunking, a));
        } else if sets_compression(*final(state), a) && sets_compression(*final(state), b) {
            assert(declares(n, StorageAxis::Compression, a));
        } else {
            assert(declares(n, StorageAxis::Encryption, a));
        }
    }
}

/// No two tags quarrel over an axis.
pub open spec fn no_quarrel(state: OntologyState) -> bool {
    forall|a: TagId, b: TagId| #[trigger]
        share_an_axis(state, a, b) ==> a == b || implied(state@.dag, a, b) || implied(
            state@.dag,
            b,
            a,
        )
}

/// A module that only brings tags without a storage policy is installed, as
/// long as no two tags quarrelled before.
pub proof fn plain_tags_are_installed(
    state: &mut OntologyState,
    module: OntologyModule,
    alloc: &mut IdAllocator,
    r: Result<InstallResult, OntologyError>,
)
    requires
        old(state).wf(),
        fits(old(state)@, old(alloc).next as int, module@),
        ids_below(old(state)@, old(alloc).next as int),
        no_quarrel(*old(state)),
        !old(state)@.modules.contains_key(module@.id),
        module@.implications.len() == 0,
        module@.relations.len() == 0,
        forall|i: int| 0 <= i < module@.tags.len() ==> (#[trigger] module@.tags[i]).storage is None,
        call_ensures(OntologyState::install, (state, module, alloc), r),
    ensures
        r is Ok,
{
    let m = old(state)@;
    let next = old(alloc).next as int;
    let k = module@.tags.len() as int;
    assert forall|axis: StorageAxis| axis_clear(m, axis) by {
        assert forall|a: TagId, b: TagId| !#[trigger] conflict(m, axis, a, b) by {
            if conflict(m, axis, a, b) {
                assert(share_an_axis(*old(state), a, b));
            }
        }
    }
    lemma_plain_clear(m, next, module@.tags, k);
    let reg = registered(m, next, module@.tags, k);
    assert(linked(reg.model, module@.implications, 0) == Ok::<_, InstallFault>(
        (reg.model, Seq::<(TagId, TagId)>::empty()),
    ));
    assert(related(reg.model, module@.relations, 0) == Ok::<_, InstallFault>(
        (reg.model, Seq::<Relation>::empty()),
    ));
}

proof fn lemma_plain_clear(m: OntologyModel, next: int, defs: Seq<TagModel>, k: int)
    requires
        0 <= next,
        0 <= k <= defs.len(),
        registered(m, next, defs, defs.len() as int).next <= u32::MAX,
        ids_below(m, next),
        forall|axis: StorageAxis| axis_clear(m, axis),
        forall|i: int| 0 <= i < defs.len() ==> (#[trigger] defs[i]).storage is None,
    ensures
        ids_below(registered(m, next, defs, k).model, registered(m, next, defs, k).next),
        forall|axis: StorageAxis| axis_clear(registered(m, next, defs, k).model, axis),
    decreases k,
{
    if k > 0 {
        lemma_plain_clear(m, next, defs, k - 1);
        lemma_registered_grows(m, next, defs, k, defs.len() as int);
        lemma_registered_grows(m, next, defs, 0, k - 1);
        let r = registered(m, next, defs, k - 1);
        let s = registered(m, next, defs, k);
        if !r.model.names.contains_key(defs[k - 1].name) {
            let id = TagId { id: r.next as u32 };
            assert(id.id == r.next);
            assert forall|axis: StorageAxis| axis_clear(s.model, axis) by {
                assert(axis_clear(r.model, axis));
                assert forall|a: TagId, b: TagId| !#[trigger] conflict(s.model, axis, a, b) by {
                    assert(!conflict(r.model, axis, a, b));
                }
            }
        }
    }
}

/// After an install the allocator has gone past the id of every tag that the
/// module names, whether the module brought it or it was there.
pub proof fn allocator_passes_the_tags_of_the_module(
    state: &mut OntologyState,
    module: OntologyModule,
    alloc: &mut IdAllocator,
    res: InstallResult,
    i: int,
)
    requires
        old(state).wf(),
        fits(old(state)@, old(alloc).next as int, module@),
        call_ensures(OntologyState::install, (state, module, alloc), Ok(res)),
        0 <= i < module@.tags.len(),
    ensures
        final(state)@.names.contains_key(module@.tags[i].name),
        final(state)@.names[module@.tags[i].name].id < final(alloc).next,
{
    let m = old(state)@;
    let next = old(alloc).next as int;
    let k = module@.tags.len() as int;
    lemma_passed(m, next, module@.tags, k);
    let base = registered(m, next, module@.tags, k).model;
    let imps = module@.implications;
    lemma_linked_pairs(base, imps, imps.len() as int);
    let q = linked(base, imps, imps.len() as int)->Ok_0.0;
    lemma_related_triples(q, module@.relations, module@.relations.len() as int);
    assert(final(state)@.names == base.names);
}

proof fn lemma_passed(m: OntologyModel, next: int, defs: Seq<TagModel>, k: int)
    requires
        0 <= next,
        0 <= k <= defs.len(),
        registered(m, next, defs, defs.len() as int).next <= u32::MAX,
    ensures
        forall|i: int|
            0 <= i < k ==> {
                let r = registered(m, next, defs, k);
                &&& r.model.names.contains_key((#[trigger] defs[i]).name)
                &&& r.model.names[defs[i].name].id < r.next
            },
    decreases k,
{
    if k > 0 {
        lemma_passed(m, next, defs, k - 1);
        lemma_registered_grows(m, next, defs, k, defs.len() as int);
        let r = registered(m, next, defs, k - 1);
        let s = registered(m, next, defs, k);
        assert forall|i: int| 0 <= i < k implies s.model.names.contains_key(
            (#[trigger] defs[i]).name,
        ) && s.model.names[defs[i].name].id < s.next by {
            if i < k - 1 {
                assert(r.model.names.contains_key(defs[i].name));
            }
        }
    }
}

/// A module that is refused leaves the registry as it was; one that is
/// installed already is always refused.
pub proof fn refused_module_leaves_no_trace(
    state: &mut OntologyState,
    module: OntologyModule,
    alloc: &mut IdAllocator,
    r: Result<InstallResult, OntologyError>,
)
    requires
        old(state).wf(),
        fits(old(state)@, old(alloc).next as int, module@),
        call_ensures(OntologyState::install, (state, module, alloc), r),
    ensures
        r is Err ==> *final(state) == *old(state),
        old(state)@.modules.contains_key(module@.id) ==> r is Err
            && r->Err_0 is ModuleAlreadyInstalled,
{
}

/// An upgrade brings what the new version has beyond the old one, and keeps
/// what the old one listed. It succeeds only where the new version has all
/// tags that the old one brought, and gives none of the registered tags other
/// semantics.
pub proof fn upgraded_module_takes_effect(
    state: &mut OntologyState,
    new: OntologyModule,
    res: InstallResult,
    i: int,
    t: TagId,
)
    requires
        old(state).wf(),
        crate::ontology::state::names_lead(old(state)@),
        old(state)@.tags.dom().finite(),
        old(state)@.modules.contains_key(new@.id) ==> fits(
            without_record(old(state)@, new@.id),
            fresh_next(old(state)@.tags),
            new@,
        ) && old(state)@.modules[new@.id].tags.len() + new@.tags.len() <= usize::MAX,
        call_ensures(OntologyState::upgrade, (state, new), Ok(res)),
    ensures
        final(state).wf(),
        old(state)@.modules.contains_key(new@.id),
        final(state)@.modules.contains_key(new@.id),
        final(state)@.modules[new@.id].version == new@.version,
        final(state)@.modules[new@.id].name == new@.name,
        final(state)@.modules.remove(new@.id) == old(state)@.modules.remove(new@.id),
        brings(old(state)@, new@.tags, i) ==> {
            let d = new@.tags[i];
            let id = final(state)@.names[d.name];
            &&& final(state)@.names.contains_key(d.name)
            &&& !old(state)@.tags.contains_key(id)
            &&& final(state)@.tags.contains_key(id)
            &&& final(state)@.tags[id].name == d.name
            &&& final(state)@.tags[id].semantics == d.semantics
            &&& final(state)@.tags[id].storage == d.storage
            &&& d.implies.is_prefix_of(final(state)@.tags[id].implies)
            &&& final(state)@.modules[new@.id].tags.contains(id)
        },
        0 <= i < new@.tags.len() && old(state)@.names.contains_key(new@.tags[i].name)
            ==> old(state)@.tags[old(state)@.names[new@.tags[i].name]].semantics
            == new@.tags[i].semantics,
        old(state)@.modules[new@.id].tags.contains(t)
            ==> final(state)@.modules[new@.id].tags.contains(t),
        old(state)@.modules[new@.id].tags.contains(t) && old(state)@.tags.contains_key(t)
            ==> defines(new@.tags, old(state)@.tags[t].name),
        0 <= i < new@.implications.len() ==> {
            let (a, b) = new@.implications[i];
            &&& final(state)@.names.contains_key(a)
            &&& final(state)@.names.contains_key(b)
            &&& final(state)@.dag.edges.contains(
                (final(state)@.names[a], final(state)@.names[b]),
            )
        },
        old(state)@.tags.contains_key(t) ==> {
            &&& final(state)@.tags.contains_key(t)
            &&& final(state)@.tags[t].name == old(state)@.tags[t].name
            &&& final(state)@.tags[t].semantics == old(state)@.tags[t].semantics
            &&& final(state)@.tags[t].storage == old(state)@.tags[t].storage
        },
{
    let m = old(state)@;
    let w = without_record(m, new@.id);
    let next = fresh_next(m.tags);
    let n = final(state)@;
    crate::ontology::laws::fresh_ids_are_unused(m);
    if m.modules.contains_key(new@.id) {
        let inst = installed(w, next, new@)->Ok_0;
        lemma_takes_effect(w, next, new@);
        let f = inst.model;
        assert(n.tags == f.tags && n.names == f.names && n.dag == f.dag);
        assert(w.modules.remove(new@.id) =~= m.modules.remove(new@.id));
        assert(n.modules.remove(new@.id) =~= f.modules.remove(new@.id));
        let prev = m.modules[new@.id];
        crate::ontology::undo::lemma_merged(prev.tags, f.modules[new@.id].tags);
        if brings(m, new@.tags, i) {
            assert(brings(w, new@.tags, i));
            let id = n.names[new@.tags[i].name];
            assert(f.modules[new@.id].tags.contains(id));
            if m.tags.contains_key(id) {
                assert(id.id < next);
            }
        }
        if 0 <= i < new@.tags.len() && m.names.contains_key(new@.tags[i].name) {
            assert(!crate::ontology::upgrade::changed(m, new@, i));
        }
        if prev.tags.contains(t) && m.tags.contains_key(t) {
            let x = m.tags[t].name;
            assert(prev.tags.to_set().contains(t));
            assert(names_of(m.tags, prev.tags.to_set()).contains(x));
            assert(!dropped(m, new@).contains(x));
        }
        if 0 <= i < new@.implications.len() {
            let e = new@.implications[i];
            assert(w.names == m.names);
        }
    }
}

/// Taking a module out takes out the tags, implications and relations that it
/// alone lists, with the names of these tags and all that touches them, and
/// nothing else.
pub proof fn taken_out_module_is_gone(
    state: &mut OntologyState,
    id: ModuleId,
    r: Result<usize, OntologyError>,
    t: TagId,
    u: TagId,
    x: Seq<char>,
    kind: TagRelation,
)
    requires
        old(state).wf(),
        call_ensures(OntologyState::scrub, (state, &id), r),
    ensures
        final(state).wf(),
        r is Ok <==> old(state)@.modules.contains_key(id@),
        r is Err ==> *final(state) == *old(state) && r->Err_0 is ModuleNotInstalled,
        r is Ok ==> final(state)@.modules == old(state)@.modules.remove(id@),
        r is Ok ==> ({
            let m = old(state)@;
            let n = final(state)@;
            let goes = |y: TagId|
                m.modules[id@].tags.contains(y) && forall|o: Seq<char>|
                    o != id@ && #[trigger] m.modules.contains_key(o)
                        ==> !m.modules[o].tags.contains(y);
            let alone = m.modules[id@].implications.contains((t, u)) && forall|o: Seq<char>|
                o != id@ && #[trigger] m.modules.contains_key(o)
                    ==> !m.modules[o].implications.contains((t, u));
            &&& n.tags.contains_key(t) <==> m.tags.contains_key(t) && !goes(t)
            &&& n.tags.contains_key(t) ==> {
                &&& n.tags[t].name == m.tags[t].name
                &&& n.tags[t].semantics == m.tags[t].semantics
                &&& n.tags[t].storage == m.tags[t].storage
                &&& n.tags[t].implies.contains(u) <==> m.tags[t].implies.contains(u) && !alone
            }
            &&& n.names.contains_key(x) <==> m.names.contains_key(x) && forall|y: TagId|
                #![trigger m.tags.contains_key(y)]
                m.tags.contains_key(y) && m.tags[y].name == x ==> !goes(y)
            &&& n.names.contains_key(x) ==> n.names[x] == m.names[x]
            &&& n.dag.tags.contains(t) <==> m.dag.tags.contains(t) && !goes(t)
            &&& n.dag.edges.contains((t, u)) <==> m.dag.edges.contains((t, u)) && !alone && !goes(t)
                && !goes(u)
            &&& n.relations.contains((t, kind, u)) <==> m.relations.contains((t, kind, u)) && !(
            m.modules[id@].relations.contains((t, kind, u)) && forall|o: Seq<char>|
                o != id@ && #[trigger] m.modules.contains_key(o)
                    ==> !m.modules[o].relations.contains((t, kind, u)))
        }),
{
    if r is Ok {
        let m = old(state)@;
        let n = final(state)@;
        let rec = m.modules[id@];
        let others = m.modules.remove(id@);
        let gone = own_tags(rec.tags, others);
        let edges = own_edges(rec.implications, others);
        let rels = own_relations(rec.relations, others);
        assert(n == scrubbed(m, id@));
        assert forall|y: TagId| #[trigger] gone.contains(y) <==> rec.tags.contains(y) && forall|
            o: Seq<char>,
        |
            o != id@ && #[trigger] m.modules.contains_key(o) ==> !m.modules[o].tags.contains(y) by {
            if tag_claimed(others, y) {
                let o = choose|o: Seq<char>| #[trigger]
                    others.contains_key(o) && others[o].tags.contains(y);
                assert(m.modules.contains_key(o));
            } else {
                assert forall|o: Seq<char>|
                    o != id@ && #[trigger] m.modules.contains_key(o) implies !m.modules[
                o].tags.contains(y) by {
                    assert(others.contains_key(o));
                }
            }
        }
        let e = (t, u);
        if edge_claimed(others, e) {
            let o = choose|o: Seq<char>| #[trigger]
                others.contains_key(o) && others[o].implications.contains(e);
            assert(m.modules.contains_key(o));
        } else {
            assert forall|o: Seq<char>| o != id@ && #[trigger] m.modules.contains_key(o) implies
                !m.modules[o].implications.contains(e) by {
                assert(others.contains_key(o));
            }
        }
        let q = (t, kind, u);
        if relation_claimed(others, q) {
            let o = choose|o: Seq<char>| #[trigger]
                others.contains_key(o) && others[o].relations.contains(q);
            assert(m.modules.contains_key(o));
        } else {
            assert forall|o: Seq<char>| o != id@ && #[trigger] m.modules.contains_key(o) implies
                !m.modules[o].relations.contains(q) by {
                assert(others.contains_key(o));
            }
        }
        lemma_kept_relations(m.relations, rels, q);
        if m.tags.contains_key(t) {
            lemma_kept_targets(m.tags[t].implies, t, edges, u);
        }
        let lost = names_of(m.tags, gone);
        assert(lost.contains(x) <==> exists|y: TagId|
            #![trigger m.tags.contains_key(y)]
            m.tags.contains_key(y) && m.tags[y].name == x && gone.contains(y)) by {
            if lost.contains(x) {
                let y = choose|y: TagId| #[trigger]
                    gone.contains(y) && m.tags.contains_key(y) && m.tags[y].name == x;
                assert(m.tags.contains_key(y));
            }
            if exists|y: TagId|
                #![trigger m.tags.contains_key(y)]
                m.tags.contains_key(y) && m.tags[y].name == x && gone.contains(y) {
                let y = choose|y: TagId|
                    #![trigger m.tags.contains_key(y)]
                    m.tags.contains_key(y) && m.tags[y].name == x && gone.contains(y);
                assert(gone.contains(y));
            }
        }
    }
}

// ---------------------------------------------------------------------
// Orders and images
// ---------------------------------------------------------------------

/// The sorted tags are the tags of the graph, each once, and a tag stands
/// before those that it implies.
pub proof fn sorted_tags_stand_before_what_they_imply(
    d: ImplicationDag,
    r: Result<Vec<TagId>, OntologyError>,
    a: TagId,
    known: bool,
    direct: Vec<TagId>,
    i: int,
    j: int,
)
    requires
        d.wf(),
        call_ensures(ImplicationDag::topological_sort, (&d,), r),
        call_ensures(ImplicationDag::contains, (&d, a), known),
        call_ensures(ImplicationDag::direct_implies, (&d, a), direct),
    ensures
        r is Ok,
        r->Ok_0@.no_duplicates(),
        r->Ok_0@.contains(a) == known,
        0 <= i < r->Ok_0@.len() && 0 <= j < r->Ok_0@.len() && r->Ok_0@[i] == a && direct@.contains(
            r->Ok_0@[j],
        ) ==> i < j,
{
    let order = r->Ok_0;
    assert(order@.to_set().contains(a) == order@.contains(a));
    if 0 <= i < order@.len() && 0 <= j < order@.len() && order@[i] == a && direct@.contains(
        order@[j],
    ) {
        assert(d@.edges.contains((order@[i], order@[j])));
    }
}

/// A graph is restored from its snapshot: it has the same tags, and the same
/// tags imply each other.
pub proof fn graph_is_restored_from_its_snapshot(
    d: ImplicationDag,
    snap: DagSnapshot,
    r: Result<ImplicationDag, OntologyError>,
    a: TagId,
    b: TagId,
    before: bool,
    after: bool,
    known: bool,
    still: bool,
)
    requires
        d.wf(),
        call_ensures(ImplicationDag::snapshot, (&d,), snap),
        call_ensures(ImplicationDag::from_snapshot, (snap,), r),
        call_ensures(ImplicationDag::is_a, (&d, a, b), before),
        call_ensures(ImplicationDag::contains, (&d, a), known),
        r is Ok ==> call_ensures(ImplicationDag::is_a, (&r->Ok_0, a, b), after),
        r is Ok ==> call_ensures(ImplicationDag::contains, (&r->Ok_0, a), still),
    ensures
        r is Ok,
        after == before,
        still == known,
{
    d.edges_join_tags();
    snapshot_restores(d@, snap.tags@, snap.edges@);
}

/// An image of a version that is not known yet is refused; the version that is
/// written is known.
pub proof fn newer_images_are_refused(
    state: OntologyState,
    own: OntologyImage,
    img: OntologyImage,
    r: Result<OntologyState, OntologyError>,
)
    requires
        state.wf(),
        call_ensures(OntologyState::to_image, (&state,), own),
        image_fits(img),
        call_ensures(OntologyImage::into_state, (&img,), r),
    ensures
        img.format_version > own.format_version ==> r is Err && r->Err_0 is Cbor,
{
}

} // verus!
