//! The implication graph.
//!
//! Nodes are tags; an edge `from -> to` means "from implies to". The graph
//! never holds a cycle: an edge that would close one is refused.

use vstd::prelude::*;
use crate::ontology::error::OntologyError;
use crate::ontology::graph::{edges_without, graph_add_edge, graph_add_node, graph_clone,
    graph_edge_count, graph_edge_list, graph_edges, graph_find_edge, graph_first_predecessor,
    graph_new, graph_node_count, graph_nodes, graph_out, graph_remove_edge, graph_remove_node,
    graph_successors, list_without, without, graph_toposort, graph_weight, graph_weights, is_topological, is_walk,
    on_cycle, renumbered, steps, targets, TagGraph};
use crate::ontology::path::{acyclic, lemma_acyclic_subset, lemma_closed_reach,
    lemma_new_edge_cycle, lemma_reach_edge, lemma_reach_join, lemma_reach_self, reach};
use crate::ordmap::{lemma_items_map, Key, OrdMap};
use crate::types::id::TagId;

verus! {

/// Directed acyclic graph of tag implications.
#[derive(Debug)]
pub struct ImplicationDag {
    graph: TagGraph,
    nodes: OrdMap<TagId, usize>,
}

/// The mathematical content of an [`ImplicationDag`].
#[verifier::ext_equal]
pub ghost struct DagModel {
    pub tags: Set<TagId>,
    pub edges: Set<(TagId, TagId)>,
}

/// The tag at index `i`.
pub open spec fn tag_of(nodes: Seq<u32>, i: usize) -> TagId {
    TagId { id: nodes[i as int] }
}

/// The tags in index order.
pub open spec fn tag_seq(nodes: Seq<u32>) -> Seq<TagId> {
    nodes.map_values(|w: u32| TagId { id: w })
}

/// The edges in index order, as pairs of tags.
pub open spec fn tag_edges(nodes: Seq<u32>, edges: Seq<(usize, usize)>) -> Seq<(TagId, TagId)> {
    edges.map_values(|e: (usize, usize)| (tag_of(nodes, e.0), tag_of(nodes, e.1)))
}

/// The tags at the indices of a list.
pub open spec fn tags_at(nodes: Seq<u32>, l: Seq<usize>) -> Seq<TagId> {
    l.map_values(|i: usize| tag_of(nodes, i))
}

/// `l` lists the targets of the edges from node `i`, each once.
pub open spec fn list_matches(l: Seq<usize>, edges: Seq<(usize, usize)>, i: usize) -> bool {
    &&& l.no_duplicates()
    &&& forall|x: usize| #[trigger] l.contains(x) <==> edges.contains((i, x))
}

/// `out` has such a list for each of `n` nodes.
pub open spec fn lists_match(out: Seq<Seq<usize>>, edges: Seq<(usize, usize)>, n: nat) -> bool {
    &&& out.len() == n
    &&& forall|i: usize| i < n ==> list_matches(#[trigger] out[i as int], edges, i)
}

/// The targets of the edges from `t` among the first `k`, the last first.
pub open spec fn latest_first(edges: Seq<(TagId, TagId)>, t: TagId, k: int) -> Seq<TagId>
    decreases k,
{
    if k <= 0 {
        Seq::empty()
    } else if edges[k - 1].0 == t {
        seq![edges[k - 1].1] + latest_first(edges, t, k - 1)
    } else {
        latest_first(edges, t, k - 1)
    }
}

/// `s` without `x`, whose place the last element takes.
pub open spec fn swap_removed<A>(s: Seq<A>, x: A) -> Seq<A> {
    if s.contains(x) {
        s.update(s.index_of(x), s.last()).drop_last()
    } else {
        s
    }
}

/// The tags ascend strictly.
pub open spec fn tags_ascend(s: Seq<TagId>) -> bool {
    forall|i: int, j: int| 0 <= i < j < s.len() ==> (#[trigger] s[i]).id < (#[trigger] s[j]).id
}

/// `a` comes before `b` by source, then by target.
pub open spec fn pair_precedes(a: (TagId, TagId), b: (TagId, TagId)) -> bool {
    a.0.id < b.0.id || (a.0.id == b.0.id && a.1.id < b.1.id)
}

impl Key for (TagId, TagId) {
    type Model = (TagId, TagId);

    open spec fn model(&self) -> (TagId, TagId) {
        *self
    }

    open spec fn precedes(a: (TagId, TagId), b: (TagId, TagId)) -> bool {
        pair_precedes(a, b)
    }

    proof fn precedes_is_order(a: (TagId, TagId), b: (TagId, TagId), c: (TagId, TagId)) {
    }

    fn is_before(&self, other: &(TagId, TagId)) -> (r: bool) {
        self.0.id < other.0.id || (self.0.id == other.0.id && self.1.id < other.1.id)
    }

    fn copy_key(&self) -> (r: (TagId, TagId)) {
        *self
    }
}

impl Clone for ImplicationDag {
    fn clone(&self) -> (r: Self)
        ensures
            r@ == self@,
            r.tag_order() == self.tag_order(),
            r.edge_order() == self.edge_order(),
    {
        ImplicationDag { graph: graph_clone(&self.graph), nodes: self.nodes.clone() }
    }
}

impl Default for ImplicationDag {
    /// The empty graph.
    fn default() -> (r: Self)
        ensures
            r.wf(),
            r@.tags == Set::<TagId>::empty(),
            r@.edges == Set::<(TagId, TagId)>::empty(),
            r.tag_order() == Seq::<TagId>::empty(),
            r.edge_order() == Seq::<(TagId, TagId)>::empty(),
            forall|t: TagId| #[trigger] r.implied_order(t) == Seq::<TagId>::empty(),
    {
        ImplicationDag::new()
    }
}

impl ImplicationDag {
    pub closed spec fn view(&self) -> DagModel {
        DagModel {
            tags: tag_seq(graph_nodes(self.graph)).to_set(),
            edges: tag_edges(graph_nodes(self.graph), graph_edges(self.graph)).to_set(),
        }
    }

    /// The tags in index order: the order in which they were added, but that
    /// the last takes the place of one that is removed.
    pub closed spec fn tag_order(&self) -> Seq<TagId> {
        tag_seq(graph_nodes(self.graph))
    }

    /// The edges in index order.
    pub closed spec fn edge_order(&self) -> Seq<(TagId, TagId)> {
        tag_edges(graph_nodes(self.graph), graph_edges(self.graph))
    }

    /// The tags that `tag` directly implies, the one added last first.
    pub closed spec fn implied_order(&self, tag: TagId) -> Seq<TagId> {
        if self.nodes@.contains_key(tag) {
            tags_at(graph_nodes(self.graph), graph_out(self.graph)[self.nodes@[tag] as int])
        } else {
            Seq::empty()
        }
    }

    /// Each tag is one node, the index finds it, and no edge is doubled.
    pub closed spec fn structural(&self) -> bool {
        let n = graph_nodes(self.graph);
        let e = graph_edges(self.graph);
        &&& self.nodes.wf()
        &&& n.no_duplicates()
        &&& e.no_duplicates()
        &&& forall|t: TagId| #[trigger] self.nodes@.contains_key(t) <==> n.contains(t.id)
        &&& forall|t: TagId| #[trigger]
            self.nodes@.contains_key(t) ==> self.nodes@[t] < n.len() && n[self.nodes@[t] as int]
                == t.id
        &&& forall|k: int|
            0 <= k < e.len() ==> (#[trigger] e[k]).0 < n.len() && e[k].1 < n.len()
        &&& lists_match(graph_out(self.graph), e, n.len())
    }

    /// The graph is consistent and has no cycle.
    pub open spec fn wf(&self) -> bool {
        self.structural() && acyclic(self@.edges)
    }

    proof fn lemma_tags(&self)
        requires
            self.structural(),
        ensures
            self@.tags.finite(),
            self@.tags.len() == graph_nodes(self.graph).len(),
            forall|t: TagId| #[trigger]
                self@.tags.contains(t) <==> graph_nodes(self.graph).contains(t.id),
            forall|t: TagId| #[trigger] self@.tags.contains(t) <==> self.nodes@.contains_key(t),
            forall|i: int|
                0 <= i < graph_nodes(self.graph).len() ==> self.nodes@.contains_key(
                    TagId { id: #[trigger] graph_nodes(self.graph)[i] },
                ) && self.nodes@[TagId { id: graph_nodes(self.graph)[i] }] == i,
    {
        let n = graph_nodes(self.graph);
        let s = tag_seq(n);
        assert(s.no_duplicates()) by {
            assert forall|i: int, j: int| 0 <= i < s.len() && 0 <= j < s.len() && i != j implies s[i]
                != s[j] by {
                assert(n[i] != n[j]);
            }
        }
        s.unique_seq_to_set();
        assert forall|t: TagId| #[trigger] self@.tags.contains(t) <==> n.contains(t.id) by {
            if self@.tags.contains(t) {
                let i = choose|i: int| 0 <= i < s.len() && s[i] == t;
                assert(n[i] == t.id);
            }
            if n.contains(t.id) {
                let i = choose|i: int| 0 <= i < n.len() && n[i] == t.id;
                assert(s[i] == t);
            }
        }
        assert forall|i: int| 0 <= i < n.len() implies self.nodes@.contains_key(
            TagId { id: #[trigger] n[i] },
        ) && self.nodes@[TagId { id: n[i] }] == i by {
            let t = TagId { id: n[i] };
            assert(n.contains(t.id));
            assert(self.nodes@.contains_key(t));
            let k = self.nodes@[t] as int;
            assert(n[k] == n[i]);
        }
    }

    proof fn lemma_edges(&self)
        requires
            self.structural(),
        ensures
            self@.edges.finite(),
            self@.edges.len() == graph_edges(self.graph).len(),
            tag_edges(graph_nodes(self.graph), graph_edges(self.graph)).no_duplicates(),
            forall|a: usize, b: usize|
                a < graph_nodes(self.graph).len() && b < graph_nodes(self.graph).len() ==> (
                #[trigger] graph_edges(self.graph).contains((a, b)) <==> self@.edges.contains(
                    (tag_of(graph_nodes(self.graph), a), tag_of(graph_nodes(self.graph), b)),
                )),
            forall|x: TagId, y: TagId| #[trigger]
                self@.edges.contains((x, y)) ==> self.nodes@.contains_key(x)
                    && self.nodes@.contains_key(y) && graph_edges(self.graph).contains(
                    (self.nodes@[x], self.nodes@[y]),
                ),
            forall|x: TagId, y: TagId| #[trigger]
                self@.edges.contains((x, y)) ==> self@.tags.contains(x) && self@.tags.contains(y),
    {
        let n = graph_nodes(self.graph);
        let e = graph_edges(self.graph);
        let s = tag_edges(n, e);
        self.lemma_tags();
        assert(s.no_duplicates()) by {
            assert forall|i: int, j: int| 0 <= i < s.len() && 0 <= j < s.len() && i != j implies s[i]
                != s[j] by {
                assert(e[i] != e[j]);
                if s[i] == s[j] {
                    assert(n[e[i].0 as int] == n[e[j].0 as int]);
                    assert(n[e[i].1 as int] == n[e[j].1 as int]);
                }
            }
        }
        s.unique_seq_to_set();
        assert forall|a: usize, b: usize| a < n.len() && b < n.len() implies (#[trigger] e.contains(
            (a, b),
        ) <==> self@.edges.contains((tag_of(n, a), tag_of(n, b)))) by {
            if e.contains((a, b)) {
                let k = choose|k: int| 0 <= k < e.len() && e[k] == (a, b);
                assert(s[k] == (tag_of(n, a), tag_of(n, b)));
            }
            if self@.edges.contains((tag_of(n, a), tag_of(n, b))) {
                let k = choose|k: int| 0 <= k < s.len() && s[k] == (tag_of(n, a), tag_of(n, b));
                assert(n[e[k].0 as int] == n[a as int]);
                assert(n[e[k].1 as int] == n[b as int]);
                assert(e[k] == (a, b));
            }
        }
        assert forall|x: TagId, y: TagId| #[trigger] self@.edges.contains((x, y)) implies
            self.nodes@.contains_key(x) && self.nodes@.contains_key(y) && e.contains(
            (self.nodes@[x], self.nodes@[y]),
        ) by {
            let k = choose|k: int| 0 <= k < s.len() && s[k] == (x, y);
            assert(e[k].0 < n.len() && e[k].1 < n.len());
            assert(TagId { id: n[e[k].0 as int] } == x);
            assert(TagId { id: n[e[k].1 as int] } == y);
            assert(e[k] == (self.nodes@[x], self.nodes@[y]));
        }
    }

    /// A tag that is not implied is not among those that are.
    proof fn lemma_not_implied(&self, from: TagId, to: TagId)
        requires
            self.structural(),
            !self@.edges.contains((from, to)),
        ensures
            without(self.implied_order(from), to) == self.implied_order(from),
    {
        let n = graph_nodes(self.graph);
        let e = graph_edges(self.graph);
        let s = self.implied_order(from);
        self.lemma_tags();
        self.lemma_edges();
        if s.contains(to) {
            let i = self.nodes@[from];
            let l = graph_out(self.graph)[i as int];
            assert(list_matches(l, e, i));
            let k = s.index_of(to);
            assert(l.contains(l[k]));
            lemma_list_below(l, e, i, n.len());
            assert(tag_of(n, i) == from && tag_of(n, l[k]) == to);
            assert(e.contains((i, l[k])));
        }
        lemma_without(s, to);
    }

    /// The graph is finite, and both ends of every edge are tags.
    pub proof fn edges_join_tags(&self)
        requires
            self.wf(),
        ensures
            self@.tags.finite(),
            self@.edges.finite(),
            forall|x: TagId, y: TagId| #[trigger]
                self@.edges.contains((x, y)) ==> self@.tags.contains(x) && self@.tags.contains(y),
    {
        self.lemma_tags();
        self.lemma_edges();
    }

    /// Construct an empty graph.
    pub fn new() -> (r: Self)
        ensures
            r.wf(),
            r@.tags == Set::<TagId>::empty(),
            r@.edges == Set::<(TagId, TagId)>::empty(),
            r.tag_order() == Seq::<TagId>::empty(),
            r.edge_order() == Seq::<(TagId, TagId)>::empty(),
            forall|t: TagId| #[trigger] r.implied_order(t) == Seq::<TagId>::empty(),
    {
        let r = ImplicationDag { graph: graph_new(), nodes: OrdMap::new() };
        proof {
            assert(r.tag_order() =~= Seq::<TagId>::empty());
            assert(r.edge_order() =~= Seq::<(TagId, TagId)>::empty());
            assert(r@.tags =~= Set::<TagId>::empty());
            assert(r@.edges =~= Set::<(TagId, TagId)>::empty());
            assert forall|a: TagId| !#[trigger] on_cycle(r@.edges, a) by {
                if on_cycle(r@.edges, a) {
                    let p = choose|p: Seq<TagId>| #[trigger]
                        is_walk(r@.edges, p) && p.len() > 1 && p[0] == a && p.last() == a;
                    assert(steps(r@.edges, p, 0));
                }
            }
        }
        r
    }

    /// A copy of the graph.
    pub fn duplicate(&self) -> (r: Self)
        requires
            self.wf(),
        ensures
            r.wf(),
            r@ == self@,
            r.tag_order() == self.tag_order(),
            r.edge_order() == self.edge_order(),
            forall|t: TagId| #[trigger] r.implied_order(t) == self.implied_order(t),
    {
        let weights = graph_weights(&self.graph);
        let mut nodes: OrdMap<TagId, usize> = OrdMap::new();
        let mut i: usize = 0;
        proof {
            self.lemma_tags();
        }
        while i < weights.len()
            invariant
                i <= weights@.len(),
                weights@ == graph_nodes(self.graph),
                weights@.no_duplicates(),
                nodes.wf(),
                forall|t: TagId| #[trigger]
                    nodes@.contains_key(t) <==> weights@.take(i as int).contains(t.id),
                forall|t: TagId| #[trigger]
                    nodes@.contains_key(t) ==> nodes@[t] < i && weights@[nodes@[t] as int] == t.id,
            decreases weights@.len() - i,
        {
            let ghost before = nodes@;
            let t = TagId { id: weights[i] };
            nodes.insert(t, i);
            proof {
                let a = weights@.take(i as int);
                let b = weights@.take(i + 1);
                assert(b =~= a.push(weights@[i as int]));
                assert forall|x: TagId| #[trigger] nodes@.contains_key(x) <==> b.contains(x.id) by {
                    if b.contains(x.id) {
                        let k = choose|k: int| 0 <= k < b.len() && b[k] == x.id;
                        if k < i {
                            assert(a[k] == x.id);
                        }
                    }
                    if before.contains_key(x) {
                        let k = choose|k: int| 0 <= k < a.len() && a[k] == x.id;
                        assert(b[k] == x.id);
                    }
                    if x == t {
                        assert(b[i as int] == x.id);
                    }
                }
            }
            i = i + 1;
        }
        proof {
            assert(weights@.take(i as int) =~= weights@);
        }
        ImplicationDag { graph: graph_clone(&self.graph), nodes }
    }

    /// Add a tag node if absent. Idempotent. At most `u32::MAX` nodes fit.
    pub fn add_tag(&mut self, tag: TagId)
        requires
            old(self).wf(),
            old(self)@.tags.contains(tag) || old(self)@.tags.len() < u32::MAX,
        ensures
            final(self).wf(),
            final(self)@.tags == old(self)@.tags.insert(tag),
            final(self)@.edges == old(self)@.edges,
            final(self).tag_order() == if old(self)@.tags.contains(tag) {
                old(self).tag_order()
            } else {
                old(self).tag_order().push(tag)
            },
            final(self).edge_order() == old(self).edge_order(),
            forall|t: TagId| #[trigger]
                final(self).implied_order(t) == old(self).implied_order(t),
    {
        proof {
            self.lemma_tags();
            self.lemma_edges();
        }
        if !self.nodes.contains_key(&tag) {
            let ghost n = graph_nodes(self.graph);
            let ghost e = graph_edges(self.graph);
            let ghost before = *self;
            let idx = graph_add_node(&mut self.graph, tag.raw());
            self.nodes.insert(tag, idx);
            proof {
                let m = graph_nodes(self.graph);
                assert(m == n.push(tag.id));
                assert(!n.contains(tag.id));
                assert(m.no_duplicates());
                assert forall|t: TagId| #[trigger] self.nodes@.contains_key(t) <==> m.contains(t.id) by {
                    if m.contains(t.id) {
                        let k = choose|k: int| 0 <= k < m.len() && m[k] == t.id;
                        if k < n.len() {
                            assert(n[k] == t.id);
                            assert(n.contains(t.id));
                        }
                    }
                    if before.nodes@.contains_key(t) {
                        let k = choose|k: int| 0 <= k < n.len() && n[k] == t.id;
                        assert(m[k] == t.id);
                    }
                    if t == tag {
                        assert(m[n.len() as int] == t.id);
                    }
                }
                assert(tag_edges(m, e) =~= tag_edges(n, e));
                assert(tag_seq(m) =~= tag_seq(n).push(tag));
                let lists = graph_out(before.graph);
                assert forall|i: usize| i < m.len() implies list_matches(
                    #[trigger] graph_out(self.graph)[i as int],
                    e,
                    i,
                ) by {
                    if i < n.len() {
                        assert(list_matches(lists[i as int], e, i));
                    } else {
                        assert forall|x: usize| !e.contains((i, x)) by {
                            if e.contains((i, x)) {
                                let k = e.index_of((i, x));
                                assert(e[k].0 < n.len());
                            }
                        }
                    }
                }
                assert forall|t: TagId| #[trigger] self.implied_order(t) == before.implied_order(
                    t,
                ) by {
                    if before.nodes@.contains_key(t) {
                        let i = before.nodes@[t];
                        lemma_list_below(lists[i as int], e, i, n.len());
                        assert(tags_at(m, lists[i as int]) =~= tags_at(n, lists[i as int]));
                    } else if t == tag {
                        assert(tags_at(m, Seq::empty()) =~= Seq::<TagId>::empty());
                    }
                }
                assert(self.structural());
                self.lemma_tags();
                assert(self@.tags =~= before@.tags.insert(tag)) by {
                    assert forall|t: TagId| self@.tags.contains(t) <==> before@.tags.insert(
                        tag,
                    ).contains(t) by {
                        assert(self@.tags.contains(t) <==> self.nodes@.contains_key(t));
                        assert(before@.tags.contains(t) <==> before.nodes@.contains_key(t));
                    }
                }
            }
        } else {
            proof {
                assert(self@.tags =~= self@.tags.insert(tag));
            }
        }
    }

    /// Whether `tag` is a node of the graph.
    pub fn contains(&self, tag: TagId) -> (r: bool)
        requires
            self.wf(),
        ensures
            r == self@.tags.contains(tag),
    {
        proof {
            self.lemma_tags();
        }
        self.nodes.contains_key(&tag)
    }

    /// Add the edge `from -> to`. Both ends must already be nodes. An edge
    /// that is there already is left alone. An edge whose target already
    /// leads to its source would close a cycle and is refused. At most
    /// `u32::MAX` edges fit.
    pub fn add_implication(&mut self, from: TagId, to: TagId) -> (r: Result<(), OntologyError>)
        requires
            old(self).wf(),
            old(self)@.edges.len() < u32::MAX || old(self)@.edges.contains((from, to)) || !old(
                self,
            )@.tags.contains(from) || !old(self)@.tags.contains(to),
        ensures
            final(self).wf(),
            final(self)@.tags == old(self)@.tags,
            final(self).tag_order() == old(self).tag_order(),
            match r {
                Ok(_) => {
                    &&& old(self)@.tags.contains(from)
                    &&& old(self)@.tags.contains(to)
                    &&& !reach(old(self)@.edges, to, from)
                    &&& final(self)@.edges == old(self)@.edges.insert((from, to))
                    &&& final(self).edge_order() == if old(self)@.edges.contains((from, to)) {
                        old(self).edge_order()
                    } else {
                        old(self).edge_order().push((from, to))
                    }
                    &&& forall|t: TagId| #[trigger]
                        final(self).implied_order(t) == if t == from && !old(self)@.edges.contains(
                            (from, to),
                        ) {
                            seq![to] + old(self).implied_order(t)
                        } else {
                            old(self).implied_order(t)
                        }
                },
                Err(e) => {
                    &&& final(self)@ == old(self)@
                    &&& forall|t: TagId| #[trigger]
                        final(self).implied_order(t) == old(self).implied_order(t)
                    &&& final(self).edge_order() == old(self).edge_order()
                    &&& edge_refused(old(self)@, from, to, e)
                },
            },
    {
        proof {
            self.lemma_tags();
            self.lemma_edges();
        }
        let from_idx = match self.nodes.get(&from) {
            Some(i) => *i,
            None => {
                return Err(OntologyError::TagNotFound(from));
            },
        };
        let to_idx = match self.nodes.get(&to) {
            Some(i) => *i,
            None => {
                return Err(OntologyError::TagNotFound(to));
            },
        };
        let ghost n = graph_nodes(self.graph);
        let ghost e = graph_edges(self.graph);
        let ghost before = *self;
        if graph_find_edge(&self.graph, from_idx, to_idx).is_some() {
            proof {
                assert(e.contains((from_idx, to_idx)));
                assert(self@.edges.contains((from, to)));
                assert(self@.edges =~= self@.edges.insert((from, to)));
                lemma_new_edge_cycle(self@.edges, from, to);
            }
            return Ok(());
        }
        proof {
            assert(!e.contains((from_idx, to_idx)));
            if self@.edges.contains((from, to)) {
                let s = tag_edges(n, e);
                let k = choose|k: int| 0 <= k < s.len() && s[k] == (from, to);
                assert(tag_of(n, e[k].0) == from && tag_of(n, e[k].1) == to);
                assert(n[e[k].0 as int] == n[from_idx as int]);
                assert(n[e[k].1 as int] == n[to_idx as int]);
                assert(e[k] == (from_idx, to_idx));
            }
            lemma_new_edge_cycle(before@.edges, from, to);
        }
        let edge = graph_add_edge(&mut self.graph, from_idx, to_idx);
        proof {
            let f = graph_edges(self.graph);
            assert(f == e.push((from_idx, to_idx)));
            assert(f.no_duplicates()) by {
                assert forall|i: int, j: int| 0 <= i < f.len() && 0 <= j < f.len() && i != j implies
                    f[i] != f[j] by {
                    if i == e.len() && f[i] == f[j] {
                        assert(e[j] == (from_idx, to_idx));
                    }
                    if j == e.len() && f[i] == f[j] {
                        assert(e[i] == (from_idx, to_idx));
                    }
                }
            }
            let lists = graph_out(before.graph);
            let longer = seq![to_idx] + lists[from_idx as int];
            assert forall|i: usize| i < n.len() implies list_matches(
                #[trigger] graph_out(self.graph)[i as int],
                f,
                i,
            ) by {
                let l = lists[i as int];
                assert(list_matches(l, e, i));
                assert forall|x: usize| #[trigger] f.contains((i, x)) <==> e.contains((i, x)) || (
                i == from_idx && x == to_idx) by {
                    if e.contains((i, x)) {
                        let k = e.index_of((i, x));
                        assert(f[k] == (i, x));
                    }
                    assert(f[e.len() as int] == (from_idx, to_idx));
                }
                if i == from_idx {
                    lemma_front(to_idx, l);
                }
            }
            assert(self.structural());
            assert forall|t: TagId| #[trigger] self.implied_order(t) == if t == from {
                seq![to] + before.implied_order(t)
            } else {
                before.implied_order(t)
            } by {
                if t == from {
                    assert(tags_at(n, longer) =~= seq![to] + tags_at(n, lists[from_idx as int]));
                } else if self.nodes@.contains_key(t) {
                    assert(n[self.nodes@[t] as int] == t.id);
                    assert(n[from_idx as int] == from.id);
                    assert(self.nodes@[t] != from_idx);
                }
            }
            let s = tag_edges(n, e);
            let t = tag_edges(n, f);
            assert(t =~= s.push((from, to)));
            assert(t.to_set() =~= s.to_set().insert((from, to))) by {
                assert forall|x: (TagId, TagId)| t.to_set().contains(x) <==> s.to_set().insert(
                    (from, to),
                ).contains(x) by {
                    if t.contains(x) {
                        let k = choose|k: int| 0 <= k < t.len() && t[k] == x;
                        if k < s.len() {
                            assert(s[k] == x);
                        }
                    }
                    if s.contains(x) {
                        let k = choose|k: int| 0 <= k < s.len() && s[k] == x;
                        assert(t[k] == x);
                    }
                    assert(t[s.len() as int] == (from, to));
                }
            }
        }
        let ghost mid = *self;
        match self.cycle_check() {
            Ok(_) => Ok(()),
            Err(err) => {
                graph_remove_edge(&mut self.graph, edge);
                proof {
                    assert(graph_edges(self.graph) =~= e);
                    assert(self@ == before@);
                    let lists = graph_out(before.graph);
                    let l = lists[from_idx as int];
                    assert(list_matches(l, e, from_idx));
                    lemma_without_front(to_idx, l);
                    assert(graph_out(self.graph) =~= lists);
                }
                Err(err)
            },
        }
    }

    /// Remove an implication edge if present.
    pub fn remove_implication(&mut self, from: TagId, to: TagId)
        requires
            old(self).wf(),
        ensures
            final(self).wf(),
            final(self)@.tags == old(self)@.tags,
            final(self)@.edges == old(self)@.edges.remove((from, to)),
            final(self).tag_order() == old(self).tag_order(),
            final(self).edge_order() == swap_removed(old(self).edge_order(), (from, to)),
            forall|t: TagId| #[trigger]
                final(self).implied_order(t) == if t == from {
                    without(old(self).implied_order(t), to)
                } else {
                    old(self).implied_order(t)
                },
    {
        proof {
            self.lemma_tags();
            self.lemma_edges();
        }
        let ghost n = graph_nodes(self.graph);
        let ghost e = graph_edges(self.graph);
        let ghost before = *self;
        let from_idx = match self.nodes.get(&from) {
            Some(i) => *i,
            None => {
                proof {
                    assert(!self@.edges.contains((from, to)));
                    assert(self@.edges =~= self@.edges.remove((from, to)));
                    self.lemma_not_implied(from, to);
                }
                return ;
            },
        };
        let to_idx = match self.nodes.get(&to) {
            Some(i) => *i,
            None => {
                proof {
                    assert(!self@.edges.contains((from, to)));
                    assert(self@.edges =~= self@.edges.remove((from, to)));
                    self.lemma_not_implied(from, to);
                }
                return ;
            },
        };
        match graph_find_edge(&self.graph, from_idx, to_idx) {
            Some(k) => {
                graph_remove_edge(&mut self.graph, k);
                proof {
                    let f = graph_edges(self.graph);
                    lemma_swap_remove(e, k as int);
                    assert(before.edge_order()[k as int] == (from, to));
                    lemma_swap_removed(before.edge_order(), k as int);
                    assert(self.edge_order() =~= before.edge_order().update(
                        k as int,
                        before.edge_order().last(),
                    ).drop_last());
                    let lists = graph_out(before.graph);
                    let l = lists[from_idx as int];
                    assert(list_matches(l, e, from_idx));
                    lemma_without(l, to_idx);
                    assert forall|i: usize| i < n.len() implies list_matches(
                        #[trigger] graph_out(self.graph)[i as int],
                        f,
                        i,
                    ) by {
                        assert(list_matches(lists[i as int], e, i));
                        assert forall|x: usize| #[trigger] f.contains((i, x)) <==> e.contains(
                            (i, x),
                        ) && !(i == from_idx && x == to_idx) by {}
                    }
                    assert(self.structural());
                    assert forall|t: TagId| #[trigger] self.implied_order(t) == if t == from {
                        without(before.implied_order(t), to)
                    } else {
                        before.implied_order(t)
                    } by {
                        if t == from {
                            lemma_list_below(l, e, from_idx, n.len());
                            lemma_tags_without(n, l, to_idx);
                        } else if self.nodes@.contains_key(t) {
                            assert(n[self.nodes@[t] as int] == t.id);
                            assert(n[from_idx as int] == from.id);
                            assert(self.nodes@[t] != from_idx);
                        }
                    }
                    self.lemma_edges();
                    assert(self@.edges =~= before@.edges.remove((from, to))) by {
                        assert forall|x: (TagId, TagId)| self@.edges.contains(x) <==>
                            before@.edges.remove((from, to)).contains(x) by {
                            let (a, b) = x;
                            if self@.edges.contains((a, b)) {
                                assert(f.contains((self.nodes@[a], self.nodes@[b])));
                            }
                            if before@.edges.contains((a, b)) {
                                assert(e.contains((self.nodes@[a], self.nodes@[b])));
                                if (a, b) != (from, to) {
                                    assert(n[self.nodes@[a] as int] == a.id);
                                    assert(n[self.nodes@[b] as int] == b.id);
                                    assert(e[k as int] == (from_idx, to_idx));
                                    assert(f.contains((self.nodes@[a], self.nodes@[b])));
                                    assert(tag_of(n, self.nodes@[a]) == a);
                                    assert(tag_of(n, self.nodes@[b]) == b);
                                }
                            }
                        }
                    }
                    lemma_acyclic_subset(self@.edges, before@.edges);
                }
            },
            None => {
                proof {
                    assert(!self@.edges.contains((from, to)));
                    assert(self@.edges =~= self@.edges.remove((from, to)));
                    self.lemma_not_implied(from, to);
                }
            },
        }
    }

    /// Remove a tag node and all edges that touch it. Of the index order of the
    /// edges that remain nothing is said.
    pub fn remove_tag(&mut self, tag: TagId)
        requires
            old(self).wf(),
        ensures
            final(self).wf(),
            final(self)@.tags == old(self)@.tags.remove(tag),
            final(self)@.edges == edges_not_touching(old(self)@.edges, tag),
            final(self).tag_order() == swap_removed(old(self).tag_order(), tag),
            forall|t: TagId| #[trigger]
                final(self).implied_order(t) == if t == tag {
                    Seq::empty()
                } else {
                    without(old(self).implied_order(t), tag)
                },
    {
        proof {
            self.lemma_tags();
            self.lemma_edges();
        }
        let ghost n = graph_nodes(self.graph);
        let ghost e = graph_edges(self.graph);
        let ghost before = *self;
        match self.nodes.remove(&tag) {
            Some(idx) => {
                let last: usize = graph_node_count(&self.graph) - 1;
                let last_tag = TagId { id: graph_weight(&self.graph, last) };
                graph_remove_node(&mut self.graph, idx);
                if last != idx {
                    self.nodes.insert(last_tag, idx);
                }
                proof {
                    let m = graph_nodes(self.graph);
                    let f = graph_edges(self.graph);
                    let w = edges_without(e, idx, n.len());
                    assert forall|x: (usize, usize)| e.contains(x) implies x.0 < n.len() && x.1
                        < n.len() by {}
                    lemma_edges_without(e, idx, n.len());
                    lemma_same_multiset(f, w);
                    lemma_swap_remove(n, idx as int);
                    assert(before.tag_order()[idx as int] == tag);
                    assert(before.tag_order().no_duplicates()) by {
                        assert forall|i: int, j: int|
                            0 <= i < n.len() && 0 <= j < n.len() && i != j implies before.tag_order()[i]
                            != before.tag_order()[j] by {
                            assert(n[i] != n[j]);
                        }
                    }
                    lemma_swap_removed(before.tag_order(), idx as int);
                    assert(self.tag_order() =~= before.tag_order().update(
                        idx as int,
                        before.tag_order().last(),
                    ).drop_last());
                    assert forall|t: TagId| #[trigger] self.nodes@.contains_key(t) <==> m.contains(
                        t.id,
                    ) by {
                        assert(before.nodes@.contains_key(t) <==> n.contains(t.id));
                        assert(last_tag.id == n[n.len() - 1]);
                        assert(n.contains(last_tag.id));
                    }
                    assert forall|t: TagId| #[trigger] self.nodes@.contains_key(t) implies
                        self.nodes@[t] < m.len() && m[self.nodes@[t] as int] == t.id by {
                        if t == last_tag && last != idx {
                        } else {
                            let k = before.nodes@[t];
                            assert(n[k as int] == t.id);
                            if k == last {
                                assert(t == last_tag);
                            }
                        }
                    }
                    assert forall|k: int| 0 <= k < f.len() implies (#[trigger] f[k]).0 < m.len()
                        && f[k].1 < m.len() by {
                        assert(f.contains(f[k]));
                        assert(w.contains(f[k]));
                    }
                    let lists = graph_out(before.graph);
                    assert forall|i: usize| i < m.len() implies list_matches(
                        #[trigger] graph_out(self.graph)[i as int],
                        f,
                        i,
                    ) by {
                        let u = if i == idx {
                            last
                        } else {
                            i
                        };
                        let l = lists[u as int];
                        assert(list_matches(l, e, u));
                        assert(graph_out(self.graph)[i as int] == list_without(l, idx, n.len()));
                        lemma_list_below(l, e, u, n.len());
                        lemma_list_without(l, idx, n.len());
                        assert(i == renumbered(u, idx, n.len()));
                        let g = list_without(l, idx, n.len());
                        assert forall|y: usize| #[trigger] g.contains(y) <==> f.contains((i, y)) by {
                            if g.contains(y) {
                                let v = choose|v: usize| #[trigger]
                                    l.contains(v) && v != idx && y == renumbered(v, idx, n.len());
                                assert(e.contains((u, v)));
                                assert(w.contains((i, y)));
                            }
                            if f.contains((i, y)) {
                                assert(w.contains((i, y)));
                                let (a, v) = choose|a: usize, v: usize| #[trigger]
                                    e.contains((a, v)) && a != idx && v != idx && i == renumbered(
                                        a,
                                        idx,
                                        n.len(),
                                    ) && y == renumbered(v, idx, n.len());
                                let k = e.index_of((a, v));
                                assert(e[k].0 < n.len() && e[k].1 < n.len());
                                assert(a == u);
                                assert(l.contains(v));
                            }
                        }
                    }
                    assert(self.structural());
                    assert forall|t: TagId| #[trigger] self.implied_order(t) == if t == tag {
                        Seq::empty()
                    } else {
                        without(before.implied_order(t), tag)
                    } by {
                        assert(n[idx as int] == tag.id);
                        if t != tag && before.nodes@.contains_key(t) {
                            let u = before.nodes@[t];
                            assert(n[u as int] == t.id);
                            assert(u != idx);
                            let i = self.nodes@[t];
                            assert(self.nodes@.contains_key(t));
                            assert(m[i as int] == t.id);
                            if u == last {
                                assert(t == last_tag);
                            } else {
                                assert(t != last_tag) by {
                                    assert(n[u as int] != n[last as int]);
                                }
                            }
                            assert(i == renumbered(u, idx, n.len()));
                            let l = lists[u as int];
                            assert(list_matches(l, e, u));
                            lemma_list_below(l, e, u, n.len());
                            lemma_tags_relocated(n, l, idx);
                            assert(graph_out(self.graph)[i as int] == list_without(
                                l,
                                idx,
                                n.len(),
                            ));
                        }
                    }
                    self.lemma_tags();
                    self.lemma_edges();
                    assert(self@.tags =~= before@.tags.remove(tag)) by {
                        assert forall|t: TagId| self@.tags.contains(t) <==> before@.tags.remove(
                            tag,
                        ).contains(t) by {
                            assert(self@.tags.contains(t) <==> m.contains(t.id));
                            assert(before@.tags.contains(t) <==> n.contains(t.id));
                        }
                    }
                    let g = edges_not_touching(before@.edges, tag);
                    assert(self@.edges =~= g) by {
                        assert forall|x: (TagId, TagId)| self@.edges.contains(x) <==> g.contains(x) by {
                            let (a, b) = x;
                            if self@.edges.contains((a, b)) {
                                let ia = self.nodes@[a];
                                let ib = self.nodes@[b];
                                assert(f.contains((ia, ib)));
                                assert(w.contains((ia, ib)));
                                let (u, v) = choose|u: usize, v: usize| #[trigger]
                                    e.contains((u, v)) && u != idx && v != idx && ia == renumbered(
                                        u,
                                        idx,
                                        n.len(),
                                    ) && ib == renumbered(v, idx, n.len());
                                assert(n[u as int] == m[ia as int]);
                                assert(n[v as int] == m[ib as int]);
                                assert(tag_of(n, u) == a && tag_of(n, v) == b);
                                assert(before@.edges.contains((tag_of(n, u), tag_of(n, v))));
                                assert(n[idx as int] == tag.id);
                            }
                            if g.contains((a, b)) {
                                let u = before.nodes@[a];
                                let v = before.nodes@[b];
                                assert(e.contains((u, v)));
                                assert(n[u as int] == a.id && n[v as int] == b.id);
                                assert(u != idx && v != idx);
                                let ia = renumbered(u, idx, n.len());
                                let ib = renumbered(v, idx, n.len());
                                assert(w.contains((ia, ib)));
                                assert(f.contains((ia, ib)));
                                assert(m[ia as int] == a.id && m[ib as int] == b.id);
                                assert(tag_of(m, ia) == a && tag_of(m, ib) == b);
                            }
                        }
                    }
                    lemma_acyclic_subset(self@.edges, before@.edges);
                }
            },
            None => {
                proof {
                    assert(self@.tags =~= self@.tags.remove(tag));
                    assert(self@.edges =~= edges_not_touching(self@.edges, tag));
                    assert forall|t: TagId| #[trigger] self.implied_order(t) == without(
                        self.implied_order(t),
                        tag,
                    ) by {
                        assert(!self@.edges.contains((t, tag)));
                        self.lemma_not_implied(t, tag);
                    }
                }
            },
        }
    }

    /// Whether `tag` directly or transitively implies `ancestor`. Every tag
    /// of the graph implies itself.
    pub fn is_a(&self, tag: TagId, ancestor: TagId) -> (r: bool)
        requires
            self.wf(),
        ensures
            r == implied(self@, tag, ancestor),
    {
        proof {
            self.lemma_tags();
            self.lemma_edges();
        }
        let mut start: Vec<TagId> = Vec::new();
        start.push(tag);
        let found = self.reachable(&start);
        proof {
            assert(start@[0] == tag);
            assert(reach_set(self@, start@).contains(ancestor) == implied(self@, tag, ancestor)) by {
                if implied(self@, tag, ancestor) {
                    assert(start@.contains(tag));
                }
            }
        }
        found.contains_key(&ancestor)
    }

    /// The tags that the nodes among `start` lead to, themselves among them.
    fn reachable(&self, start: &Vec<TagId>) -> (r: OrdMap<TagId, ()>)
        requires
            self.wf(),
        ensures
            r.wf(),
            r@.dom() == reach_set(self@, start@),
    {
        proof {
            self.lemma_tags();
            self.lemma_edges();
        }
        let ghost d = self@;
        let mut found: OrdMap<TagId, ()> = OrdMap::new();
        let mut queue: Vec<TagId> = Vec::new();
        let mut i: usize = 0;
        while i < start.len()
            invariant
                self.wf(),
                d == self@,
                i <= start@.len(),
                found.wf(),
                queue@.no_duplicates(),
                forall|t: TagId| #[trigger] found@.contains_key(t) <==> queue@.contains(t),
                forall|t: TagId| #[trigger]
                    queue@.contains(t) ==> d.tags.contains(t) && reach_set(d, start@).contains(t),
                forall|j: int|
                    0 <= j < i && d.tags.contains(#[trigger] start@[j]) ==> queue@.contains(start@[j]),
            decreases start@.len() - i,
        {
            let t = start[i];
            if self.contains(t) && !found.contains_key(&t) {
                let ghost q = queue@;
                found.insert(t, ());
                queue.push(t);
                proof {
                    lemma_reach_self(d.edges, t);
                    assert(start@.contains(t));
                    assert(implied(d, t, t));
                    lemma_queue_push(q, t);
                }
            }
            i = i + 1;
        }
        let mut head: usize = 0;
        while head < queue.len()
            invariant
                self.wf(),
                d == self@,
                d.tags.finite(),
                head <= queue@.len(),
                found.wf(),
                queue@.no_duplicates(),
                forall|x: TagId, y: TagId| #[trigger]
                    d.edges.contains((x, y)) ==> d.tags.contains(x) && d.tags.contains(y),
                forall|t: TagId| #[trigger] found@.contains_key(t) <==> queue@.contains(t),
                forall|t: TagId| #[trigger]
                    queue@.contains(t) ==> d.tags.contains(t) && reach_set(d, start@).contains(t),
                forall|j: int|
                    0 <= j < start@.len() && d.tags.contains(#[trigger] start@[j])
                        ==> queue@.contains(start@[j]),
                forall|j: int, y: TagId|
                    0 <= j < head && #[trigger] d.edges.contains((queue@[j], y)) ==> queue@.contains(
                        y,
                    ),
            decreases d.tags.len() - head,
        {
            let node = queue[head];
            proof {
                lemma_queue_bound(queue@, d.tags);
                assert(queue@.contains(node));
            }
            let next = self.direct_implies(node);
            let mut k: usize = 0;
            while k < next.len()
                invariant
                    self.wf(),
                    d == self@,
                    k <= next@.len(),
                    head < queue@.len(),
                    queue@[head as int] == node,
                    found.wf(),
                    queue@.no_duplicates(),
                    d.tags.contains(node),
                    reach_set(d, start@).contains(node),
                    forall|x: TagId, y: TagId| #[trigger]
                        d.edges.contains((x, y)) ==> d.tags.contains(x) && d.tags.contains(y),
                    forall|y: TagId| #[trigger]
                        next@.contains(y) <==> d.edges.contains((node, y)),
                    forall|t: TagId| #[trigger] found@.contains_key(t) <==> queue@.contains(t),
                    forall|t: TagId| #[trigger]
                        queue@.contains(t) ==> d.tags.contains(t) && reach_set(
                            d,
                            start@,
                        ).contains(t),
                    forall|j: int|
                        0 <= j < start@.len() && d.tags.contains(#[trigger] start@[j])
                            ==> queue@.contains(start@[j]),
                    forall|j: int, y: TagId|
                        0 <= j < head && #[trigger] d.edges.contains((queue@[j], y))
                            ==> queue@.contains(y),
                    forall|j: int| 0 <= j < k ==> queue@.contains(#[trigger] next@[j]),
                decreases next@.len() - k,
            {
                let t = next[k];
                proof {
                    assert(next@.contains(t));
                    assert(d.edges.contains((node, t)));
                }
                let ghost q = queue@;
                if !found.contains_key(&t) {
                    found.insert(t, ());
                    queue.push(t);
                    proof {
                        lemma_queue_push(q, t);
                        let s = choose|s: TagId| #[trigger]
                            start@.contains(s) && implied(d, s, node);
                        lemma_reach_edge(d.edges, node, t);
                        lemma_reach_join(d.edges, s, node, t);
                        assert(implied(d, s, t));
                    }
                }
                proof {
                    assert forall|j: int, y: TagId|
                        0 <= j < head && #[trigger] d.edges.contains((queue@[j], y)) implies
                        queue@.contains(y) by {
                        assert(queue@[j] == q[j]);
                        assert(q.contains(y));
                    }
                }
                k = k + 1;
            }
            proof {
                assert forall|j: int, y: TagId|
                    0 <= j < head + 1 && #[trigger] d.edges.contains((queue@[j], y)) implies
                    queue@.contains(y) by {
                    if j == head {
                        assert(next@.contains(y));
                    }
                }
            }
            head = head + 1;
        }
        proof {
            let closed = queue@.to_set();
            assert forall|x: TagId, y: TagId|
                closed.contains(x) && #[trigger] d.edges.contains((x, y)) implies closed.contains(
                y,
            ) by {
                let j = choose|j: int| 0 <= j < queue@.len() && queue@[j] == x;
                assert(d.edges.contains((queue@[j], y)));
            }
            assert(found@.dom() =~= reach_set(d, start@)) by {
                assert forall|t: TagId| found@.dom().contains(t) <==> reach_set(
                    d,
                    start@,
                ).contains(t) by {
                    if found@.dom().contains(t) {
                        assert(queue@.contains(t));
                    }
                    if reach_set(d, start@).contains(t) {
                        let s = choose|s: TagId| #[trigger] start@.contains(s) && implied(d, s, t);
                        let j = choose|j: int| 0 <= j < start@.len() && start@[j] == s;
                        assert(queue@.contains(start@[j]));
                        lemma_closed_reach(d.edges, closed, s, t);
                        assert(queue@.contains(t));
                    }
                }
            }
        }
        found
    }

    /// The tags that `tag` directly implies, each once, the one added last first.
    pub fn direct_implies(&self, tag: TagId) -> (r: Vec<TagId>)
        requires
            self.wf(),
        ensures
            r@ == self.implied_order(tag),
            r@.no_duplicates(),
            forall|t: TagId| #[trigger] r@.contains(t) <==> self@.edges.contains((tag, t)),
    {
        proof {
            self.lemma_tags();
            self.lemma_edges();
        }
        let ghost n = graph_nodes(self.graph);
        let ghost e = graph_edges(self.graph);
        let mut out: Vec<TagId> = Vec::new();
        let idx = match self.nodes.get(&tag) {
            Some(i) => *i,
            None => {
                return out;
            },
        };
        let next = graph_successors(&self.graph, idx);
        proof {
            lemma_targets(e, idx);
            lemma_same_multiset(next@, targets(e, idx));
            assert forall|k: int| 0 <= k < next@.len() implies #[trigger] next@[k] < n.len() by {
                assert(next@.contains(next@[k]));
                assert(targets(e, idx).contains(next@[k]));
                assert(e.contains((idx, next@[k])));
            }
        }
        let mut k: usize = 0;
        while k < next.len()
            invariant
                k <= next@.len(),
                n == graph_nodes(self.graph),
                forall|j: int| 0 <= j < next@.len() ==> #[trigger] next@[j] < n.len(),
                out@.len() == k,
                forall|j: int| 0 <= j < k ==> #[trigger] out@[j] == tag_of(n, next@[j]),
            decreases next@.len() - k,
        {
            out.push(TagId { id: graph_weight(&self.graph, next[k]) });
            k = k + 1;
        }
        proof {
            assert(out@ =~= self.implied_order(tag));
            assert(out@.no_duplicates()) by {
                assert forall|i: int, j: int| 0 <= i < out@.len() && 0 <= j < out@.len() && i
                    != j implies out@[i] != out@[j] by {
                    assert(next@[i] != next@[j]);
                    assert(n[next@[i] as int] != n[next@[j] as int]);
                }
            }
            assert forall|t: TagId| #[trigger] out@.contains(t) <==> self@.edges.contains(
                (tag, t),
            ) by {
                if out@.contains(t) {
                    let j = choose|j: int| 0 <= j < out@.len() && out@[j] == t;
                    assert(next@.contains(next@[j]));
                    assert(e.contains((idx, next@[j])));
                    assert(tag_of(n, idx) == tag);
                }
                if self@.edges.contains((tag, t)) {
                    let v = self.nodes@[t];
                    assert(e.contains((idx, v)));
                    assert(next@.contains(v));
                    let j = choose|j: int| 0 <= j < next@.len() && next@[j] == v;
                    assert(out@[j] == t);
                }
            }
        }
        out
    }

    /// The materialised closure of a set of direct tags: the direct tags and
    /// every tag that these lead to, in ascending order.
    pub fn closure(&self, direct_tags: &Vec<TagId>) -> (r: Vec<TagId>)
        requires
            self.wf(),
        ensures
            tags_ascend(r@),
            r@.to_set() == closure_set(self@, direct_tags@),
    {
        let mut found = self.reachable(direct_tags);
        let ghost reached = found@.dom();
        let mut k: usize = 0;
        while k < direct_tags.len()
            invariant
                k <= direct_tags@.len(),
                found.wf(),
                forall|t: TagId| #[trigger]
                    found@.contains_key(t) <==> reached.contains(t) || direct_tags@.take(
                        k as int,
                    ).contains(t),
            decreases direct_tags@.len() - k,
        {
            proof {
                lemma_take_contains(direct_tags@, k as int);
            }
            found.insert(direct_tags[k], ());
            k = k + 1;
        }
        proof {
            assert(direct_tags@.take(k as int) =~= direct_tags@);
            assert(found@.dom() =~= closure_set(self@, direct_tags@));
        }
        let mut out: Vec<TagId> = Vec::new();
        let mut i: usize = 0;
        let total = found.len();
        while i < total
            invariant
                i <= total,
                total == found.items().len(),
                out@.len() == i,
                forall|j: int| 0 <= j < i ==> #[trigger] out@[j] == found.items()[j].0,
            decreases total - i,
        {
            out.push(*found.key_at(i));
            i = i + 1;
        }
        proof {
            let s = found.items();
            lemma_items_map::<TagId, ()>(s);
            assert forall|i: int, j: int| 0 <= i < j < out@.len() implies (#[trigger] out@[i]).id < (
            #[trigger] out@[j]).id by {
                assert(TagId::precedes(s[i].0, s[j].0));
            }
            assert(out@.to_set() =~= found@.dom()) by {
                assert forall|t: TagId| out@.to_set().contains(t) <==> found@.dom().contains(t) by {
                    if out@.contains(t) {
                        let j = choose|j: int| 0 <= j < out@.len() && out@[j] == t;
                        assert(found@.contains_key(s[j].0));
                    }
                    if found@.dom().contains(t) {
                        let j = choose|j: int| 0 <= j < s.len() && #[trigger] s[j].0 == t;
                        assert(out@[j] == t);
                    }
                }
            }
        }
        out
    }

    /// Whether the graph has no cycle. Where it has one, the error names an
    /// edge into a node on a cycle.
    pub fn cycle_check(&self) -> (r: Result<(), OntologyError>)
        requires
            self.structural(),
        ensures
            match r {
                Ok(_) => acyclic(self@.edges),
                Err(e) => cycle_error(self@.edges, e),
            },
    {
        match graph_toposort(&self.graph) {
            Ok(order) => {
                proof {
                    self.lemma_topological(order@);
                }
                Ok(())
            },
            Err(n) => Err(self.cycle_at(n)),
        }
    }

    /// The error for a cycle through node `n`.
    fn cycle_at(&self, n: usize) -> (r: OntologyError)
        requires
            self.structural(),
            n < graph_nodes(self.graph).len(),
            on_cycle(graph_edges(self.graph).to_set(), n),
        ensures
            cycle_error(self@.edges, r),
    {
        proof {
            self.lemma_tags();
            self.lemma_edges();
            self.lemma_index_cycle(n);
        }
        let to = TagId { id: graph_weight(&self.graph, n) };
        let from = match graph_first_predecessor(&self.graph, n) {
            Some(s) => {
                proof {
                    let e = graph_edges(self.graph);
                    let k = choose|k: int| 0 <= k < e.len() && e[k] == (s, n);
                    assert(e[k].0 < graph_nodes(self.graph).len());
                }
                TagId { id: graph_weight(&self.graph, s) }
            },
            None => to,
        };
        OntologyError::CycleDetected { from, to }
    }

    proof fn lemma_index_cycle(&self, n: usize)
        requires
            self.structural(),
            n < graph_nodes(self.graph).len(),
            on_cycle(graph_edges(self.graph).to_set(), n),
        ensures
            on_cycle(self@.edges, tag_of(graph_nodes(self.graph), n)),
            exists|s: usize| graph_edges(self.graph).contains((s, n)),
    {
        let nodes = graph_nodes(self.graph);
        let e = graph_edges(self.graph);
        self.lemma_edges();
        let p = choose|p: Seq<usize>| #[trigger]
            is_walk(e.to_set(), p) && p.len() > 1 && p[0] == n && p.last() == n;
        let q = p.map_values(|i: usize| tag_of(nodes, i));
        assert forall|i: int| 0 <= i < q.len() - 1 implies #[trigger] steps(self@.edges, q, i) by {
            assert(steps(e.to_set(), p, i));
            assert(e.contains((p[i], p[i + 1])));
            let k = choose|k: int| 0 <= k < e.len() && e[k] == (p[i], p[i + 1]);
            assert(e[k].0 < nodes.len() && e[k].1 < nodes.len());
        }
        assert(is_walk(self@.edges, q));
        assert(q[0] == tag_of(nodes, n) && q.last() == tag_of(nodes, n));
        let m = p.len() - 2;
        assert(steps(e.to_set(), p, m));
        assert(e.contains((p[m], n)));
    }

    proof fn lemma_topological(&self, order: Seq<usize>)
        requires
            self.structural(),
            is_topological(order, graph_nodes(self.graph).len(), graph_edges(self.graph)),
        ensures
            acyclic(self@.edges),
            forall|x: TagId, y: TagId, i: int, j: int|
                0 <= i < order.len() && 0 <= j < order.len() && #[trigger] self@.edges.contains(
                    (x, y),
                ) && #[trigger] tag_of(graph_nodes(self.graph), order[i]) == x && #[trigger] tag_of(
                    graph_nodes(self.graph),
                    order[j],
                ) == y ==> i < j,
            forall|t: TagId| #[trigger]
                self@.tags.contains(t) ==> order.contains(self.nodes@[t]),
    {
        let nodes = graph_nodes(self.graph);
        let e = graph_edges(self.graph);
        let es = self@.edges;
        self.lemma_tags();
        self.lemma_edges();
        lemma_covers(order, nodes.len());
        assert forall|x: TagId, y: TagId, i: int, j: int|
            0 <= i < order.len() && 0 <= j < order.len() && #[trigger] es.contains((x, y))
                && #[trigger] tag_of(nodes, order[i]) == x && #[trigger] tag_of(nodes, order[j])
                == y implies i < j by {
            assert(e.contains((self.nodes@[x], self.nodes@[y])));
            assert(self.nodes@[TagId { id: nodes[order[i] as int] }] == order[i]);
            assert(self.nodes@[TagId { id: nodes[order[j] as int] }] == order[j]);
            assert(e.contains((order[i], order[j])));
        }
        assert forall|a: TagId| !#[trigger] on_cycle(es, a) by {
            if on_cycle(es, a) {
                let p = choose|p: Seq<TagId>| #[trigger]
                    is_walk(es, p) && p.len() > 1 && p[0] == a && p.last() == a;
                self.lemma_walk_ascends(order, p, p.len() - 1);
            }
        }
    }

    /// Position of tag `t` in `order`.
    spec fn place(&self, order: Seq<usize>, t: TagId) -> int {
        order.index_of(self.nodes@[t])
    }

    proof fn lemma_walk_ascends(&self, order: Seq<usize>, p: Seq<TagId>, k: int)
        requires
            self.structural(),
            is_topological(order, graph_nodes(self.graph).len(), graph_edges(self.graph)),
            forall|i: usize| i < graph_nodes(self.graph).len() ==> #[trigger] order.contains(i),
            is_walk(self@.edges, p),
            0 < k < p.len(),
        ensures
            self.place(order, p[0]) < self.place(order, p[k]),
        decreases k,
    {
        self.lemma_tags();
        self.lemma_edges();
        let e = graph_edges(self.graph);
        if k > 1 {
            self.lemma_walk_ascends(order, p, k - 1);
        }
        let x = p[k - 1];
        let y = p[k];
        assert(steps(self@.edges, p, k - 1));
        assert(self@.edges.contains((x, y)));
        assert(e.contains((self.nodes@[x], self.nodes@[y])));
        assert(order.contains(self.nodes@[x]) && order.contains(self.nodes@[y]));
        let i = self.place(order, x);
        let j = self.place(order, y);
        assert(order[i] == self.nodes@[x] && order[j] == self.nodes@[y]);
        assert(e.contains((order[i], order[j])));
    }

    /// All tags in an order in which every tag comes before those it implies.
    pub fn topological_sort(&self) -> (r: Result<Vec<TagId>, OntologyError>)
        requires
            self.structural(),
        ensures
            self.wf() ==> r is Ok,
            match r {
                Ok(order) => {
                    &&& acyclic(self@.edges)
                    &&& order@.no_duplicates()
                    &&& order@.to_set() == self@.tags
                    &&& forall|i: int, j: int|
                        0 <= i < order@.len() && 0 <= j < order@.len() && self@.edges.contains(
                            (#[trigger] order@[i], #[trigger] order@[j]),
                        ) ==> i < j
                    &&& forall|x: TagId, y: TagId| #[trigger]
                        self@.edges.contains((x, y)) ==> comes_before(order@, x, y)
                },
                Err(e) => cycle_error(self@.edges, e),
            },
    {
        let order = match graph_toposort(&self.graph) {
            Ok(order) => order,
            Err(n) => {
                return Err(self.cycle_at(n));
            },
        };
        let ghost nodes = graph_nodes(self.graph);
        proof {
            self.lemma_tags();
            self.lemma_edges();
            self.lemma_topological(order@);
        }
        let mut out: Vec<TagId> = Vec::new();
        let mut i: usize = 0;
        while i < order.len()
            invariant
                i <= order@.len(),
                nodes == graph_nodes(self.graph),
                is_topological(order@, nodes.len(), graph_edges(self.graph)),
                out@.len() == i,
                forall|j: int| 0 <= j < i ==> #[trigger] out@[j] == tag_of(nodes, order@[j]),
            decreases order@.len() - i,
        {
            out.push(TagId { id: graph_weight(&self.graph, order[i]) });
            i = i + 1;
        }
        proof {
            assert(out@.no_duplicates()) by {
                assert forall|i: int, j: int| 0 <= i < out@.len() && 0 <= j < out@.len() && i
                    != j implies out@[i] != out@[j] by {
                    assert(order@[i] != order@[j]);
                    assert(nodes[order@[i] as int] != nodes[order@[j] as int]);
                }
            }
            assert(out@.to_set() =~= self@.tags) by {
                assert forall|t: TagId| out@.to_set().contains(t) <==> self@.tags.contains(t) by {
                    if out@.contains(t) {
                        let j = choose|j: int| 0 <= j < out@.len() && out@[j] == t;
                        assert(nodes.contains(t.id)) by {
                            assert(nodes[order@[j] as int] == t.id);
                        }
                    }
                    if self@.tags.contains(t) {
                        let v = self.nodes@[t];
                        let j = choose|j: int| 0 <= j < order@.len() && order@[j] == v;
                        assert(out@[j] == t);
                    }
                }
            }
            assert forall|i: int, j: int|
                0 <= i < out@.len() && 0 <= j < out@.len() && self@.edges.contains(
                    (#[trigger] out@[i], #[trigger] out@[j]),
                ) implies i < j by {
                assert(tag_of(nodes, order@[i]) == out@[i]);
                assert(tag_of(nodes, order@[j]) == out@[j]);
            }
            assert forall|x: TagId, y: TagId| #[trigger] self@.edges.contains((x, y)) implies
                comes_before(out@, x, y) by {
                assert(out@.to_set().contains(x) && out@.to_set().contains(y));
                let i = choose|i: int| 0 <= i < out@.len() && out@[i] == x;
                let j = choose|j: int| 0 <= j < out@.len() && out@[j] == y;
                assert(self@.edges.contains((out@[i], out@[j])));
            }
        }
        Ok(out)
    }

    /// All tag nodes, each once, in index order.
    pub fn tags(&self) -> (r: Vec<TagId>)
        requires
            self.wf(),
        ensures
            r@ == self.tag_order(),
            r@.no_duplicates(),
            r@.to_set() == self@.tags,
    {
        let w = graph_weights(&self.graph);
        let mut out: Vec<TagId> = Vec::new();
        let mut i: usize = 0;
        while i < w.len()
            invariant
                i <= w@.len(),
                out@ =~= tag_seq(w@.take(i as int)),
            decreases w@.len() - i,
        {
            out.push(TagId { id: w[i] });
            i = i + 1;
        }
        proof {
            assert(w@.take(i as int) =~= w@);
            let s = tag_seq(w@);
            assert forall|i: int, j: int| 0 <= i < s.len() && 0 <= j < s.len() && i != j implies s[i]
                != s[j] by {
                assert(w@[i] != w@[j]);
            }
        }
        out
    }

    /// All edges `(from, to)`, each once, in index order.
    pub fn edges(&self) -> (r: Vec<(TagId, TagId)>)
        requires
            self.wf(),
        ensures
            r@ == self.edge_order(),
            r@.no_duplicates(),
            r@.to_set() == self@.edges,
    {
        proof {
            self.lemma_edges();
        }
        let list = graph_edge_list(&self.graph);
        let ghost n = graph_nodes(self.graph);
        let mut out: Vec<(TagId, TagId)> = Vec::new();
        let mut i: usize = 0;
        while i < list.len()
            invariant
                i <= list@.len(),
                self.structural(),
                n == graph_nodes(self.graph),
                list@ == graph_edges(self.graph),
                out@ =~= tag_edges(n, list@.take(i as int)),
            decreases list@.len() - i,
        {
            let (a, b) = list[i];
            proof {
                assert(list@[i as int].0 < n.len());
            }
            out.push(
                (
                    TagId { id: graph_weight(&self.graph, a) },
                    TagId { id: graph_weight(&self.graph, b) },
                ),
            );
            i = i + 1;
        }
        proof {
            assert(list@.take(i as int) =~= list@);
        }
        out
    }

    /// Number of tag nodes.
    pub fn tag_count(&self) -> (r: usize)
        requires
            self.wf(),
        ensures
            r == self@.tags.len(),
            self@.tags.finite(),
    {
        proof {
            self.lemma_tags();
        }
        graph_node_count(&self.graph)
    }

    /// Number of implication edges.
    pub fn edge_count(&self) -> (r: usize)
        requires
            self.wf(),
        ensures
            r == self@.edges.len(),
            self@.edges.finite(),
    {
        proof {
            self.lemma_edges();
        }
        graph_edge_count(&self.graph)
    }

    /// The graph's content in a fixed order.
    pub fn snapshot(&self) -> (r: DagSnapshot)
        requires
            self.wf(),
        ensures
            tags_ascend(r.tags@),
            r.tags@.to_set() == self@.tags,
            edges_ascend(r.edges@),
            r.edges@.to_set() == self@.edges,
    {
        let all = self.tags();
        let tags = self.closure(&all);
        proof {
            self.lemma_tags();
            self.lemma_edges();
            assert(closure_set(self@, all@) =~= self@.tags) by {
                assert forall|t: TagId| closure_set(self@, all@).contains(t) <==> self@.tags.contains(
                    t,
                ) by {
                    assert(all@.to_set().contains(t) == self@.tags.contains(t));
                    if self@.tags.contains(t) {
                        assert(all@.contains(t));
                    }
                }
            }
        }
        let edges = self.edges();
        let sorted = sort_pairs(&edges);
        DagSnapshot { tags, edges: sorted }
    }

    /// Rebuild the graph from a snapshot. Its edges are taken in order; the
    /// first that names an unknown tag or closes a cycle is the error.
    pub fn from_snapshot(snap: DagSnapshot) -> (r: Result<Self, OntologyError>)
        requires
            snap.tags@.len() <= u32::MAX,
            snap.edges@.len() <= u32::MAX,
        ensures
            match r {
                Ok(d) => {
                    &&& d.wf()
                    &&& d@.tags == snap.tags@.to_set()
                    &&& d@.edges == snap.edges@.to_set()
                    &&& snap.tags@.no_duplicates() ==> d.tag_order() == snap.tags@
                    &&& snap.edges@.no_duplicates() ==> d.edge_order() == snap.edges@
                    &&& snap.edges@.no_duplicates() ==> forall|t: TagId| #[trigger]
                        d.implied_order(t) == latest_first(
                            snap.edges@,
                            t,
                            snap.edges@.len() as int,
                        )
                    &&& forall|k: int|
                        0 <= k < snap.edges@.len() ==> !#[trigger] edge_fault(
                            snap.tags@.to_set(),
                            snap.edges@,
                            k,
                        )
                },
                Err(e) => exists|k: int|
                    {
                        &&& 0 <= k < snap.edges@.len()
                        &&& #[trigger] edge_fault(snap.tags@.to_set(), snap.edges@, k)
                        &&& forall|j: int|
                            0 <= j < k ==> !#[trigger] edge_fault(
                                snap.tags@.to_set(),
                                snap.edges@,
                                j,
                            )
                        &&& edge_refused(
                            (DagModel {
                                tags: snap.tags@.to_set(),
                                edges: snap.edges@.take(k).to_set(),
                            }),
                            snap.edges@[k].0,
                            snap.edges@[k].1,
                            e,
                        )
                    },
            },
    {
        let mut dag = ImplicationDag::new();
        let ghost ts = snap.tags@;
        let ghost es = snap.edges@;
        let mut i: usize = 0;
        proof {
            assert(ts.take(0).to_set() =~= Set::<TagId>::empty());
            assert(ts.take(0) =~= Seq::<TagId>::empty());
        }
        while i < snap.tags.len()
            invariant
                i <= ts.len() <= u32::MAX,
                ts == snap.tags@,
                dag.wf(),
                dag@.tags == ts.take(i as int).to_set(),
                dag@.edges == Set::<(TagId, TagId)>::empty(),
                ts.no_duplicates() ==> dag.tag_order() == ts.take(i as int),
                dag.edge_order() == Seq::<(TagId, TagId)>::empty(),
                forall|t: TagId| #[trigger] dag.implied_order(t) == Seq::<TagId>::empty(),
            decreases ts.len() - i,
        {
            proof {
                ts.take(i as int).lemma_cardinality_of_set();
                lemma_take_to_set(ts, i as int);
                assert(ts.take(i + 1) =~= ts.take(i as int).push(ts[i as int]));
                if ts.take(i as int).contains(ts[i as int]) {
                    let j = ts.take(i as int).index_of(ts[i as int]);
                    assert(ts[j] == ts[i as int]);
                }
            }
            dag.add_tag(snap.tags[i]);
            i = i + 1;
        }
        proof {
            assert(ts.take(i as int) =~= ts);
            assert(es.take(0).to_set() =~= Set::<(TagId, TagId)>::empty());
            assert(es.take(0) =~= Seq::<(TagId, TagId)>::empty());
        }
        let mut k: usize = 0;
        while k < snap.edges.len()
            invariant
                k <= es.len() <= u32::MAX,
                es == snap.edges@,
                ts == snap.tags@,
                dag.wf(),
                dag@.tags == ts.to_set(),
                dag@.edges == es.take(k as int).to_set(),
                ts.no_duplicates() ==> dag.tag_order() == ts,
                es.no_duplicates() ==> dag.edge_order() == es.take(k as int),
                es.no_duplicates() ==> forall|t: TagId| #[trigger]
                    dag.implied_order(t) == latest_first(es, t, k as int),
                forall|j: int| 0 <= j < k ==> !#[trigger] edge_fault(ts.to_set(), es, j),
            decreases es.len() - k,
        {
            let (from, to) = snap.edges[k];
            proof {
                es.take(k as int).lemma_cardinality_of_set();
                lemma_take_to_set(es, k as int);
                assert(es.take(k + 1) =~= es.take(k as int).push(es[k as int]));
                if es.take(k as int).contains(es[k as int]) {
                    let j = es.take(k as int).index_of(es[k as int]);
                    assert(es[j] == es[k as int]);
                }
            }
            let ghost before = dag@;
            match dag.add_implication(from, to) {
                Ok(_) => {
                    proof {
                        assert(!edge_fault(ts.to_set(), es, k as int));
                    }
                },
                Err(e) => {
                    proof {
                        assert(before == (DagModel {
                            tags: ts.to_set(),
                            edges: es.take(k as int).to_set(),
                        }));
                        lemma_new_edge_cycle(before.edges, from, to);
                        assert(edge_fault(ts.to_set(), es, k as int));
                    }
                    return Err(e);
                },
            }
            k = k + 1;
        }
        proof {
            assert(es.take(k as int) =~= es);
        }
        Ok(dag)
    }
}

proof fn lemma_without<A>(l: Seq<A>, x: A)
    ensures
        forall|y: A| #[trigger] without(l, x).contains(y) <==> l.contains(y) && y != x,
        l.no_duplicates() ==> without(l, x).no_duplicates(),
        !l.contains(x) ==> without(l, x) == l,
    decreases l.len(),
{
    if l.len() > 0 {
        let front = l.drop_last();
        lemma_without(front, x);
        let w = without(front, x);
        let r = without(l, x);
        assert forall|y: A| #[trigger] l.contains(y) <==> front.contains(y) || y == l.last() by {
            if front.contains(y) {
                let i = front.index_of(y);
                assert(l[i] == y);
            }
            if l.contains(y) {
                let i = l.index_of(y);
                if i < front.len() {
                    assert(front[i] == y);
                }
            }
            assert(l[l.len() - 1] == l.last());
        }
        if l.last() != x {
            assert forall|y: A| #[trigger] r.contains(y) <==> w.contains(y) || y == l.last() by {
                if w.contains(y) {
                    let i = w.index_of(y);
                    assert(r[i] == y);
                }
                assert(r[w.len() as int] == l.last());
            }
            if l.no_duplicates() {
                assert(!front.contains(l.last())) by {
                    if front.contains(l.last()) {
                        let i = front.index_of(l.last());
                        assert(l[i] == l[l.len() - 1]);
                    }
                }
                assert(front.no_duplicates());
                assert forall|i: int, j: int| 0 <= i < r.len() && 0 <= j < r.len() && i
                    != j implies r[i] != r[j] by {
                    if i < w.len() {
                        assert(w.contains(w[i]));
                    }
                    if j < w.len() {
                        assert(w.contains(w[j]));
                    }
                }
            }
            if !l.contains(x) {
                assert(r =~= l);
            }
        } else {
            assert(front.no_duplicates() || !l.no_duplicates());
        }
    }
}

/// An element in front.
proof fn lemma_front<A>(x: A, l: Seq<A>)
    ensures
        forall|y: A| #[trigger] (seq![x] + l).contains(y) <==> l.contains(y) || y == x,
        l.no_duplicates() && !l.contains(x) ==> (seq![x] + l).no_duplicates(),
{
    let s = seq![x] + l;
    assert forall|y: A| #[trigger] s.contains(y) <==> l.contains(y) || y == x by {
        if l.contains(y) {
            let i = l.index_of(y);
            assert(s[i + 1] == y);
        }
        assert(s[0] == x);
        if s.contains(y) {
            let i = s.index_of(y);
            if i > 0 {
                assert(l[i - 1] == y);
            }
        }
    }
    if l.no_duplicates() && !l.contains(x) {
        assert forall|i: int, j: int| 0 <= i < s.len() && 0 <= j < s.len() && i != j implies s[i]
            != s[j] by {
            if i > 0 {
                assert(l.contains(l[i - 1]));
            }
            if j > 0 {
                assert(l.contains(l[j - 1]));
            }
        }
    }
}

/// An element that was put in front goes again.
proof fn lemma_without_front<A>(x: A, l: Seq<A>)
    requires
        !l.contains(x),
    ensures
        without(seq![x] + l, x) == l,
    decreases l.len(),
{
    let s = seq![x] + l;
    if l.len() > 0 {
        let front = l.drop_last();
        assert(!front.contains(x)) by {
            if front.contains(x) {
                let i = front.index_of(x);
                assert(l[i] == x);
            }
        }
        lemma_without_front(x, front);
        assert(s.drop_last() =~= seq![x] + front);
        assert(l[l.len() - 1] == l.last());
        assert(s.last() == l.last());
        assert(l.contains(l.last()));
        assert(front.push(l.last()) =~= l);
    } else {
        assert(s.drop_last() =~= Seq::<A>::empty());
        assert(without(Seq::<A>::empty(), x) =~= Seq::<A>::empty());
        assert(without(s, x) =~= l);
    }
}

/// The targets of edges are nodes.
proof fn lemma_list_below(l: Seq<usize>, e: Seq<(usize, usize)>, i: usize, n: nat)
    requires
        list_matches(l, e, i),
        forall|k: int| 0 <= k < e.len() ==> (#[trigger] e[k]).0 < n && e[k].1 < n,
    ensures
        forall|k: int| 0 <= k < l.len() ==> #[trigger] l[k] < n,
{
    assert forall|k: int| 0 <= k < l.len() implies #[trigger] l[k] < n by {
        assert(l.contains(l[k]));
        let j = e.index_of((i, l[k]));
        assert(e[j].1 < n);
    }
}

/// A list without an index stands for the tags without its tag.
proof fn lemma_tags_without(n: Seq<u32>, l: Seq<usize>, b: usize)
    requires
        n.no_duplicates(),
        b < n.len(),
        forall|k: int| 0 <= k < l.len() ==> #[trigger] l[k] < n.len(),
    ensures
        tags_at(n, without(l, b)) == without(tags_at(n, l), tag_of(n, b)),
    decreases l.len(),
{
    let s = tags_at(n, l);
    if l.len() > 0 {
        let front = l.drop_last();
        assert forall|k: int| 0 <= k < front.len() implies #[trigger] front[k] < n.len() by {
            assert(front[k] == l[k]);
        }
        lemma_tags_without(n, front, b);
        assert(s.drop_last() =~= tags_at(n, front));
        assert(s.last() == tag_of(n, l.last()));
        assert(l[l.len() - 1] == l.last());
        if l.last() != b {
            assert(n[l.last() as int] != n[b as int]);
            assert(tags_at(n, without(l, b)) =~= tags_at(n, without(front, b)).push(s.last()));
        }
    } else {
        assert(tags_at(n, without(l, b)) =~= without(s, tag_of(n, b)));
    }
}

/// The same when the node goes and the last takes its place.
proof fn lemma_tags_relocated(n: Seq<u32>, l: Seq<usize>, r: usize)
    requires
        n.no_duplicates(),
        r < n.len(),
        forall|k: int| 0 <= k < l.len() ==> #[trigger] l[k] < n.len(),
    ensures
        tags_at(n.update(r as int, n.last()).drop_last(), list_without(l, r, n.len())) == without(
            tags_at(n, l),
            tag_of(n, r),
        ),
{
    let m = n.update(r as int, n.last()).drop_last();
    let w = without(l, r);
    lemma_tags_without(n, l, r);
    lemma_without(l, r);
    assert forall|k: int| 0 <= k < w.len() implies tag_of(m, renumbered(#[trigger] w[k], r, n.len()))
        == tag_of(n, w[k]) by {
        assert(w.contains(w[k]));
        let j = l.index_of(w[k]);
        assert(l[j] < n.len());
    }
    assert(tags_at(m, list_without(l, r, n.len())) =~= tags_at(n, w));
}

/// What a list holds when node `r` is taken out.
proof fn lemma_list_without(l: Seq<usize>, r: usize, n: nat)
    requires
        r < n,
        l.no_duplicates(),
        forall|k: int| 0 <= k < l.len() ==> #[trigger] l[k] < n,
    ensures
        list_without(l, r, n).no_duplicates(),
        forall|y: usize| #[trigger]
            list_without(l, r, n).contains(y) <==> exists|v: usize| #[trigger]
                l.contains(v) && v != r && y == renumbered(v, r, n),
{
    let w = without(l, r);
    let g = list_without(l, r, n);
    lemma_without(l, r);
    assert forall|k: int| 0 <= k < w.len() implies #[trigger] w[k] < n && w[k] != r by {
        assert(w.contains(w[k]));
        let j = l.index_of(w[k]);
        assert(l[j] < n);
    }
    assert forall|i: int, j: int| 0 <= i < g.len() && 0 <= j < g.len() && i != j implies g[i]
        != g[j] by {
        assert(w[i] != w[j]);
    }
    assert forall|y: usize| #[trigger] g.contains(y) <==> exists|v: usize| #[trigger]
        l.contains(v) && v != r && y == renumbered(v, r, n) by {
        if g.contains(y) {
            let k = g.index_of(y);
            assert(w.contains(w[k]));
            assert(l.contains(w[k]) && w[k] != r && y == renumbered(w[k], r, n));
        }
        if exists|v: usize| #[trigger] l.contains(v) && v != r && y == renumbered(v, r, n) {
            let v = choose|v: usize| #[trigger]
                l.contains(v) && v != r && y == renumbered(v, r, n);
            assert(w.contains(v));
            let k = w.index_of(v);
            assert(g[k] == y);
        }
    }
}

proof fn lemma_swap_removed<A>(s: Seq<A>, k: int)
    requires
        0 <= k < s.len(),
        s.no_duplicates(),
    ensures
        swap_removed(s, s[k]) == s.update(k, s.last()).drop_last(),
{
    assert(s.contains(s[k]));
    assert(s[s.index_of(s[k])] == s[k]);
}

/// `tag` leads to `ancestor` in the graph `d`, in which both are nodes.
pub open spec fn implied(d: DagModel, tag: TagId, ancestor: TagId) -> bool {
    d.tags.contains(tag) && d.tags.contains(ancestor) && reach(d.edges, tag, ancestor)
}

/// The tags that some node among `direct` leads to.
pub open spec fn reach_set(d: DagModel, direct: Seq<TagId>) -> Set<TagId> {
    Set::new(|t: TagId| exists|s: TagId| #[trigger] direct.contains(s) && implied(d, s, t))
}

/// The direct tags, and the tags that some node among them leads to.
pub open spec fn closure_set(d: DagModel, direct: Seq<TagId>) -> Set<TagId> {
    Set::new(|t: TagId| direct.contains(t) || reach_set(d, direct).contains(t))
}

/// The edges that do not touch `tag`.
pub open spec fn edges_not_touching(edges: Set<(TagId, TagId)>, tag: TagId) -> Set<(TagId, TagId)> {
    edges.filter(|e: (TagId, TagId)| e.0 != tag && e.1 != tag)
}

/// Both `x` and `y` stand in `order`, `x` before `y`.
pub open spec fn comes_before(order: Seq<TagId>, x: TagId, y: TagId) -> bool {
    exists|i: int, j: int|
        0 <= i < j < order.len() && #[trigger] order[i] == x && #[trigger] order[j] == y
}

/// `e` names an edge into a node on a cycle.
pub open spec fn cycle_error(edges: Set<(TagId, TagId)>, e: OntologyError) -> bool {
    match e {
        OntologyError::CycleDetected { from, to } => on_cycle(edges, to) && edges.contains(
            (from, to),
        ),
        _ => false,
    }
}

/// `e` is the reason why the edge `(from, to)` cannot be added to `d`: its
/// source is no node, or else its target is none, or else it closes a cycle.
pub open spec fn edge_refused(d: DagModel, from: TagId, to: TagId, e: OntologyError) -> bool {
    if !d.tags.contains(from) {
        e == OntologyError::TagNotFound(from)
    } else if !d.tags.contains(to) {
        e == OntologyError::TagNotFound(to)
    } else {
        reach(d.edges, to, from) && cycle_error(d.edges.insert((from, to)), e)
    }
}

/// Edge `k` cannot be added after those before it.
pub open spec fn edge_fault(tags: Set<TagId>, edges: Seq<(TagId, TagId)>, k: int) -> bool {
    ||| !tags.contains(edges[k].0)
    ||| !tags.contains(edges[k].1)
    ||| reach(edges.take(k).to_set(), edges[k].1, edges[k].0)
}

/// The pairs ascend strictly, by source, then by target.
pub open spec fn edges_ascend(s: Seq<(TagId, TagId)>) -> bool {
    forall|i: int, j: int| 0 <= i < j < s.len() ==> pair_precedes(#[trigger] s[i], #[trigger] s[j])
}

/// A graph's content in a fixed order.
#[derive(Clone, Debug, PartialEq, Eq)]
pub struct DagSnapshot {
    /// Tag nodes, ascending.
    pub tags: Vec<TagId>,
    /// Edges `(from, to)`, ascending.
    pub edges: Vec<(TagId, TagId)>,
}

/// The pairs of `v`, each once, in ascending order.
fn sort_pairs(v: &Vec<(TagId, TagId)>) -> (r: Vec<(TagId, TagId)>)
    ensures
        edges_ascend(r@),
        r@.to_set() == v@.to_set(),
{
    let mut m: OrdMap<(TagId, TagId), ()> = OrdMap::new();
    let mut i: usize = 0;
    while i < v.len()
        invariant
            i <= v@.len(),
            m.wf(),
            forall|e: (TagId, TagId)| #[trigger]
                m@.contains_key(e) <==> v@.take(i as int).to_set().contains(e),
        decreases v@.len() - i,
    {
        proof {
            lemma_take_to_set(v@, i as int);
        }
        m.insert(v[i], ());
        i = i + 1;
    }
    proof {
        assert(v@.take(i as int) =~= v@);
        lemma_items_map::<(TagId, TagId), ()>(m.items());
    }
    let total = m.len();
    let mut out: Vec<(TagId, TagId)> = Vec::new();
    let mut k: usize = 0;
    while k < total
        invariant
            k <= total,
            total == m.items().len(),
            out@.len() == k,
            forall|j: int| 0 <= j < k ==> #[trigger] out@[j] == m.items()[j].0,
        decreases total - k,
    {
        out.push(*m.key_at(k));
        k = k + 1;
    }
    proof {
        let s = m.items();
        assert forall|i: int, j: int| 0 <= i < j < out@.len() implies pair_precedes(
            #[trigger] out@[i],
            #[trigger] out@[j],
        ) by {
            assert(<(TagId, TagId)>::precedes(s[i].0, s[j].0));
        }
        assert(out@.to_set() =~= v@.to_set()) by {
            assert forall|e: (TagId, TagId)| out@.to_set().contains(e) <==> v@.to_set().contains(e) by {
                if out@.contains(e) {
                    let j = choose|j: int| 0 <= j < out@.len() && out@[j] == e;
                    assert(m@.contains_key(s[j].0));
                }
                if v@.to_set().contains(e) {
                    assert(m@.contains_key(e));
                    let j = choose|j: int| 0 <= j < s.len() && #[trigger] s[j].0 == e;
                    assert(out@[j] == e);
                }
            }
        }
    }
    out
}

pub proof fn lemma_take_to_set<A>(s: Seq<A>, i: int)
    requires
        0 <= i < s.len(),
    ensures
        s.take(i + 1).to_set() == s.take(i).to_set().insert(s[i]),
{
    let a = s.take(i);
    let b = s.take(i + 1);
    assert(b =~= a.push(s[i]));
    assert forall|x: A| b.to_set().contains(x) <==> a.to_set().insert(s[i]).contains(x) by {
        if b.contains(x) {
            let k = choose|k: int| 0 <= k < b.len() && b[k] == x;
            if k < i {
                assert(a[k] == x);
            }
        }
        if a.contains(x) {
            let k = choose|k: int| 0 <= k < a.len() && a[k] == x;
            assert(b[k] == x);
        }
        assert(b[i] == s[i]);
    }
    assert(b.to_set() =~= a.to_set().insert(s[i]));
}

pub proof fn lemma_take_contains<A>(s: Seq<A>, i: int)
    requires
        0 <= i < s.len(),
    ensures
        forall|x: A| #[trigger] s.take(i + 1).contains(x) <==> s.take(i).contains(x) || x == s[i],
{
    lemma_take_to_set(s, i);
    assert forall|x: A| #[trigger] s.take(i + 1).contains(x) <==> s.take(i).contains(x) || x
        == s[i] by {
        assert(s.take(i + 1).to_set().contains(x) <==> s.take(i).to_set().insert(s[i]).contains(x));
    }
}

proof fn lemma_queue_push(q: Seq<TagId>, t: TagId)
    ensures
        forall|x: TagId| #[trigger] q.push(t).contains(x) <==> q.contains(x) || x == t,
{
    let r = q.push(t);
    assert forall|x: TagId| #[trigger] r.contains(x) <==> q.contains(x) || x == t by {
        if r.contains(x) {
            let k = choose|k: int| 0 <= k < r.len() && r[k] == x;
            if k < q.len() {
                assert(q[k] == x);
            }
        }
        if q.contains(x) {
            let k = choose|k: int| 0 <= k < q.len() && q[k] == x;
            assert(r[k] == x);
        }
        assert(r[q.len() as int] == t);
    }
}

proof fn lemma_queue_bound(q: Seq<TagId>, tags: Set<TagId>)
    requires
        tags.finite(),
        q.no_duplicates(),
        forall|t: TagId| #[trigger] q.contains(t) ==> tags.contains(t),
    ensures
        q.len() <= tags.len(),
{
    q.unique_seq_to_set();
    assert(q.to_set().subset_of(tags));
    vstd::set_lib::lemma_len_subset(q.to_set(), tags);
}

/// A list of `n` different numbers below `n` holds them all.
proof fn lemma_covers(order: Seq<usize>, n: nat)
    requires
        order.len() == n,
        order.no_duplicates(),
        forall|i: int| 0 <= i < order.len() ==> #[trigger] order[i] < n,
    ensures
        forall|i: usize| i < n ==> #[trigger] order.contains(i),
{
    let s = order.map_values(|x: usize| x as int);
    assert(s.no_duplicates()) by {
        assert forall|i: int, j: int| 0 <= i < s.len() && 0 <= j < s.len() && i != j implies s[i]
            != s[j] by {
            assert(order[i] != order[j]);
        }
    }
    s.unique_seq_to_set();
    let full = vstd::set_lib::set_int_range(0, n as int);
    vstd::set_lib::lemma_int_range(0, n as int);
    assert(s.to_set().subset_of(full)) by {
        assert forall|x: int| s.to_set().contains(x) implies full.contains(x) by {
            let k = choose|k: int| 0 <= k < s.len() && s[k] == x;
            assert(order[k] < n);
        }
    }
    vstd::set_lib::lemma_subset_equality(s.to_set(), full);
    assert forall|i: usize| i < n implies #[trigger] order.contains(i) by {
        assert(full.contains(i as int));
        let k = choose|k: int| 0 <= k < s.len() && s[k] == i as int;
        assert(order[k] == i);
    }
}

proof fn lemma_same_multiset<A>(a: Seq<A>, b: Seq<A>)
    requires
        a.to_multiset() == b.to_multiset(),
        b.no_duplicates(),
    ensures
        a.no_duplicates(),
        forall|x: A| #[trigger] a.contains(x) <==> b.contains(x),
{
    broadcast use vstd::seq_lib::to_multiset_contains;

    b.lemma_multiset_has_no_duplicates();
    a.lemma_multiset_has_no_duplicates_conv();
    assert forall|x: A| #[trigger] a.contains(x) <==> b.contains(x) by {
        assert(a.contains(x) <==> a.to_multiset().contains(x));
        assert(b.contains(x) <==> b.to_multiset().contains(x));
    }
}

/// What is left when the last element takes the place of element `k`.
proof fn lemma_swap_remove<A>(s: Seq<A>, k: int)
    requires
        s.no_duplicates(),
        0 <= k < s.len(),
    ensures
        s.update(k, s.last()).drop_last().no_duplicates(),
        forall|x: A| #[trigger]
            s.update(k, s.last()).drop_last().contains(x) <==> s.contains(x) && x != s[k],
        forall|i: int|
            0 <= i < s.len() - 1 ==> s.contains(
                #[trigger] s.update(k, s.last()).drop_last()[i],
            ),
{
    let t = s.update(k, s.last()).drop_last();
    assert forall|i: int| 0 <= i < t.len() implies s.contains(#[trigger] t[i]) by {
        if i == k {
            assert(s[s.len() - 1] == t[i]);
        } else {
            assert(s[i] == t[i]);
        }
    }
    assert forall|x: A| #[trigger] t.contains(x) <==> s.contains(x) && x != s[k] by {
        if t.contains(x) {
            let i = choose|i: int| 0 <= i < t.len() && t[i] == x;
            assert(s.contains(t[i]));
            if i != k {
                assert(s[i] != s[k]);
            } else {
                assert(s[s.len() - 1] != s[k]);
            }
        }
        if s.contains(x) && x != s[k] {
            let i = choose|i: int| 0 <= i < s.len() && s[i] == x;
            if i < s.len() - 1 {
                assert(t[i] == x);
            } else {
                assert(t[k] == x);
            }
        }
    }
}

/// The targets of `n` are listed once each.
proof fn lemma_targets(edges: Seq<(usize, usize)>, n: usize)
    requires
        edges.no_duplicates(),
    ensures
        targets(edges, n).no_duplicates(),
        forall|t: usize| #[trigger] targets(edges, n).contains(t) <==> edges.contains((n, t)),
    decreases edges.len(),
{
    reveal(Seq::filter);
    let f = |e: (usize, usize)| e.0 == n;
    let g = |e: (usize, usize)| e.1;
    let s = targets(edges, n);
    if edges.len() == 0 {
        assert(s =~= Seq::<usize>::empty());
    } else {
        let front = edges.drop_last();
        let last = edges.last();
        assert(front.no_duplicates());
        lemma_targets(front, n);
        let fs = targets(front, n);
        assert(edges =~= front.push(last));
        assert(!front.contains(last)) by {
            if front.contains(last) {
                let k = choose|k: int| 0 <= k < front.len() && front[k] == last;
                assert(edges[k] == edges[edges.len() - 1]);
            }
        }
        if last.0 == n {
            assert(s =~= fs.push(last.1));
            assert(!fs.contains(last.1)) by {
                assert(last == (n, last.1));
            }
        } else {
            assert(s =~= fs);
        }
        assert forall|t: usize| #[trigger] s.contains(t) <==> edges.contains((n, t)) by {
            if edges.contains((n, t)) {
                let k = choose|k: int| 0 <= k < edges.len() && edges[k] == (n, t);
                if k < front.len() {
                    assert(front[k] == (n, t));
                    assert(fs.contains(t));
                    let j = choose|j: int| 0 <= j < fs.len() && fs[j] == t;
                    assert(s[j] == t);
                } else {
                    assert(s[fs.len() as int] == t);
                }
            }
            if s.contains(t) {
                let j = choose|j: int| 0 <= j < s.len() && s[j] == t;
                if j < fs.len() {
                    assert(fs[j] == t);
                    assert(fs.contains(t));
                    let k = choose|k: int| 0 <= k < front.len() && front[k] == (n, t);
                    assert(edges[k] == (n, t));
                } else {
                    assert(edges[edges.len() - 1] == (n, t));
                }
            }
        }
    }
}

/// The edges that remain after a node is taken out.
proof fn lemma_edges_without(edges: Seq<(usize, usize)>, r: usize, n: nat)
    requires
        edges.no_duplicates(),
        r < n,
        forall|e: (usize, usize)| #[trigger] edges.contains(e) ==> e.0 < n && e.1 < n,
    ensures
        edges_without(edges, r, n).no_duplicates(),
        forall|x: usize, y: usize| #[trigger]
            edges_without(edges, r, n).contains((x, y)) ==> x < n - 1 && y < n - 1 && exists|
                u: usize,
                v: usize,
            | #[trigger]
                edges.contains((u, v)) && u != r && v != r && x == renumbered(u, r, n) && y
                    == renumbered(v, r, n),
        forall|u: usize, v: usize| #[trigger]
            edges.contains((u, v)) && u != r && v != r ==> edges_without(edges, r, n).contains(
                (renumbered(u, r, n), renumbered(v, r, n)),
            ),
    decreases edges.len(),
{
    reveal(Seq::filter);
    let s = edges_without(edges, r, n);
    if edges.len() == 0 {
        assert(s =~= Seq::<(usize, usize)>::empty());
    } else {
        let front = edges.drop_last();
        let last = edges.last();
        assert(edges =~= front.push(last));
        assert forall|e: (usize, usize)| #[trigger] front.contains(e) implies e.0 < n && e.1 < n by {
            let k = choose|k: int| 0 <= k < front.len() && front[k] == e;
            assert(edges[k] == e);
            assert(edges.contains(e));
        }
        lemma_edges_without(front, r, n);
        let fs = edges_without(front, r, n);
        assert(edges.contains(last)) by {
            assert(edges[edges.len() - 1] == last);
        }
        assert(!front.contains(last)) by {
            if front.contains(last) {
                let k = choose|k: int| 0 <= k < front.len() && front[k] == last;
                assert(edges[k] == edges[edges.len() - 1]);
            }
        }
        let img = (renumbered(last.0, r, n), renumbered(last.1, r, n));
        let kept = last.0 != r && last.1 != r;
        if kept {
            assert(s =~= fs.push(img));
            assert(!fs.contains(img)) by {
                if fs.contains(img) {
                    let (u, v) = choose|u: usize, v: usize| #[trigger]
                        front.contains((u, v)) && u != r && v != r && img.0 == renumbered(u, r, n)
                            && img.1 == renumbered(v, r, n);
                    assert((u, v) == last);
                }
            }
        } else {
            assert(s =~= fs);
        }
        assert forall|x: usize, y: usize| #[trigger] s.contains((x, y)) implies x < n - 1 && y < n
            - 1 && exists|u: usize, v: usize| #[trigger]
            edges.contains((u, v)) && u != r && v != r && x == renumbered(u, r, n) && y
                == renumbered(v, r, n) by {
            let j = choose|j: int| 0 <= j < s.len() && s[j] == (x, y);
            if j < fs.len() {
                assert(fs[j] == (x, y));
                assert(fs.contains((x, y)));
                let (u, v) = choose|u: usize, v: usize| #[trigger]
                    front.contains((u, v)) && u != r && v != r && x == renumbered(u, r, n) && y
                        == renumbered(v, r, n);
                let k = choose|k: int| 0 <= k < front.len() && front[k] == (u, v);
                assert(edges[k] == (u, v));
                assert(edges.contains((u, v)));
            } else {
                assert(edges.contains((last.0, last.1)));
            }
        }
        assert forall|u: usize, v: usize| #[trigger]
            edges.contains((u, v)) && u != r && v != r implies s.contains(
            (renumbered(u, r, n), renumbered(v, r, n)),
        ) by {
            let k = choose|k: int| 0 <= k < edges.len() && edges[k] == (u, v);
            if k < front.len() {
                assert(front[k] == (u, v));
                assert(front.contains((u, v)));
                let w = (renumbered(u, r, n), renumbered(v, r, n));
                let j = choose|j: int| 0 <= j < fs.len() && fs[j] == w;
                assert(s[j] == w);
            } else {
                assert(s[fs.len() as int] == img);
            }
        }
    }
}

} // verus!
