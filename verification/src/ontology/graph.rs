//! The directed graph of the `petgraph` crate, with `u32` node weights and no
//! edge weights, as the implication graph uses it.
//!
//! Nothing is proved here. A graph is described by three sequences: the weight
//! of each node in index order, the endpoints of each edge in index order, and
//! for each node the targets of the edges that leave it. Each function below says what one `petgraph` function does to them.

use vstd::prelude::*;

verus! {

#[verifier::external_type_specification]
#[verifier::external_body]
#[verifier::reject_recursive_types(N)]
#[verifier::reject_recursive_types(E)]
#[verifier::reject_recursive_types(Ty)]
#[verifier::reject_recursive_types(Ix)]
pub struct ExGraph<N, E, Ty, Ix>(petgraph::graph::Graph<N, E, Ty, Ix>);

#[verifier::external_type_specification]
#[verifier::external_body]
pub struct ExDirected(petgraph::Directed);

/// A graph of tag numbers.
pub type TagGraph = petgraph::graph::Graph<u32, (), petgraph::Directed, u32>;

/// The node weights of `g` in index order.
pub uninterp spec fn graph_nodes(g: TagGraph) -> Seq<u32>;

/// The endpoints, source first, of the edges of `g` in index order.
pub uninterp spec fn graph_edges(g: TagGraph) -> Seq<(usize, usize)>;

/// For each node of `g` in index order, the targets of the edges that leave it,
/// that of the edge added last first.
pub uninterp spec fn graph_out(g: TagGraph) -> Seq<Seq<usize>>;

/// `l` without `x`.
pub open spec fn without<A>(l: Seq<A>, x: A) -> Seq<A>
    decreases l.len(),
{
    if l.len() == 0 {
        Seq::empty()
    } else if l.last() == x {
        without(l.drop_last(), x)
    } else {
        without(l.drop_last(), x).push(l.last())
    }
}

/// An edge leads from element `i` of `p` to the next.
pub open spec fn steps<A>(edges: Set<(A, A)>, p: Seq<A>, i: int) -> bool {
    edges.contains((p[i], p[i + 1]))
}

/// A walk along edges from the first to the last element of `p`.
pub open spec fn is_walk<A>(edges: Set<(A, A)>, p: Seq<A>) -> bool {
    &&& p.len() > 0
    &&& forall|i: int| 0 <= i < p.len() - 1 ==> #[trigger] steps(edges, p, i)
}

/// Some walk of at least one edge leads from `a` back to `a`.
pub open spec fn on_cycle<A>(edges: Set<(A, A)>, a: A) -> bool {
    exists|p: Seq<A>| #[trigger] is_walk(edges, p) && p.len() > 1 && p[0] == a && p.last() == a
}

/// `order` lists the numbers below `n`, each once, such that every edge leads forward.
pub open spec fn is_topological(order: Seq<usize>, n: nat, edges: Seq<(usize, usize)>) -> bool {
    &&& order.len() == n
    &&& order.no_duplicates()
    &&& forall|i: int| 0 <= i < order.len() ==> #[trigger] order[i] < n
    &&& forall|i: int, j: int|
        0 <= i < n && 0 <= j < n && edges.contains((#[trigger] order[i], #[trigger] order[j])) ==> i
            < j
}

/// The index of a node after `removed` was taken out of `n` nodes and the
/// last node took its place.
pub open spec fn renumbered(x: usize, removed: usize, n: nat) -> usize {
    if x == n - 1 {
        removed
    } else {
        x
    }
}

/// The edges that remain, renumbered, when node `removed` of `n` is taken out.
pub open spec fn edges_without(edges: Seq<(usize, usize)>, removed: usize, n: nat) -> Seq<
    (usize, usize),
> {
    edges.filter(|e: (usize, usize)| e.0 != removed && e.1 != removed).map_values(
        |e: (usize, usize)| (renumbered(e.0, removed, n), renumbered(e.1, removed, n)),
    )
}

/// The targets that remain in a list, renumbered, when node `removed` of `n` is
/// taken out.
pub open spec fn list_without(l: Seq<usize>, removed: usize, n: nat) -> Seq<usize> {
    without(l, removed).map_values(|x: usize| renumbered(x, removed, n))
}

/// The lists of the nodes that remain when node `removed` is taken out and the
/// last node takes its place.
pub open spec fn lists_without(out: Seq<Seq<usize>>, removed: usize) -> Seq<Seq<usize>> {
    out.update(removed as int, out.last()).drop_last().map_values(
        |l: Seq<usize>| list_without(l, removed, out.len()),
    )
}

/// The targets of the edges that leave `n`.
pub open spec fn targets(edges: Seq<(usize, usize)>, n: usize) -> Seq<usize> {
    edges.filter(|e: (usize, usize)| e.0 == n).map_values(|e: (usize, usize)| e.1)
}

/// `petgraph::graph::Graph::new`: a graph with no node and no edge.
#[verifier::external_body]
pub(crate) fn graph_new() -> (g: TagGraph)
    ensures
        graph_nodes(g) == Seq::<u32>::empty(),
        graph_edges(g) == Seq::<(usize, usize)>::empty(),
        graph_out(g) == Seq::<Seq<usize>>::empty(),
{
    petgraph::graph::Graph::new()
}

/// `petgraph::graph::Graph::clone`: a graph with the same nodes and edges
/// under the same indices, linked in the same order.
#[verifier::external_body]
pub(crate) fn graph_clone(g: &TagGraph) -> (r: TagGraph)
    ensures
        graph_nodes(r) == graph_nodes(*g),
        graph_edges(r) == graph_edges(*g),
        graph_out(r) == graph_out(*g),
{
    g.clone()
}

/// `petgraph::graph::Graph::node_count`: the number of nodes.
#[verifier::external_body]
pub(crate) fn graph_node_count(g: &TagGraph) -> (r: usize)
    ensures
        r == graph_nodes(*g).len(),
{
    g.node_count()
}

/// `petgraph::graph::Graph::edge_count`: the number of edges.
#[verifier::external_body]
pub(crate) fn graph_edge_count(g: &TagGraph) -> (r: usize)
    ensures
        r == graph_edges(*g).len(),
{
    g.edge_count()
}

/// `petgraph::graph::Graph::add_node`: the new node gets the next index. It
/// panics when every `u32` index but the largest is taken.
#[verifier::external_body]
pub(crate) fn graph_add_node(g: &mut TagGraph, weight: u32) -> (r: usize)
    requires
        graph_nodes(*old(g)).len() < u32::MAX,
    ensures
        r == graph_nodes(*old(g)).len(),
        graph_nodes(*final(g)) == graph_nodes(*old(g)).push(weight),
        graph_edges(*final(g)) == graph_edges(*old(g)),
        graph_out(*final(g)) == graph_out(*old(g)).push(Seq::empty()),
{
    g.add_node(weight).index()
}

/// `petgraph::graph::Graph::index`: the weight of node `n`. It panics when
/// there is no such node.
#[verifier::external_body]
pub(crate) fn graph_weight(g: &TagGraph, n: usize) -> (r: u32)
    requires
        n < graph_nodes(*g).len(),
    ensures
        r == graph_nodes(*g)[n as int],
{
    g[petgraph::graph::NodeIndex::new(n)]
}

/// `petgraph::graph::Graph::find_edge`: the index of some edge from `a` to
/// `b`, if there is one.
#[verifier::external_body]
pub(crate) fn graph_find_edge(g: &TagGraph, a: usize, b: usize) -> (r: Option<usize>)
    requires
        a < graph_nodes(*g).len(),
        b < graph_nodes(*g).len(),
    ensures
        match r {
            Some(e) => e < graph_edges(*g).len() && graph_edges(*g)[e as int] == (a, b),
            None => !graph_edges(*g).contains((a, b)),
        },
{
    g.find_edge(petgraph::graph::NodeIndex::new(a), petgraph::graph::NodeIndex::new(b)).map(
        |e| e.index(),
    )
}

/// `petgraph::graph::Graph::add_edge`: the new edge gets the next index, and
/// comes first among those that leave its source. It panics when an endpoint
/// does not exist, or when every `u32` index but the largest is taken.
#[verifier::external_body]
pub(crate) fn graph_add_edge(g: &mut TagGraph, a: usize, b: usize) -> (r: usize)
    requires
        a < graph_nodes(*old(g)).len(),
        b < graph_nodes(*old(g)).len(),
        graph_edges(*old(g)).len() < u32::MAX,
    ensures
        r == graph_edges(*old(g)).len(),
        graph_nodes(*final(g)) == graph_nodes(*old(g)),
        graph_edges(*final(g)) == graph_edges(*old(g)).push((a, b)),
        graph_out(*final(g)) == graph_out(*old(g)).update(
            a as int,
            seq![b] + graph_out(*old(g))[a as int],
        ),
{
    g.add_edge(petgraph::graph::NodeIndex::new(a), petgraph::graph::NodeIndex::new(b), ()).index()
}

/// `petgraph::graph::Graph::remove_edge`: edge `e` goes, and the last edge
/// takes its index. The other edges stay linked in their order; what that
/// leaves is claimed where no edge is doubled.
#[verifier::external_body]
pub(crate) fn graph_remove_edge(g: &mut TagGraph, e: usize)
    requires
        e < graph_edges(*old(g)).len(),
    ensures
        graph_nodes(*final(g)) == graph_nodes(*old(g)),
        graph_edges(*final(g)) == graph_edges(*old(g)).update(
            e as int,
            graph_edges(*old(g)).last(),
        ).drop_last(),
        graph_edges(*old(g)).no_duplicates() ==> graph_out(*final(g)) == graph_out(
            *old(g),
        ).update(
            graph_edges(*old(g))[e as int].0 as int,
            without(
                graph_out(*old(g))[graph_edges(*old(g))[e as int].0 as int],
                graph_edges(*old(g))[e as int].1,
            ),
        ),
{
    g.remove_edge(petgraph::graph::EdgeIndex::new(e));
}

/// `petgraph::graph::Graph::remove_node`: node `n` goes with every edge that
/// touches it, and the last node takes its index. The edges that remain stay
/// linked in their order; of their indices nothing is claimed.
#[verifier::external_body]
pub(crate) fn graph_remove_node(g: &mut TagGraph, n: usize)
    requires
        n < graph_nodes(*old(g)).len(),
    ensures
        graph_nodes(*final(g)) == graph_nodes(*old(g)).update(
            n as int,
            graph_nodes(*old(g)).last(),
        ).drop_last(),
        graph_edges(*final(g)).to_multiset() == edges_without(
            graph_edges(*old(g)),
            n,
            graph_nodes(*old(g)).len(),
        ).to_multiset(),
        graph_out(*final(g)) == lists_without(graph_out(*old(g)), n),
{
    g.remove_node(petgraph::graph::NodeIndex::new(n));
}

/// `petgraph::graph::Graph::neighbors_directed`, outgoing: the target of each
/// edge that leaves `n`, that of the edge added last first.
#[verifier::external_body]
pub(crate) fn graph_successors(g: &TagGraph, n: usize) -> (r: Vec<usize>)
    requires
        n < graph_nodes(*g).len(),
    ensures
        r@ == graph_out(*g)[n as int],
        r@.to_multiset() == targets(graph_edges(*g), n).to_multiset(),
{
    g.neighbors_directed(petgraph::graph::NodeIndex::new(n), petgraph::Direction::Outgoing).map(
        |x| x.index(),
    ).collect()
}

/// `petgraph::graph::Graph::edges_directed`, incoming, its first item: the
/// source of some edge that enters `n`, if there is one.
#[verifier::external_body]
pub(crate) fn graph_first_predecessor(g: &TagGraph, n: usize) -> (r: Option<usize>)
    requires
        n < graph_nodes(*g).len(),
    ensures
        match r {
            Some(s) => graph_edges(*g).contains((s, n)),
            None => forall|s: usize| !graph_edges(*g).contains((s, n)),
        },
{
    g.edges_directed(petgraph::graph::NodeIndex::new(n), petgraph::Direction::Incoming).next().map(
        |e| petgraph::visit::EdgeRef::source(&e).index(),
    )
}

/// `petgraph::graph::Graph::node_weights`: the weights in index order.
#[verifier::external_body]
pub(crate) fn graph_weights(g: &TagGraph) -> (r: Vec<u32>)
    ensures
        r@ == graph_nodes(*g),
{
    g.node_weights().map(|w| *w).collect()
}

/// `petgraph::graph::Graph::edge_references`: the endpoints of each edge in
/// index order.
#[verifier::external_body]
pub(crate) fn graph_edge_list(g: &TagGraph) -> (r: Vec<(usize, usize)>)
    ensures
        r@ == graph_edges(*g),
{
    g.edge_references().map(
        |e|
            (
                petgraph::visit::EdgeRef::source(&e).index(),
                petgraph::visit::EdgeRef::target(&e).index(),
            ),
    ).collect()
}

/// `petgraph::algo::toposort`: the nodes in an order in which every edge
/// leads forward, or, where a cycle forbids that, a node on a cycle.
#[verifier::external_body]
pub(crate) fn graph_toposort(g: &TagGraph) -> (r: Result<Vec<usize>, usize>)
    ensures
        match r {
            Ok(order) => is_topological(order@, graph_nodes(*g).len(), graph_edges(*g)),
            Err(n) => n < graph_nodes(*g).len() && on_cycle(graph_edges(*g).to_set(), n),
        },
{
    match petgraph::algo::toposort(g, None) {
        Ok(order) => Ok(order.into_iter().map(|n| n.index()).collect()),
        Err(cycle) => Err(cycle.node_id().index()),
    }
}

} // verus!
