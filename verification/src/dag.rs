//! The graph container: a `petgraph` directed graph whose nodes carry tensor
//! identifiers and whose edges carry operand positions.
//!
//! Every function here hands one call to `petgraph`. What it is taken to do is
//! stated over [`dag_nodes`] and [`dag_edges`], the node and edge lists of the
//! graph in index order.

use petgraph::graph::{EdgeIndex, NodeIndex};
use petgraph::visit::EdgeRef;
use petgraph::Direction;
use vstd::prelude::*;

verus! {

/// The graph type of `petgraph`.
#[verifier::external_type_specification]
#[verifier::external_body]
#[verifier::reject_recursive_types(N)]
#[verifier::reject_recursive_types(E)]
#[verifier::reject_recursive_types(Ty)]
#[verifier::reject_recursive_types(Ix)]
pub struct ExGraph<N, E, Ty, Ix>(petgraph::graph::Graph<N, E, Ty, Ix>);

/// The marker of `petgraph` for directed edges.
#[verifier::external_type_specification]
#[verifier::external_body]
pub struct ExDirected(petgraph::Directed);

/// A directed graph from tensor identifiers, with operand positions on the
/// edges.
pub type Dag = petgraph::graph::Graph<u64, usize, petgraph::Directed, u32>;

/// An edge: its source, its target and its weight.
pub type Edge = (usize, usize, usize);

/// The node weights of a graph, in the order of the node indices.
pub uninterp spec fn dag_nodes(g: Dag) -> Seq<u64>;

/// The edges of a graph, in the order of the edge indices.
pub uninterp spec fn dag_edges(g: Dag) -> Seq<Edge>;

/// The edge has an end at node `a`.
pub open spec fn touches(e: Edge, a: usize) -> bool {
    e.0 == a || e.1 == a
}

/// Node `from` is called `to`, every other node keeps its name.
pub open spec fn renamed(n: usize, from: usize, to: usize) -> usize {
    if n == from {
        to
    } else {
        n
    }
}

/// The edge after node `from` has taken the name `to`.
pub open spec fn renamed_edge(e: Edge, from: usize, to: usize) -> Edge {
    (renamed(e.0, from, to), renamed(e.1, from, to), e.2)
}

/// The edges without an end at node `a`.
pub open spec fn avoiding(a: usize) -> spec_fn(Edge) -> bool {
    |e: Edge| !touches(e, a)
}

/// Renaming as a function on edges.
pub open spec fn renaming(from: usize, to: usize) -> spec_fn(Edge) -> Edge {
    |e: Edge| renamed_edge(e, from, to)
}

/// A sequence whose item `i` was replaced by the last one.
pub open spec fn swap_removed<A>(s: Seq<A>, i: int) -> Seq<A> {
    s.update(i, s.last()).drop_last()
}

/// `Graph::new`: a graph without nodes and edges.
#[verifier::external_body]
pub(crate) fn dag_new() -> (g: Dag)
    ensures
        dag_nodes(g).len() == 0,
        dag_edges(g).len() == 0,
{
    petgraph::graph::Graph::new()
}

/// `Graph::node_count`: the number of nodes.
#[verifier::external_body]
pub(crate) fn dag_node_count(g: &Dag) -> (n: usize)
    ensures
        n == dag_nodes(*g).len(),
{
    g.node_count()
}

/// `Graph::edge_count`: the number of edges.
#[verifier::external_body]
pub(crate) fn dag_edge_count(g: &Dag) -> (n: usize)
    ensures
        n == dag_edges(*g).len(),
{
    g.edge_count()
}

/// `Graph::node_weight`: the weight of an existing node.
#[verifier::external_body]
pub(crate) fn dag_node_weight(g: &Dag, n: usize) -> (w: u64)
    requires
        n < dag_nodes(*g).len(),
        n < u32::MAX,
    ensures
        w == dag_nodes(*g)[n as int],
{
    *g.node_weight(NodeIndex::new(n)).unwrap()
}

/// `Graph::node_weight_mut`: replaces the weight of an existing node.
#[verifier::external_body]
pub(crate) fn dag_set_node_weight(g: &mut Dag, n: usize, w: u64)
    requires
        n < dag_nodes(*old(g)).len(),
        n < u32::MAX,
    ensures
        dag_nodes(*final(g)) == dag_nodes(*old(g)).update(n as int, w),
        dag_edges(*final(g)) == dag_edges(*old(g)),
{
    *g.node_weight_mut(NodeIndex::new(n)).unwrap() = w;
}

/// `Graph::add_node`: a new node behind the others, whose index is returned.
#[verifier::external_body]
pub(crate) fn dag_add_node(g: &mut Dag, w: u64) -> (n: usize)
    requires
        dag_nodes(*old(g)).len() < u32::MAX,
    ensures
        n == dag_nodes(*old(g)).len(),
        dag_nodes(*final(g)) == dag_nodes(*old(g)).push(w),
        dag_edges(*final(g)) == dag_edges(*old(g)),
{
    g.add_node(w).index()
}

/// `Graph::add_edge`: a new edge behind the others, between existing nodes.
#[verifier::external_body]
pub(crate) fn dag_add_edge(g: &mut Dag, source: usize, target: usize, w: usize)
    requires
        source < dag_nodes(*old(g)).len(),
        target < dag_nodes(*old(g)).len(),
        source < u32::MAX,
        target < u32::MAX,
        dag_edges(*old(g)).len() < u32::MAX,
    ensures
        dag_nodes(*final(g)) == dag_nodes(*old(g)),
        dag_edges(*final(g)) == dag_edges(*old(g)).push((source, target, w)),
{
    g.add_edge(NodeIndex::new(source), NodeIndex::new(target), w);
}

/// `Graph::remove_edge`: the last edge takes the place of the removed one.
#[verifier::external_body]
pub(crate) fn dag_remove_edge(g: &mut Dag, e: usize)
    requires
        e < dag_edges(*old(g)).len(),
        e < u32::MAX,
    ensures
        dag_nodes(*final(g)) == dag_nodes(*old(g)),
        dag_edges(*final(g)) == swap_removed(dag_edges(*old(g)), e as int),
{
    g.remove_edge(EdgeIndex::new(e));
}

/// `Graph::remove_node`: the edges at the node go with it, and the last node
/// takes its place. The order of the remaining edges is left open.
#[verifier::external_body]
pub(crate) fn dag_remove_node(g: &mut Dag, n: usize)
    requires
        n < dag_nodes(*old(g)).len(),
        n < u32::MAX,
    ensures
        dag_nodes(*final(g)) == swap_removed(dag_nodes(*old(g)), n as int),
        dag_edges(*final(g)).to_multiset() == dag_edges(*old(g)).filter(
            avoiding(n),
        ).map_values(
            renaming((dag_nodes(*old(g)).len() - 1) as usize, n),
        ).to_multiset(),
{
    g.remove_node(NodeIndex::new(n));
}

/// `Graph::edges_directed`: the edges that leave a node (`outgoing`) or that
/// reach it, each once, with their indices. Their order is left open.
#[verifier::external_body]
pub(crate) fn dag_edges_directed(g: &Dag, n: usize, outgoing: bool) -> (out: Vec<(usize, Edge)>)
    requires
        n < dag_nodes(*g).len(),
        n < u32::MAX,
    ensures
        forall|i: int|
            0 <= i < out@.len() ==> {
                let (id, e) = #[trigger] out@[i];
                &&& id < dag_edges(*g).len()
                &&& e == dag_edges(*g)[id as int]
                &&& n == (if outgoing {
                    e.0
                } else {
                    e.1
                })
            },
        forall|i: int, j: int|
            0 <= i < j < out@.len() ==> (#[trigger] out@[i]).0 != (#[trigger] out@[j]).0,
        forall|id: int|
            #![trigger dag_edges(*g)[id]]
            0 <= id < dag_edges(*g).len() && n == (if outgoing {
                dag_edges(*g)[id].0
            } else {
                dag_edges(*g)[id].1
            }) ==> exists|i: int| 0 <= i < out@.len() && (#[trigger] out@[i]).0 == id,
{
    let dir = if outgoing { Direction::Outgoing } else { Direction::Incoming };
    g.edges_directed(NodeIndex::new(n), dir)
        .map(|e| (e.id().index(), (e.source().index(), e.target().index(), *e.weight())))
        .collect()
}

} // verus!
