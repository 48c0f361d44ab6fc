//! Directed graphs whose nodes and edges keep their numbers while others come
//! and go.

use vstd::prelude::*;

use petgraph::stable_graph::StableGraph;
use petgraph::visit::{Dfs, EdgeRef, IntoEdgeReferences, Walker};
use petgraph::{Directed, Direction};

verus! {

/// A graph that keeps the numbers of its nodes and edges.
#[verifier::external_type_specification]
#[verifier::external_body]
#[verifier::reject_recursive_types(N)]
#[verifier::reject_recursive_types(E)]
#[verifier::reject_recursive_types(Ty)]
#[verifier::reject_recursive_types(Ix)]
pub struct ExStableGraph<N, E, Ty, Ix>(StableGraph<N, E, Ty, Ix>);

/// The mark of a directed graph.
#[verifier::external_type_specification]
#[verifier::external_body]
pub struct ExDirected(Directed);

/// A directed graph whose nodes and edges carry numbers.
pub type NumberGraph = StableGraph<u64, u64, Directed, u32>;

/// The number of a node.
pub type NodeId = u32;

/// The nodes of a graph: what each carries, by its number.
pub uninterp spec fn graph_nodes(graph: NumberGraph) -> Map<u32, u64>;

/// The edges of a graph, in the order that they were added.
pub uninterp spec fn graph_edges(graph: NumberGraph) -> Seq<(u32, u32, u32, u64)>;

/// The edges that leave a node, the one added last first.
pub open spec fn leaving(edges: Seq<(u32, u32, u32, u64)>, node: u32) -> Seq<(u32, u32, u32, u64)>
    decreases edges.len(),
{
    if edges.len() == 0 {
        edges
    } else if edges.last().1 == node {
        seq![edges.last()] + leaving(edges.drop_last(), node)
    } else {
        leaving(edges.drop_last(), node)
    }
}

/// The edges that enter a node, the one added last first.
pub open spec fn entering(edges: Seq<(u32, u32, u32, u64)>, node: u32) -> Seq<(u32, u32, u32, u64)>
    decreases edges.len(),
{
    if edges.len() == 0 {
        edges
    } else if edges.last().2 == node {
        seq![edges.last()] + entering(edges.drop_last(), node)
    } else {
        entering(edges.drop_last(), node)
    }
}

/// The edges that neither leave nor enter a node.
pub open spec fn avoiding(edges: Seq<(u32, u32, u32, u64)>, node: u32) -> Seq<(u32, u32, u32, u64)>
    decreases edges.len(),
{
    if edges.len() == 0 {
        edges
    } else if edges.last().1 == node || edges.last().2 == node {
        avoiding(edges.drop_last(), node)
    } else {
        avoiding(edges.drop_last(), node).push(edges.last())
    }
}

/// Whether an edge has a number.
pub open spec fn has_edge(edges: Seq<(u32, u32, u32, u64)>, id: u32) -> bool {
    exists|i: int| 0 <= i < edges.len() && (#[trigger] edges[i]).0 == id
}

/// `StableGraph::default` gives a graph without nodes or edges.
#[verifier::external_body]
pub(crate) fn empty_graph() -> (graph: NumberGraph)
    ensures
        graph_nodes(graph).dom() == Set::<u32>::empty(),
        graph_edges(graph).len() == 0,
{
    StableGraph::default()
}

/// `StableGraph::add_node` adds a node under a number that no node has. It
/// panics when the numbers run out.
#[verifier::external_body]
pub(crate) fn add_node(graph: &mut NumberGraph, weight: u64) -> (node: u32)
    requires
        graph_nodes(*old(graph)).dom().len() < 0xffff_ffff,
    ensures
        !graph_nodes(*old(graph)).dom().contains(node),
        graph_nodes(*final(graph)) == graph_nodes(*old(graph)).insert(node, weight),
        graph_edges(*final(graph)) == graph_edges(*old(graph)),
{
    graph.add_node(weight).index() as u32
}

/// `StableGraph::remove_node` takes a node out, with the edges at it, and
/// gives what it carried.
#[verifier::external_body]
pub(crate) fn remove_node(graph: &mut NumberGraph, node: u32) -> (weight: Option<u64>)
    ensures
        graph_nodes(*final(graph)) == graph_nodes(*old(graph)).remove(node),
        graph_nodes(*old(graph)).dom().contains(node) ==> weight == Some(
            graph_nodes(*old(graph))[node],
        ) && graph_edges(*final(graph)) == avoiding(graph_edges(*old(graph)), node),
        !graph_nodes(*old(graph)).dom().contains(node) ==> weight is None && graph_edges(
            *final(graph),
        ) == graph_edges(*old(graph)),
{
    graph.remove_node(petgraph::stable_graph::NodeIndex::new(node as usize))
}

/// `StableGraph::add_edge` adds an edge between two nodes under a number that
/// no edge has. It panics when a node is missing or the numbers run out.
#[verifier::external_body]
pub(crate) fn add_edge(graph: &mut NumberGraph, source: u32, target: u32, weight: u64) -> (id: u32)
    requires
        graph_nodes(*old(graph)).dom().contains(source),
        graph_nodes(*old(graph)).dom().contains(target),
        graph_edges(*old(graph)).len() < 0xffff_ffff,
    ensures
        !has_edge(graph_edges(*old(graph)), id),
        graph_nodes(*final(graph)) == graph_nodes(*old(graph)),
        graph_edges(*final(graph)) == graph_edges(*old(graph)).push((id, source, target, weight)),
{
    let from = petgraph::stable_graph::NodeIndex::new(source as usize);
    let to = petgraph::stable_graph::NodeIndex::new(target as usize);
    graph.add_edge(from, to, weight).index() as u32
}

/// `StableGraph::remove_edge` takes the edge of a number out and leaves the
/// order of the others as it is.
#[verifier::external_body]
pub(crate) fn remove_edge(graph: &mut NumberGraph, id: u32) -> (weight: Option<u64>)
    ensures
        graph_nodes(*final(graph)) == graph_nodes(*old(graph)),
        !has_edge(graph_edges(*old(graph)), id) ==> weight is None && graph_edges(*final(graph))
            == graph_edges(*old(graph)),
        forall|i: int|
            #![trigger graph_edges(*old(graph))[i]]
            0 <= i < graph_edges(*old(graph)).len() && graph_edges(*old(graph))[i].0 == id
                ==> weight == Some(graph_edges(*old(graph))[i].3) && graph_edges(*final(graph))
                == graph_edges(*old(graph)).remove(i),
{
    graph.remove_edge(petgraph::stable_graph::EdgeIndex::new(id as usize))
}

/// `StableGraph::contains_node` tells whether a number is that of a node.
#[verifier::external_body]
pub(crate) fn contains_node(graph: &NumberGraph, node: u32) -> (result: bool)
    ensures
        result == graph_nodes(*graph).dom().contains(node),
{
    graph.contains_node(petgraph::stable_graph::NodeIndex::new(node as usize))
}

/// `StableGraph::node_weight` gives what a node carries.
#[verifier::external_body]
pub(crate) fn node_weight(graph: &NumberGraph, node: u32) -> (weight: Option<u64>)
    ensures
        weight == (if graph_nodes(*graph).dom().contains(node) {
            Some(graph_nodes(*graph)[node])
        } else {
            None
        }),
{
    graph.node_weight(petgraph::stable_graph::NodeIndex::new(node as usize)).copied()
}

/// `StableGraph::node_indices` gives the numbers of the nodes, the lowest
/// first.
#[verifier::external_body]
pub(crate) fn node_indices(graph: &NumberGraph) -> (nodes: Vec<u32>)
    ensures
        nodes@.to_set() == graph_nodes(*graph).dom(),
        forall|i: int, j: int| 0 <= i < j < nodes@.len() ==> nodes@[i] < nodes@[j],
{
    graph.node_indices().map(|node| node.index() as u32).collect()
}

/// `StableGraph::edges_directed` gives the edges at a node in one direction,
/// the one added last first.
#[verifier::external_body]
pub(crate) fn edges_directed(graph: &NumberGraph, node: u32, outgoing: bool) -> (edges: Vec<
    (u32, u32, u32, u64),
>)
    ensures
        outgoing ==> edges@ == leaving(graph_edges(*graph), node),
        !outgoing ==> edges@ == entering(graph_edges(*graph), node),
{
    let way = if outgoing { Direction::Outgoing } else { Direction::Incoming };
    graph
        .edges_directed(petgraph::stable_graph::NodeIndex::new(node as usize), way)
        .map(|e| (e.id().index() as u32, e.source().index() as u32, e.target().index() as u32, *e.weight()))
        .collect()
}

/// `StableGraph::edge_references` gives every edge once, the one with the
/// lowest number first.
#[verifier::external_body]
pub(crate) fn edge_references(graph: &NumberGraph) -> (edges: Vec<(u32, u32, u32, u64)>)
    ensures
        edges@.to_multiset() == graph_edges(*graph).to_multiset(),
        forall|i: int, j: int| 0 <= i < j < edges@.len() ==> edges@[i].0 < edges@[j].0,
{
    graph
        .edge_references()
        .map(|e| (e.id().index() as u32, e.source().index() as u32, e.target().index() as u32, *e.weight()))
        .collect()
}

/// The pairs of nodes that edges join.
pub open spec fn graph_arcs(edges: Seq<(u32, u32, u32, u64)>) -> Set<(u32, u32)> {
    Set::new(
        |arc: (u32, u32)|
            exists|i: int|
                0 <= i < edges.len() && (#[trigger] edges[i]).1 == arc.0 && edges[i].2 == arc.1,
    )
}

/// Whether an arc joins the node at a place of a list to the next.
pub open spec fn follows(arcs: Set<(u32, u32)>, path: Seq<u32>, place: int) -> bool {
    arcs.contains((path[place], path[place + 1]))
}

/// Whether a list of nodes follows the arcs.
pub open spec fn is_path(arcs: Set<(u32, u32)>, path: Seq<u32>) -> bool {
    &&& path.len() > 0
    &&& forall|i: int| 0 <= i < path.len() - 1 ==> #[trigger] follows(arcs, path, i)
}

/// Whether a list of nodes leads along the arcs from one node to another.
pub open spec fn leads(arcs: Set<(u32, u32)>, from: u32, to: u32, path: Seq<u32>) -> bool {
    is_path(arcs, path) && path[0] == from && path.last() == to
}

/// Whether a node can be reached from another along the arcs.
pub open spec fn reaches(arcs: Set<(u32, u32)>, from: u32, to: u32) -> bool {
    exists|path: Seq<u32>| leads(arcs, from, to, path)
}

/// Whether every way from `root` to `node` passes `dominator`.
pub open spec fn dominates(arcs: Set<(u32, u32)>, root: u32, dominator: u32, node: u32) -> bool {
    forall|path: Seq<u32>| #[trigger] leads(arcs, root, node, path) ==> path.contains(dominator)
}

/// Whether a list is the dominators of a node, the nearest first.
pub open spec fn is_dominator_chain(
    arcs: Set<(u32, u32)>,
    root: u32,
    node: u32,
    chain: Seq<u32>,
) -> bool {
    &&& chain.len() > 0
    &&& chain[0] == node
    &&& chain.no_duplicates()
    &&& forall|other: u32| #[trigger] chain.contains(other) <==> dominates(arcs, root, other, node)
    &&& forall|i: int, j: int|
        0 <= i <= j < chain.len() ==> dominates(arcs, root, #[trigger] chain[j], #[trigger] chain[i])
}

/// Whether a list holds the nodes that a start reaches, each once, the start
/// first and each other after one that an arc leads from.
pub open spec fn is_walk(arcs: Set<(u32, u32)>, start: u32, nodes: Seq<u32>) -> bool {
    &&& nodes.len() > 0
    &&& nodes[0] == start
    &&& nodes.no_duplicates()
    &&& forall|node: u32| #[trigger] nodes.contains(node) <==> reaches(arcs, start, node)
    &&& forall|j: int| 0 < j < nodes.len() ==> #[trigger] follows_earlier(arcs, nodes, j)
}

/// Whether an arc leads to a node of a list from one before it.
pub open spec fn follows_earlier(arcs: Set<(u32, u32)>, nodes: Seq<u32>, j: int) -> bool {
    exists|i: int| 0 <= i < j && arcs.contains((#[trigger] nodes[i], nodes[j]))
}

/// The nodes that a start reaches, in the order of a depth-first walk.
pub uninterp spec fn walk_order(edges: Seq<(u32, u32, u32, u64)>, start: u32) -> Seq<u32>;

/// `Dfs::new` and `Walker::iter` visit the nodes that a start reaches, depth
/// first. The order among the nodes that one node leads to is not stated.
#[verifier::external_body]
pub(crate) fn depth_first(graph: &NumberGraph, start: u32) -> (nodes: Vec<u32>)
    requires
        graph_nodes(*graph).dom().contains(start),
    ensures
        nodes@ == walk_order(graph_edges(*graph), start),
        is_walk(graph_arcs(graph_edges(*graph)), start, nodes@),
{
    let start = petgraph::stable_graph::NodeIndex::new(start as usize);
    Dfs::new(graph, start).iter(graph).map(|node| node.index() as u32).collect()
}

/// A node number as the graph knows it.
#[verifier::external_type_specification]
#[verifier::external_body]
#[verifier::reject_recursive_types(Ix)]
pub struct ExNodeIndex<Ix>(petgraph::stable_graph::NodeIndex<Ix>);

/// The dominators of the nodes that a root reaches.
#[verifier::external_type_specification]
#[verifier::external_body]
#[verifier::reject_recursive_types(N)]
pub struct ExDominators<N: Copy + Eq + std::hash::Hash>(
    petgraph::algo::dominators::Dominators<N>,
);

/// The dominators of graph nodes.
pub type NodeDominators = petgraph::algo::dominators::Dominators<
    petgraph::stable_graph::NodeIndex<u32>,
>;

/// The dominators of each node that the root reaches, the nearest first.
pub uninterp spec fn dominator_chains(dominators: NodeDominators) -> Map<u32, Seq<u32>>;

/// `dominators::simple_fast` finds the dominators of the nodes that a root
/// reaches.
#[verifier::external_body]
pub(crate) fn simple_fast(graph: &NumberGraph, root: u32) -> (dominators: NodeDominators)
    requires
        graph_nodes(*graph).dom().contains(root),
    ensures
        forall|node: u32| #[trigger]
            dominator_chains(dominators).dom().contains(node) <==> reaches(
                graph_arcs(graph_edges(*graph)),
                root,
                node,
            ),
        forall|node: u32| #[trigger]
            dominator_chains(dominators).dom().contains(node) ==> is_dominator_chain(
                graph_arcs(graph_edges(*graph)),
                root,
                node,
                dominator_chains(dominators)[node],
            ),
{
    let start = petgraph::stable_graph::NodeIndex::new(root as usize);
    petgraph::algo::dominators::simple_fast(graph, start)
}

/// `Dominators::dominators` gives the dominators of a node, the nearest first,
/// where the root reaches it.
#[verifier::external_body]
pub(crate) fn dominators_of(dominators: &NodeDominators, node: u32) -> (chain: Option<Vec<u32>>)
    ensures
        match chain {
            Some(chain) => dominator_chains(*dominators).dom().contains(node) && chain@
                == dominator_chains(*dominators)[node],
            None => !dominator_chains(*dominators).dom().contains(node),
        },
{
    let place = petgraph::stable_graph::NodeIndex::new(node as usize);
    dominators.dominators(place).map(|chain| chain.map(|n| n.index() as u32).collect())
}

/// `kosaraju_scc` parts the nodes into the largest sets whose members all
/// reach each other. The order of the sets and in them is left unsaid.
#[verifier::external_body]
pub(crate) fn kosaraju_scc(graph: &NumberGraph) -> (parts: Vec<Vec<u32>>)
    ensures
        forall|i: int| 0 <= i < parts@.len() ==> (#[trigger] parts@[i])@.no_duplicates(),
        forall|node: u32|
            graph_nodes(*graph).dom().contains(node) <==> exists|i: int|
                0 <= i < parts@.len() && (#[trigger] parts@[i])@.contains(node),
        forall|i: int, j: int, a: u32, b: u32|
            0 <= i < parts@.len() && 0 <= j < parts@.len() && (#[trigger] parts@[i]@.contains(a))
                && (#[trigger] parts@[j]@.contains(b)) ==> (i == j <==> (reaches(
                graph_arcs(graph_edges(*graph)),
                a,
                b,
            ) && reaches(graph_arcs(graph_edges(*graph)), b, a))),
        forall|i: int| 0 <= i < parts@.len() ==> (#[trigger] parts@[i])@.len() > 0,
{
    petgraph::algo::kosaraju_scc(graph)
        .into_iter()
        .map(|part| part.into_iter().map(|node| node.index() as u32).collect())
        .collect()
}

} // verus!
