//! Dominance between the scopes of a tree.

use vstd::prelude::*;

use array_tool::vec::Intersect;
use petgraph::algo::dominators::simple_fast;
use petgraph::graph::{Graph, NodeIndex};
use petgraph::Directed;

verus! {

/// Whether a list of nodes is a path along edges from a root to a node.
pub open spec fn is_path(
    edges: Seq<(usize, usize)>,
    root: usize,
    node: usize,
    path: Seq<usize>,
) -> bool {
    &&& path.len() > 0
    &&& path[0] == root
    &&& path.last() == node
    &&& forall|i: int, j: int|
        0 <= i < j < path.len() && j == i + 1 ==> edges.contains(
            (#[trigger] path[i], #[trigger] path[j]),
        )
}

/// Whether a node lies on every path from a root to another.
pub open spec fn dominates(
    edges: Seq<(usize, usize)>,
    root: usize,
    dominator: usize,
    node: usize,
) -> bool {
    forall|path: Seq<usize>| #[trigger]
        is_path(edges, root, node, path) ==> path.contains(dominator)
}

/// Whether some path leads from a root to a node.
pub open spec fn is_reachable(edges: Seq<(usize, usize)>, root: usize, node: usize) -> bool {
    exists|path: Seq<usize>| is_path(edges, root, node, path)
}

/// `petgraph::algo::dominators::simple_fast` finds the dominators of a graph,
/// and `Dominators::dominators` lists those of a node, the node itself first
/// and each before those that dominate it. For a node that no path reaches it
/// lists none.
#[verifier::external_body]
pub(crate) fn dominator_chains(edges: &Vec<(usize, usize)>, root: usize, count: usize) -> (chains: Vec<
    Vec<usize>,
>)
    requires
        edges@.len() > 0,
        root == edges@[0].0,
        forall|i: int|
            0 <= i < edges@.len() ==> (#[trigger] edges@[i]).0 < count && edges@[i].1 < count,
    ensures
        chains@.len() == count,
        forall|node: usize|
            #![trigger chains@[node as int]]
            node < count && is_reachable(edges@, root, node) ==> {
                let chain = chains@[node as int]@;
                &&& chain.len() > 0
                &&& chain[0] == node
                &&& chain.no_duplicates()
                &&& forall|other: usize|
                    chain.contains(other) <==> #[trigger] dominates(edges@, root, other, node)
                &&& forall|i: int, j: int|
                    #![trigger chain[i], chain[j]]
                    0 <= i < j < chain.len() ==> dominates(edges@, root, chain[j], chain[i])
            },
{
    let graph = Graph::<(), (), Directed, usize>::from_edges(edges.iter());
    let dominators = simple_fast(&graph, NodeIndex::new(root));
    (0..count)
        .map(|node| dominators.dominators(NodeIndex::new(node)))
        .map(|chain| chain.map_or(Vec::new(), |chain| chain.map(NodeIndex::index).collect()))
        .collect()
}

/// Whether the items of a list stand in the order of another list.
pub open spec fn keeps_order(items: Seq<usize>, list: Seq<usize>) -> bool {
    forall|i: int, j: int|
        0 <= i < j < items.len() ==> list.index_of(#[trigger] items[i]) < list.index_of(
            #[trigger] items[j],
        )
}

/// `Intersect::intersect` keeps what both lists hold, in the order of the
/// first, each item once.
#[verifier::external_body]
pub(crate) fn intersect(left: &Vec<usize>, right: Vec<usize>) -> (common: Vec<usize>)
    requires
        left@.no_duplicates(),
    ensures
        forall|item: usize| #[trigger]
            common@.contains(item) == (left@.contains(item) && right@.contains(item)),
        keeps_order(common@, left@),
{
    left.intersect(right)
}

} // verus!
