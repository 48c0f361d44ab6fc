//! Functions as graphs of blocks.

use vstd::prelude::*;

use rustc_hash::FxHashMap;

use crate::ast::local::{Local, Locals, RcLocal};
use crate::ast::nodes;
use crate::ast::nodes::{Block, RValue, StatementView};
use crate::ast::{is_valid_identifier, IdentifierContext, LocalRw};
use crate::cfg::block::{BlockEdge, BranchType, EdgeView};
use crate::cfg::graph;
use crate::cfg::graph::{
    add_edge, add_node, contains_node, edges_directed, empty_graph, node_indices, node_weight,
    remove_edge, remove_node, NodeId, NumberGraph,
};
use crate::cfg::provenance::{
    BindingIdentity, BindingView, DebugLifetime, FamilyView, LifetimeView, LocalProvenanceView,
    OriginSet, OriginView, Provenance, RegisterFamily, SourceOrigin,
};
use crate::collections::{empty_map, entry_keys, find_entry, insert_entry, remove_entry};

verus! {

broadcast use nodes::group_views;

/// A function under analysis: a graph of blocks, and where its locals come
/// from.
#[derive(Debug)]
pub struct Function {
    pub id: usize,
    pub name: Option<String>,
    pub parameters: Vec<RcLocal>,
    pub is_variadic: bool,
    graph: NumberGraph,
    blocks: Vec<Block>,
    edges: Vec<BlockEdge>,
    entry: Option<NodeId>,
    provenance: Provenance,
    bindings: FxHashMap<u64, BindingIdentity>,
    register_families: FxHashMap<u64, RegisterFamily>,
    statement_origins: FxHashMap<u64, Vec<OriginSet>>,
    next_synthetic_binding: usize,
}

/// The model of a function under analysis.
#[verifier::ext_equal]
pub struct CfgView {
    pub id: usize,
    pub name: Option<Seq<char>>,
    pub parameters: Seq<RcLocal>,
    pub is_variadic: bool,
    pub blocks: Map<u32, Seq<StatementView>>,
    pub edges: Seq<EdgeView>,
    pub entry: Option<u32>,
    pub provenance: Map<u64, LocalProvenanceView>,
    pub bindings: Map<u64, BindingView>,
    pub families: Map<u64, FamilyView>,
    pub origins: Map<u64, Seq<Set<OriginView>>>,
    pub next_synthetic: nat,
}

impl OriginSet {
    /// The models of a list of sets.
    pub open spec fn views(sets: Seq<OriginSet>) -> Seq<Set<OriginView>> {
        Seq::new(sets.len(), |i: int| sets[i]@)
    }
}

impl Function {
    spec fn edge_view(&self, edge: (u32, u32, u32, u64)) -> EdgeView {
        EdgeView {
            id: edge.0,
            source: edge.1,
            target: edge.2,
            branch: self.edges@[edge.3 as int].branch_type,
            arguments: BlockEdge::argument_views(self.edges@[edge.3 as int].arguments@),
        }
    }

    pub closed spec fn view(&self) -> CfgView {
        CfgView {
            id: self.id,
            name: crate::ast::local::text_of(self.name),
            parameters: self.parameters@,
            is_variadic: self.is_variadic,
            blocks: Map::new(
                |node: u32| graph::graph_nodes(self.graph).dom().contains(node),
                |node: u32| self.blocks@[graph::graph_nodes(self.graph)[node] as int]@,
            ),
            edges: Seq::new(
                graph::graph_edges(self.graph).len(),
                |i: int| self.edge_view(graph::graph_edges(self.graph)[i]),
            ),
            entry: self.entry,
            provenance: self.provenance@,
            bindings: Map::new(
                |id: u64| self.bindings@.dom().contains(id),
                |id: u64| self.bindings@[id]@,
            ),
            families: Map::new(
                |id: u64| self.register_families@.dom().contains(id),
                |id: u64| self.register_families@[id]@,
            ),
            origins: Map::new(
                |node: u64| self.statement_origins@.dom().contains(node),
                |node: u64| OriginSet::views(self.statement_origins@[node]@),
            ),
            next_synthetic: self.next_synthetic_binding as nat,
        }
    }

    /// Every node has a block of its own, every edge joins two nodes and has
    /// its own number and arguments, and no set of origins lists one twice.
    pub closed spec fn well_formed(&self) -> bool {
        let nodes = graph::graph_nodes(self.graph);
        let edges = graph::graph_edges(self.graph);
        &&& nodes.dom().finite()
        &&& forall|node: u32|
            nodes.dom().contains(node) ==> (#[trigger] nodes[node]) < self.blocks@.len()
        &&& forall|a: u32, b: u32|
            nodes.dom().contains(a) && nodes.dom().contains(b) && a != b ==> (#[trigger] nodes[a])
                != (#[trigger] nodes[b])
        &&& forall|i: int|
            0 <= i < edges.len() ==> {
                &&& (#[trigger] edges[i]).3 < self.edges@.len()
                &&& nodes.dom().contains(edges[i].1)
                &&& nodes.dom().contains(edges[i].2)
            }
        &&& forall|i: int, j: int|
            0 <= i < j < edges.len() ==> (#[trigger] edges[i]).0 != (#[trigger] edges[j]).0
                && edges[i].3 != edges[j].3
        &&& self.provenance.well_formed()
        &&& forall|node: u64, i: int|
            self.statement_origins@.dom().contains(node) && 0 <= i
                < self.statement_origins@[node]@.len() ==> (
            #[trigger] self.statement_origins@[node]@[i]).well_formed()
    }

    pub fn new(id: usize) -> (function: Self)
        ensures
            function.well_formed(),
            function@ == (CfgView {
                id,
                name: None,
                parameters: Seq::empty(),
                is_variadic: false,
                blocks: Map::empty(),
                edges: Seq::empty(),
                entry: None,
                provenance: Map::empty(),
                bindings: Map::empty(),
                families: Map::empty(),
                origins: Map::empty(),
                next_synthetic: 0,
            }),
    {
        let function = Function {
            id,
            name: None,
            parameters: Vec::new(),
            is_variadic: false,
            graph: empty_graph(),
            blocks: Vec::new(),
            edges: Vec::new(),
            entry: None,
            provenance: Provenance::default(),
            bindings: empty_map(),
            register_families: empty_map(),
            statement_origins: empty_map(),
            next_synthetic_binding: 0,
        };
        proof {
            assert(function@.blocks =~= Map::empty());
            assert(function@.edges =~= Seq::empty());
            assert(function@.bindings =~= Map::empty());
            assert(function@.families =~= Map::empty());
            assert(function@.origins =~= Map::empty());
        }
        function
    }

    pub fn provenance(&self) -> (provenance: &Provenance)
        requires
            self.well_formed(),
        ensures
            provenance@ == self@.provenance,
            provenance.well_formed(),
    {
        &self.provenance
    }

    pub fn entry(&self) -> (entry: Option<NodeId>)
        ensures
            entry == self@.entry,
    {
        self.entry
    }

    pub fn set_entry(&mut self, new_entry: NodeId)
        requires
            old(self).well_formed(),
            old(self)@.blocks.dom().contains(new_entry),
        ensures
            final(self).well_formed(),
            final(self)@ == (CfgView { entry: Some(new_entry), ..old(self)@ }),
    {
        self.entry = Some(new_entry);
        proof {
            assert(self@ =~= (CfgView { entry: Some(new_entry), ..old(self)@ }));
        }
    }

    pub fn has_block(&self, block: NodeId) -> (result: bool)
        ensures
            result == self@.blocks.dom().contains(block),
    {
        contains_node(&self.graph, block)
    }

    /// The block of a node.
    pub fn block(&self, block: NodeId) -> (found: Option<&Block>)
        requires
            self.well_formed(),
        ensures
            match found {
                Some(found) => self@.blocks.dom().contains(block) && self@.blocks[block] == found@,
                None => !self@.blocks.dom().contains(block),
            },
    {
        match node_weight(&self.graph, block) {
            Some(place) => {
                let length: usize = self.blocks.len();
                assert(place < length);
                Some(&self.blocks[place as usize])
            },
            None => None,
        }
    }

    /// Puts a block in the place of a node's, and gives the one that was
    /// there.
    pub fn replace_block(&mut self, node: NodeId, block: Block) -> (previous: Block)
        requires
            old(self).well_formed(),
            old(self)@.blocks.dom().contains(node),
        ensures
            final(self).well_formed(),
            previous@ == old(self)@.blocks[node],
            final(self)@ == (CfgView {
                blocks: old(self)@.blocks.insert(node, block@),
                ..old(self)@
            }),
    {
        let mut block = block;
        let ghost put = block@;
        match node_weight(&self.graph, node) {
            Some(place) => {
                let length: usize = self.blocks.len();
                assert(place < length);
                let last: usize = length;
                self.blocks.push(block);
                let previous = self.blocks.swap_remove(place as usize);
                proof {
                    assert(self.blocks@ =~= old(self).blocks@.update(place as int, block));
                    assert(self@.blocks =~= old(self)@.blocks.insert(node, put));
                    assert(self@.edges =~= old(self)@.edges);
                    assert(self@ =~= (CfgView {
                        blocks: old(self)@.blocks.insert(node, put),
                        ..old(self)@
                    }));
                }
                previous
            },
            None => block,
        }
    }

    /// The numbers of the nodes, the lowest first.
    pub fn nodes(&self) -> (nodes: Vec<NodeId>)
        ensures
            nodes@.to_set() == self@.blocks.dom(),
            forall|i: int, j: int| 0 <= i < j < nodes@.len() ==> nodes@[i] < nodes@[j],
    {
        let nodes = node_indices(&self.graph);
        proof {
            assert(self@.blocks.dom() =~= graph::graph_nodes(self.graph).dom());
        }
        nodes
    }

    /// Adds an empty block.
    pub fn new_block(&mut self) -> (node: NodeId)
        requires
            old(self).well_formed(),
            old(self)@.blocks.dom().len() < 0xffff_ffff,
        ensures
            final(self).well_formed(),
            !old(self)@.blocks.dom().contains(node),
            final(self)@ == (CfgView {
                blocks: old(self)@.blocks.insert(node, Seq::empty()),
                ..old(self)@
            }),
    {
        proof {
            assert(self@.blocks.dom() =~= graph::graph_nodes(self.graph).dom());
        }
        let place: u64 = self.blocks.len() as u64;
        let node = add_node(&mut self.graph, place);
        self.blocks.push(Block::default());
        proof {
            assert(self@.blocks =~= old(self)@.blocks.insert(node, Seq::empty()));
            assert(self@.edges =~= old(self)@.edges);
            assert(self@ =~= (CfgView {
                blocks: old(self)@.blocks.insert(node, Seq::empty()),
                ..old(self)@
            }));
        }
        node
    }
}

/// An edge of a function, looked at.
pub struct EdgeReference<'a> {
    pub id: u32,
    pub source: NodeId,
    pub target: NodeId,
    pub weight: &'a BlockEdge,
}

impl<'a> EdgeReference<'a> {
    pub open spec fn view(&self) -> EdgeView {
        EdgeView {
            id: self.id,
            source: self.source,
            target: self.target,
            branch: self.weight.branch_type,
            arguments: BlockEdge::argument_views(self.weight.arguments@),
        }
    }

    /// The models of a list of edges.
    pub open spec fn views(edges: Seq<EdgeReference<'a>>) -> Seq<EdgeView> {
        Seq::new(edges.len(), |i: int| edges[i]@)
    }
}

impl EdgeView {
    /// The blocks that edges lead to.
    pub open spec fn targets(edges: Seq<EdgeView>) -> Seq<u32> {
        edges.map_values(|edge: EdgeView| edge.target)
    }

    /// The blocks that edges come from.
    pub open spec fn sources(edges: Seq<EdgeView>) -> Seq<u32> {
        edges.map_values(|edge: EdgeView| edge.source)
    }

    /// The locals that the arguments of the edges from position `from` on
    /// read.
    pub open spec fn reads_from(edges: Seq<EdgeView>, from: int) -> Seq<RcLocal>
        decreases edges.len() - from,
    {
        if 0 <= from < edges.len() {
            Self::argument_reads_from(edges[from].arguments, 0) + Self::reads_from(edges, from + 1)
        } else {
            Seq::empty()
        }
    }
}

impl StatementView {
    /// The locals that the statements from position `from` on read by
    /// themselves.
    pub open spec fn reads_from(statements: Seq<StatementView>, from: int) -> Seq<RcLocal>
        decreases statements.len() - from,
    {
        if 0 <= from < statements.len() {
            statements[from].reads() + Self::reads_from(statements, from + 1)
        } else {
            Seq::empty()
        }
    }
}

proof fn lemma_leaving_last(edges: Seq<EdgeView>, node: u32) -> (place: int)
    requires
        EdgeView::leaving(edges, node).len() > 0,
    ensures
        0 <= place < edges.len(),
        edges[place] == EdgeView::leaving(edges, node)[0],
        edges[place].source == node,
        EdgeView::leaving(edges.remove(place), node) == EdgeView::leaving(edges, node).skip(1),
        EdgeView::leaving_others(edges.remove(place), node) == EdgeView::leaving_others(
            edges,
            node,
        ),
    decreases edges.len(),
{
    if edges.last().source == node {
        let place = edges.len() - 1;
        assert(edges.remove(place) =~= edges.drop_last());
        assert(EdgeView::leaving(edges, node).skip(1) =~= EdgeView::leaving(
            edges.drop_last(),
            node,
        ));
        place
    } else {
        let place = lemma_leaving_last(edges.drop_last(), node);
        let rest = edges.remove(place);
        assert(rest.drop_last() =~= edges.drop_last().remove(place));
        assert(rest.last() == edges.last());
        place
    }
}

proof fn lemma_leaving_none(edges: Seq<EdgeView>, node: u32)
    requires
        EdgeView::leaving(edges, node).len() == 0,
    ensures
        EdgeView::leaving_others(edges, node) == edges,
    decreases edges.len(),
{
    if edges.len() > 0 {
        lemma_leaving_none(edges.drop_last(), node);
        assert(edges.drop_last().push(edges.last()) =~= edges);
    }
}

impl Function {
    proof fn lemma_leaving(&self, edges: Seq<(u32, u32, u32, u64)>, node: u32)
        ensures
            EdgeView::leaving(Seq::new(edges.len(), |i: int| self.edge_view(edges[i])), node)
                == Seq::new(
                graph::leaving(edges, node).len(),
                |i: int| self.edge_view(graph::leaving(edges, node)[i]),
            ),
            forall|i: int|
                0 <= i < graph::leaving(edges, node).len() ==> edges.contains(
                    #[trigger] graph::leaving(edges, node)[i],
                ),
        decreases edges.len(),
    {
        let views = Seq::new(edges.len(), |i: int| self.edge_view(edges[i]));
        if edges.len() > 0 {
            let front = edges.drop_last();
            self.lemma_leaving(front, node);
            assert(views.drop_last() =~= Seq::new(front.len(), |i: int| self.edge_view(front[i])));
            let all = graph::leaving(edges, node);
            let rest = graph::leaving(front, node);
            let here = if edges.last().1 == node {
                1int
            } else {
                0
            };
            assert forall|i: int| 0 <= i < all.len() implies edges.contains(#[trigger] all[i]) by {
                if i >= here {
                    assert(all[i] == rest[i - here]);
                    let k = choose|k: int| 0 <= k < front.len() && front[k] == rest[i - here];
                    assert(edges[k] == all[i]);
                } else {
                    assert(edges[edges.len() - 1] == all[i]);
                }
            }
        }
        assert(EdgeView::leaving(views, node) =~= Seq::new(
            graph::leaving(edges, node).len(),
            |i: int| self.edge_view(graph::leaving(edges, node)[i]),
        ));
    }

    proof fn lemma_entering(&self, edges: Seq<(u32, u32, u32, u64)>, node: u32)
        ensures
            EdgeView::entering(Seq::new(edges.len(), |i: int| self.edge_view(edges[i])), node)
                == Seq::new(
                graph::entering(edges, node).len(),
                |i: int| self.edge_view(graph::entering(edges, node)[i]),
            ),
            forall|i: int|
                0 <= i < graph::entering(edges, node).len() ==> edges.contains(
                    #[trigger] graph::entering(edges, node)[i],
                ),
        decreases edges.len(),
    {
        let views = Seq::new(edges.len(), |i: int| self.edge_view(edges[i]));
        if edges.len() > 0 {
            let front = edges.drop_last();
            self.lemma_entering(front, node);
            assert(views.drop_last() =~= Seq::new(front.len(), |i: int| self.edge_view(front[i])));
            let all = graph::entering(edges, node);
            let rest = graph::entering(front, node);
            let here = if edges.last().2 == node {
                1int
            } else {
                0
            };
            assert forall|i: int| 0 <= i < all.len() implies edges.contains(#[trigger] all[i]) by {
                if i >= here {
                    assert(all[i] == rest[i - here]);
                    let k = choose|k: int| 0 <= k < front.len() && front[k] == rest[i - here];
                    assert(edges[k] == all[i]);
                } else {
                    assert(edges[edges.len() - 1] == all[i]);
                }
            }
        }
        assert(EdgeView::entering(views, node) =~= Seq::new(
            graph::entering(edges, node).len(),
            |i: int| self.edge_view(graph::entering(edges, node)[i]),
        ));
    }

    proof fn lemma_avoiding(&self, edges: Seq<(u32, u32, u32, u64)>, node: u32)
        ensures
            EdgeView::avoiding(Seq::new(edges.len(), |i: int| self.edge_view(edges[i])), node)
                == Seq::new(
                graph::avoiding(edges, node).len(),
                |i: int| self.edge_view(graph::avoiding(edges, node)[i]),
            ),
            forall|i: int|
                0 <= i < graph::avoiding(edges, node).len() ==> {
                    &&& edges.contains(#[trigger] graph::avoiding(edges, node)[i])
                    &&& graph::avoiding(edges, node)[i].1 != node
                    &&& graph::avoiding(edges, node)[i].2 != node
                },
            (forall|i: int, j: int|
                0 <= i < j < edges.len() ==> (#[trigger] edges[i]).0 != (#[trigger] edges[j]).0
                    && edges[i].3 != edges[j].3) ==> (forall|i: int, j: int|
                0 <= i < j < graph::avoiding(edges, node).len() ==> (#[trigger] graph::avoiding(
                    edges,
                    node,
                )[i]).0 != (#[trigger] graph::avoiding(edges, node)[j]).0 && graph::avoiding(
                    edges,
                    node,
                )[i].3 != graph::avoiding(edges, node)[j].3),
        decreases edges.len(),
    {
        let views = Seq::new(edges.len(), |i: int| self.edge_view(edges[i]));
        let all = graph::avoiding(edges, node);
        if edges.len() > 0 {
            let front = edges.drop_last();
            self.lemma_avoiding(front, node);
            assert(views.drop_last() =~= Seq::new(front.len(), |i: int| self.edge_view(front[i])));
            let rest = graph::avoiding(front, node);
            assert forall|i: int| 0 <= i < all.len() implies edges.contains(#[trigger] all[i])
                && all[i].1 != node && all[i].2 != node by {
                if i < rest.len() {
                    assert(all[i] == rest[i]);
                    let k = choose|k: int| 0 <= k < front.len() && front[k] == rest[i];
                    assert(edges[k] == all[i]);
                } else {
                    assert(edges[edges.len() - 1] == all[i]);
                }
            }
            if forall|i: int, j: int|
                0 <= i < j < edges.len() ==> (#[trigger] edges[i]).0 != (#[trigger] edges[j]).0
                    && edges[i].3 != edges[j].3 {
                assert forall|i: int, j: int| 0 <= i < j < front.len() implies (
                #[trigger] front[i]).0 != (#[trigger] front[j]).0 && front[i].3 != front[j].3 by {
                    assert(edges[i] == front[i] && edges[j] == front[j]);
                }
                assert forall|i: int, j: int| 0 <= i < j < all.len() implies (#[trigger] all[i]).0
                    != (#[trigger] all[j]).0 && all[i].3 != all[j].3 by {
                    if j < rest.len() {
                        assert(all[i] == rest[i] && all[j] == rest[j]);
                    } else {
                        assert(all[i] == rest[i]);
                        let k = choose|k: int| 0 <= k < front.len() && front[k] == rest[i];
                        assert(edges[k] == all[i]);
                        assert(edges[edges.len() - 1] == all[j]);
                    }
                }
            }
        }
        assert(EdgeView::avoiding(views, node) =~= Seq::new(
            all.len(),
            |i: int| self.edge_view(all[i]),
        ));
    }

    fn references(&self, edges: Vec<(u32, u32, u32, u64)>) -> (references: Vec<EdgeReference<'_>>)
        requires
            forall|i: int| 0 <= i < edges@.len() ==> (#[trigger] edges@[i]).3 < self.edges@.len(),
        ensures
            EdgeReference::views(references@) == Seq::new(
                edges@.len(),
                |i: int| self.edge_view(edges@[i]),
            ),
    {
        let mut references: Vec<EdgeReference<'_>> = Vec::new();
        let mut index: usize = 0;
        while index < edges.len()
            invariant
                index <= edges.len(),
                forall|i: int|
                    0 <= i < edges@.len() ==> (#[trigger] edges@[i]).3 < self.edges@.len(),
                references@.len() == index,
                forall|i: int|
                    0 <= i < index ==> (#[trigger] references@[i])@ == self.edge_view(edges@[i]),
            decreases edges.len() - index,
        {
            let (id, source, target, place) = edges[index];
            let length: usize = self.edges.len();
            assert(edges@[index as int].3 < length);
            references.push(
                EdgeReference { id, source, target, weight: &self.edges[place as usize] },
            );
            index += 1;
        }
        proof {
            assert(EdgeReference::views(references@) =~= Seq::new(
                edges@.len(),
                |i: int| self.edge_view(edges@[i]),
            ));
        }
        references
    }

    /// The edges that leave a block, the one added last first.
    pub fn edges(&self, node: NodeId) -> (edges: Vec<EdgeReference<'_>>)
        requires
            self.well_formed(),
        ensures
            EdgeReference::views(edges@) == EdgeView::leaving(self@.edges, node),
    {
        let edges = edges_directed(&self.graph, node, true);
        proof {
            self.lemma_leaving(graph::graph_edges(self.graph), node);
        }
        self.references(edges)
    }

    /// The edges that enter a block, the one added last first.
    pub fn edges_to_block(&self, node: NodeId) -> (edges: Vec<EdgeReference<'_>>)
        requires
            self.well_formed(),
        ensures
            EdgeReference::views(edges@) == EdgeView::entering(self@.edges, node),
    {
        let edges = edges_directed(&self.graph, node, false);
        proof {
            self.lemma_entering(graph::graph_edges(self.graph), node);
        }
        self.references(edges)
    }

    /// The blocks that a block leads to.
    pub fn successor_blocks(&self, block: NodeId) -> (nodes: Vec<NodeId>)
        requires
            self.well_formed(),
        ensures
            nodes@ == EdgeView::targets(EdgeView::leaving(self@.edges, block)),
    {
        let edges = self.edges(block);
        let ghost views = EdgeReference::views(edges@);
        let mut nodes: Vec<NodeId> = Vec::new();
        let mut index: usize = 0;
        while index < edges.len()
            invariant
                index <= edges.len(),
                views == EdgeReference::views(edges@),
                nodes@ =~= EdgeView::targets(views).take(index as int),
            decreases edges.len() - index,
        {
            nodes.push(edges[index].target);
            index += 1;
        }
        proof {
            assert(EdgeView::targets(views).take(edges@.len() as int) =~= EdgeView::targets(views));
        }
        nodes
    }

    /// The blocks that lead to a block.
    pub fn predecessor_blocks(&self, block: NodeId) -> (nodes: Vec<NodeId>)
        requires
            self.well_formed(),
        ensures
            nodes@ == EdgeView::sources(EdgeView::entering(self@.edges, block)),
    {
        let edges = self.edges_to_block(block);
        let ghost views = EdgeReference::views(edges@);
        let mut nodes: Vec<NodeId> = Vec::new();
        let mut index: usize = 0;
        while index < edges.len()
            invariant
                index <= edges.len(),
                views == EdgeReference::views(edges@),
                nodes@ =~= EdgeView::sources(views).take(index as int),
            decreases edges.len() - index,
        {
            nodes.push(edges[index].source);
            index += 1;
        }
        proof {
            assert(EdgeView::sources(views).take(edges@.len() as int) =~= EdgeView::sources(views));
        }
        nodes
    }

    /// The only edge that leaves a block, where there is just one.
    pub fn unconditional_edge(&self, node: NodeId) -> (edge: Option<EdgeReference<'_>>)
        requires
            self.well_formed(),
        ensures
            match edge {
                Some(edge) => EdgeView::leaving(self@.edges, node) == seq![edge@],
                None => EdgeView::leaving(self@.edges, node).len() != 1,
            },
    {
        let mut edges = self.edges(node);
        let ghost views = EdgeReference::views(edges@);
        if edges.len() == 1 {
            let edge = edges.pop();
            proof {
                assert(views =~= seq![edge->0@]);
            }
            edge
        } else {
            None
        }
    }

    /// The two edges that leave a block that branches: the one taken when its
    /// condition holds, then the other.
    pub fn conditional_edges(&self, node: NodeId) -> (edges: Option<
        (EdgeReference<'_>, EdgeReference<'_>),
    >)
        requires
            self.well_formed(),
            EdgeView::leaving(self@.edges, node).len() == 2 ==> {
                let leaving = EdgeView::leaving(self@.edges, node);
                ||| leaving[0].branch == BranchType::Then && leaving[1].branch == BranchType::Else
                ||| leaving[1].branch == BranchType::Then && leaving[0].branch == BranchType::Else
            },
        ensures
            match edges {
                Some((then_edge, else_edge)) => {
                    &&& then_edge@.branch == BranchType::Then
                    &&& else_edge@.branch == BranchType::Else
                    &&& EdgeView::leaving(self@.edges, node) == seq![then_edge@, else_edge@]
                        || EdgeView::leaving(self@.edges, node) == seq![else_edge@, then_edge@]
                },
                None => EdgeView::leaving(self@.edges, node).len() != 2,
            },
    {
        let mut edges = self.edges(node);
        let ghost views = EdgeReference::views(edges@);
        if edges.len() != 2 {
            return None;
        }
        let second = edges.remove(1);
        let first = edges.remove(0);
        proof {
            assert(views =~= seq![first@, second@]);
        }
        if second.weight.branch_type == BranchType::Then {
            Some((second, first))
        } else {
            Some((first, second))
        }
    }

    /// The locals that a block and the edges that leave it read.
    pub fn values_read(&self, node: NodeId) -> (locals: Vec<RcLocal>)
        requires
            self.well_formed(),
            self@.blocks.dom().contains(node),
        ensures
            locals@ == StatementView::reads_from(self@.blocks[node], 0) + EdgeView::reads_from(
                EdgeView::leaving(self@.edges, node),
                0,
            ),
    {
        let mut locals: Vec<RcLocal> = Vec::new();
        match self.block(node) {
            Some(block) => {
                let ghost statements = block@;
                let mut index: usize = 0;
                while index < block.0.len()
                    invariant
                        index <= block.0.len(),
                        statements == block@,
                        locals@ + StatementView::reads_from(statements, index as int)
                            =~= StatementView::reads_from(statements, 0),
                    decreases block.0.len() - index,
                {
                    let mut read = block.0[index].values_read();
                    locals.append(&mut read);
                    index += 1;
                }
            },
            None => {},
        }
        let edges = self.edges(node);
        let ghost views = EdgeReference::views(edges@);
        let ghost held = locals@;
        let mut index: usize = 0;
        while index < edges.len()
            invariant
                index <= edges.len(),
                views == EdgeReference::views(edges@),
                locals@ + EdgeView::reads_from(views, index as int) =~= held
                    + EdgeView::reads_from(views, 0),
            decreases edges.len() - index,
        {
            edges[index].weight.push_reads(&mut locals);
            index += 1;
        }
        locals
    }

    /// Takes out the edges that leave a block, and gives them.
    pub fn remove_edges(&mut self, node: NodeId) -> (removed: Vec<(NodeId, BlockEdge)>)
        requires
            old(self).well_formed(),
        ensures
            final(self).well_formed(),
            final(self)@ == (CfgView {
                edges: EdgeView::leaving_others(old(self)@.edges, node),
                ..old(self)@
            }),
            removed@.len() == EdgeView::leaving(old(self)@.edges, node).len(),
            forall|i: int|
                0 <= i < removed@.len() ==> {
                    let edge = EdgeView::leaving(old(self)@.edges, node)[i];
                    &&& (#[trigger] removed@[i]).0 == edge.target
                    &&& removed@[i].1.branch_type == edge.branch
                    &&& BlockEdge::argument_views(removed@[i].1.arguments@) == edge.arguments
                },
    {
        let leaving = edges_directed(&self.graph, node, true);
        let ghost whole = EdgeView::leaving(self@.edges, node);
        let mut removed: Vec<(NodeId, BlockEdge)> = Vec::new();
        let mut index: usize = 0;
        proof {
            self.lemma_leaving(graph::graph_edges(self.graph), node);
            assert(whole.skip(0) =~= whole);
            assert(whole =~= Seq::new(leaving@.len(), |i: int| self.edge_view(leaving@[i])));
        }
        while index < leaving.len()
            invariant
                index <= leaving.len() == whole.len(),
                whole == EdgeView::leaving(old(self)@.edges, node),
                self.well_formed(),
                self.edges == old(self).edges,
                self@ == (CfgView { edges: self@.edges, ..old(self)@ }),
                EdgeView::leaving(self@.edges, node) == whole.skip(index as int),
                EdgeView::leaving_others(self@.edges, node) == EdgeView::leaving_others(
                    old(self)@.edges,
                    node,
                ),
                forall|i: int|
                    0 <= i < leaving@.len() ==> {
                        &&& (#[trigger] leaving@[i]).3 < self.edges@.len()
                        &&& old(self).edge_view(leaving@[i]) == whole[i]
                    },
                removed@.len() == index,
                forall|i: int|
                    0 <= i < index ==> {
                        &&& (#[trigger] removed@[i]).0 == whole[i].target
                        &&& removed@[i].1.branch_type == whole[i].branch
                        &&& BlockEdge::argument_views(removed@[i].1.arguments@)
                            == whole[i].arguments
                    },
            decreases leaving.len() - index,
        {
            let (id, source, target, place) = leaving[index];
            let length: usize = self.edges.len();
            assert(leaving@[index as int].3 < length);
            let edge = self.edges[place as usize].clone();
            let ghost before = graph::graph_edges(self.graph);
            let ghost views = self@.edges;
            let ghost at = lemma_leaving_last(views, node);
            proof {
                assert(views[at] == whole.skip(index as int)[0]);
                assert(views[at] == self.edge_view(before[at]));
                assert(before[at].0 == id);
            }
            let weight = remove_edge(&mut self.graph, id);
            proof {
                assert(before[at].0 == id);
                let after = graph::graph_edges(self.graph);
                assert(after == before.remove(at));
                assert(self@.edges =~= views.remove(at));
                assert(self@.blocks =~= old(self)@.blocks);
                assert(self@ =~= (CfgView { edges: self@.edges, ..old(self)@ }));
                assert(whole.skip(index as int).skip(1) =~= whole.skip(index + 1));
                assert forall|i: int| 0 <= i < after.len() implies (#[trigger] after[i]).3
                    < self.edges@.len() && graph::graph_nodes(self.graph).dom().contains(after[i].1)
                    && graph::graph_nodes(self.graph).dom().contains(after[i].2) by {
                    let k = if i < at {
                        i
                    } else {
                        i + 1
                    };
                    assert(after[i] == before[k]);
                }
                assert forall|i: int, j: int| 0 <= i < j < after.len() implies (
                #[trigger] after[i]).0 != (#[trigger] after[j]).0 && after[i].3 != after[j].3 by {
                    let k = if i < at {
                        i
                    } else {
                        i + 1
                    };
                    let l = if j < at {
                        j
                    } else {
                        j + 1
                    };
                    assert(after[i] == before[k] && after[j] == before[l]);
                }
            }
            removed.push((target, edge));
            index += 1;
        }
        proof {
            lemma_leaving_none(self@.edges, node);
        }
        removed
    }

    /// Adds an edge between two blocks.
    pub fn add_edge(&mut self, source: NodeId, target: NodeId, edge: BlockEdge) -> (id: u32)
        requires
            old(self).well_formed(),
            old(self)@.blocks.dom().contains(source),
            old(self)@.blocks.dom().contains(target),
            old(self)@.edges.len() < 0xffff_ffff,
        ensures
            final(self).well_formed(),
            forall|i: int|
                0 <= i < old(self)@.edges.len() ==> (#[trigger] old(self)@.edges[i]).id != id,
            final(self)@ == (CfgView {
                edges: old(self)@.edges.push(
                    EdgeView {
                        id,
                        source,
                        target,
                        branch: edge.branch_type,
                        arguments: BlockEdge::argument_views(edge.arguments@),
                    },
                ),
                ..old(self)@
            }),
    {
        let place: u64 = self.edges.len() as u64;
        let ghost before = graph::graph_edges(self.graph);
        let id = add_edge(&mut self.graph, source, target, place);
        self.edges.push(edge);
        proof {
            let after = graph::graph_edges(self.graph);
            assert forall|i: int| 0 <= i < before.len() implies (#[trigger] before[i]).0 != id by {
                assert(!graph::has_edge(before, id));
            }
            assert(self@.edges =~= old(self)@.edges.push(
                EdgeView {
                    id,
                    source,
                    target,
                    branch: edge.branch_type,
                    arguments: BlockEdge::argument_views(edge.arguments@),
                },
            ));
            assert(self@.blocks =~= old(self)@.blocks);
            assert(self@ =~= (CfgView { edges: self@.edges, ..old(self)@ }));
            assert forall|i: int| 0 <= i < old(self)@.edges.len() implies (
            #[trigger] old(self)@.edges[i]).id != id by {
                assert(before[i].0 != id);
            }
            assert forall|i: int, j: int| 0 <= i < j < after.len() implies (#[trigger] after[i]).0
                != (#[trigger] after[j]).0 && after[i].3 != after[j].3 by {
                assert(after[i] == before[i]);
                assert(before[i].0 != id);
                if j < before.len() {
                    assert(after[j] == before[j]);
                }
            }
        }
        id
    }

    /// Takes a block out, with the edges at it.
    pub fn remove_block(&mut self, block: NodeId) -> (removed: Option<Block>)
        requires
            old(self).well_formed(),
        ensures
            final(self).well_formed(),
            old(self)@.blocks.dom().contains(block) ==> {
                &&& removed matches Some(taken) && taken@ == old(self)@.blocks[block]
                &&& final(self)@ == (CfgView {
                    blocks: old(self)@.blocks.remove(block),
                    edges: EdgeView::avoiding(old(self)@.edges, block),
                    origins: old(self)@.origins.remove(block as u64),
                    ..old(self)@
                })
            },
            !old(self)@.blocks.dom().contains(block) ==> {
                &&& removed is None
                &&& final(self)@ == (CfgView {
                    origins: old(self)@.origins.remove(block as u64),
                    ..old(self)@
                })
            },
    {
        let taken = remove_entry(&mut self.statement_origins, block as u64);
        let ghost before = graph::graph_edges(self.graph);
        let weight = remove_node(&mut self.graph, block);
        proof {
            old(self).lemma_avoiding(before, block);
            assert(self@.origins =~= old(self)@.origins.remove(block as u64));
        }
        match weight {
            Some(place) => {
                let length: usize = self.blocks.len();
                assert(place < length);
                let removed = self.blocks[place as usize].clone();
                proof {
                    let after = graph::graph_edges(self.graph);
                    assert(self@.blocks =~= old(self)@.blocks.remove(block));
                    assert(self@.edges =~= EdgeView::avoiding(old(self)@.edges, block));
                    assert(self@ =~= (CfgView {
                        blocks: old(self)@.blocks.remove(block),
                        edges: EdgeView::avoiding(old(self)@.edges, block),
                        origins: old(self)@.origins.remove(block as u64),
                        ..old(self)@
                    }));
                    assert forall|i: int| 0 <= i < after.len() implies (#[trigger] after[i]).3
                        < self.edges@.len() && graph::graph_nodes(self.graph).dom().contains(
                        after[i].1,
                    ) && graph::graph_nodes(self.graph).dom().contains(after[i].2) by {
                        assert(before.contains(graph::avoiding(before, block)[i]));
                        let k = choose|k: int| 0 <= k < before.len() && before[k] == after[i];
                        assert(before[k] == after[i]);
                    }
                }
                Some(removed)
            },
            None => {
                proof {
                    assert(self@.blocks =~= old(self)@.blocks);
                    assert(self@.edges =~= old(self)@.edges);
                    assert(self@ =~= (CfgView {
                        origins: old(self)@.origins.remove(block as u64),
                        ..old(self)@
                    }));
                }
                None
            },
        }
    }
}

impl CfgView {
    /// What a local stands for: by what is known of it where that is one
    /// thing, else by what it was created for.
    pub open spec fn binding_of(self, local: RcLocal) -> Option<BindingView> {
        let known = if self.provenance.dom().contains(local.id) {
            self.provenance[local.id].bindings
        } else {
            Set::empty()
        };
        if exists|binding: BindingView| known == set![binding] {
            Some(choose|binding: BindingView| known == set![binding])
        } else if self.bindings.dom().contains(local.id) {
            Some(self.bindings[local.id])
        } else {
            None
        }
    }

    /// What is known of a local; nothing where it is unknown.
    pub open spec fn known(self, local: RcLocal) -> LocalProvenanceView {
        if self.provenance.dom().contains(local.id) {
            self.provenance[local.id]
        } else {
            LocalProvenanceView::unknown()
        }
    }

    /// The origins of a statement, where it has any recorded.
    pub open spec fn origins_of(self, node: u32, statement: int) -> Option<Set<OriginView>> {
        if self.origins.dom().contains(node as u64) && 0 <= statement < self.origins[node as u64].len()
        {
            Some(self.origins[node as u64][statement])
        } else {
            None
        }
    }
}

impl FamilyView {
    /// Whether a register carried a name, fit for a local, at an origin.
    pub open spec fn names_at(self, origin: OriginView, name: Seq<u8>) -> bool {
        &&& LifetimeView::only_cover(self.lifetimes, origin.instruction) matches Some(lifetime)
        &&& lifetime.name == name
        &&& IdentifierContext::is_identifier(name)
    }

    /// The names, fit for a local, that the register carried at the origins.
    pub open spec fn names(self, origins: Set<OriginView>) -> Set<Seq<u8>> {
        Set::new(
            |name: Seq<u8>|
                exists|origin: OriginView|
                    origins.contains(origin) && #[trigger] self.names_at(origin, name),
        )
    }
}

/// The origin of a use of a local that stands for `binding`: it names the
/// register, and the stretch that tells the local apart where one of the
/// families has it.
pub open spec fn is_use_origin(
    families: Map<u64, FamilyView>,
    binding: Option<BindingView>,
    origin: OriginView,
    used: OriginView,
) -> bool {
    match binding {
        Some(BindingView::Local { register, lifetime, .. }) => {
            &&& used == (OriginView {
                register_family: Some(register),
                debug_lifetime: used.debug_lifetime,
                ..origin
            })
            &&& match used.debug_lifetime {
                Some(found) => fits_use(families, lifetime, origin, found),
                None => forall|found: LifetimeView|
                    !#[trigger] fits_use(families, lifetime, origin, found),
            }
        },
        Some(BindingView::Parameter { register, .. }) => used == (OriginView {
            register_family: Some(register),
            ..origin
        }),
        _ => used == origin,
    }
}

/// Whether a stretch of one of the families has the ends asked for and covers
/// an origin.
pub open spec fn fits_use(
    families: Map<u64, FamilyView>,
    lifetime: Option<(usize, usize)>,
    origin: OriginView,
    found: LifetimeView,
) -> bool {
    &&& lifetime == Some((found.start, found.end))
    &&& found.covers(origin.instruction)
    &&& exists|id: u64, i: int|
        #![trigger families[id].lifetimes[i]]
        families.dom().contains(id) && 0 <= i < families[id].lifetimes.len()
            && families[id].lifetimes[i] == found
}

impl Function {
    pub fn set_binding(&mut self, local: RcLocal, binding: BindingIdentity)
        requires
            old(self).well_formed(),
        ensures
            final(self).well_formed(),
            final(self)@ == (CfgView {
                bindings: old(self)@.bindings.insert(local.id, binding@),
                provenance: if old(self)@.provenance.dom().contains(local.id) {
                    old(self)@.provenance
                } else {
                    old(self)@.provenance.insert(
                        local.id,
                        LocalProvenanceView {
                            bindings: set![binding@],
                            definitions: Set::empty(),
                            uses: Set::empty(),
                        },
                    )
                },
                ..old(self)@
            }),
    {
        insert_entry(&mut self.bindings, local.id, binding.clone());
        self.provenance.ensure_local(local, binding);
        proof {
            assert(self@.bindings =~= old(self)@.bindings.insert(local.id, binding@));
            assert(self@.blocks =~= old(self)@.blocks);
            assert(self@.edges =~= old(self)@.edges);
        }
    }

    pub fn set_register_family(&mut self, local: RcLocal, family: RegisterFamily)
        requires
            old(self).well_formed(),
        ensures
            final(self).well_formed(),
            final(self)@ == (CfgView {
                bindings: old(self)@.bindings.insert(local.id, family@.binding),
                families: old(self)@.families.insert(local.id, family@),
                ..old(self)@
            }),
    {
        insert_entry(&mut self.bindings, local.id, family.binding.clone());
        insert_entry(&mut self.register_families, local.id, family);
        proof {
            assert(self@.bindings =~= old(self)@.bindings.insert(local.id, family@.binding));
            assert(self@.families =~= old(self)@.families.insert(local.id, family@));
            assert(self@.blocks =~= old(self)@.blocks);
            assert(self@.edges =~= old(self)@.edges);
        }
    }

    /// Records the origins of a block's statements, one set for each.
    pub fn set_statement_origins(&mut self, node: NodeId, origins: Vec<OriginSet>)
        requires
            old(self).well_formed(),
            forall|i: int| 0 <= i < origins@.len() ==> (#[trigger] origins@[i]).well_formed(),
            origins@.len() == (if old(self)@.blocks.dom().contains(node) {
                old(self)@.blocks[node].len()
            } else {
                0
            }),
        ensures
            final(self).well_formed(),
            final(self)@ == (CfgView {
                origins: old(self)@.origins.insert(node as u64, OriginSet::views(origins@)),
                ..old(self)@
            }),
    {
        insert_entry(&mut self.statement_origins, node as u64, origins);
        proof {
            assert(self@.origins =~= old(self)@.origins.insert(
                node as u64,
                OriginSet::views(origins@),
            ));
            assert(self@.blocks =~= old(self)@.blocks);
            assert(self@.edges =~= old(self)@.edges);
        }
    }

    /// The origins of a statement.
    pub fn statement_origins(&self, node: NodeId, statement: usize) -> (origins: Option<
        &OriginSet,
    >)
        requires
            self.well_formed(),
        ensures
            match origins {
                Some(origins) => origins.well_formed() && self@.origins_of(node, statement as int)
                    == Some(origins@),
                None => self@.origins_of(node, statement as int) is None,
            },
    {
        match find_entry(&self.statement_origins, node as u64) {
            Some(origins) => if statement < origins.len() {
                proof {
                    assert(self.statement_origins@[node as u64]@[statement as int].well_formed());
                }
                Some(&origins[statement])
            } else {
                None
            },
            None => None,
        }
    }

    /// Creates a local for a block parameter of the family of a local.
    pub fn new_merge_local(&mut self, locals: &mut Locals, family_local: RcLocal) -> (local: RcLocal)
        requires
            old(self).well_formed(),
            old(self)@.bindings.dom().contains(family_local.id),
        ensures
            final(self).well_formed(),
            local.id == old(locals)@.len(),
            final(locals)@ == old(locals)@.push(None),
            final(self)@ == (CfgView {
                bindings: old(self)@.bindings.insert(
                    local.id,
                    old(self)@.bindings[family_local.id],
                ),
                provenance: if old(self)@.provenance.dom().contains(local.id) {
                    old(self)@.provenance
                } else {
                    old(self)@.provenance.insert(
                        local.id,
                        LocalProvenanceView {
                            bindings: set![old(self)@.bindings[family_local.id]],
                            definitions: Set::empty(),
                            uses: Set::empty(),
                        },
                    )
                },
                ..old(self)@
            }),
    {
        let local = RcLocal::new(locals, Local(None));
        match find_entry(&self.bindings, family_local.id) {
            Some(binding) => {
                let binding = binding.clone();
                self.set_binding(local, binding);
            },
            None => {},
        }
        local
    }

    /// Creates a local for a value that the source did not name, derived from
    /// another local. It takes over the other's name where that is fit for a
    /// local.
    pub fn new_synthetic_local(&mut self, locals: &mut Locals, source: RcLocal) -> (local: RcLocal)
        requires
            old(self).well_formed(),
            old(self)@.next_synthetic < usize::MAX,
        ensures
            final(self).well_formed(),
            local.id == old(locals)@.len(),
            final(locals)@ == old(locals)@.push(
                match Locals::name_in(old(locals)@, source) {
                    Some(name) if IdentifierContext::is_identifier(
                        vstd::utf8::encode_utf8(name),
                    ) => Some(name),
                    _ => None,
                },
            ),
            final(self)@ == ({
                let binding = BindingView::SyntheticLocal {
                    function_id: old(self)@.id,
                    sequence: old(self)@.next_synthetic as usize,
                };
                CfgView {
                    bindings: old(self)@.bindings.insert(local.id, binding),
                    provenance: old(self)@.provenance.insert(
                        local.id,
                        LocalProvenanceView { bindings: set![binding], ..old(self)@.known(source) },
                    ),
                    next_synthetic: old(self)@.next_synthetic + 1,
                    ..old(self)@
                }
            }),
    {
        let name = match locals.name(source) {
            Some(name) => if is_valid_identifier(name.as_str().as_bytes()) {
                Some(name)
            } else {
                None
            },
            None => None,
        };
        let local = RcLocal::new(locals, Local(name));
        let binding = BindingIdentity::SyntheticLocal {
            function_id: self.id,
            sequence: self.next_synthetic_binding,
        };
        self.next_synthetic_binding += 1;
        insert_entry(&mut self.bindings, local.id, binding.clone());
        let mut sources: Vec<RcLocal> = Vec::new();
        sources.push(source);
        self.provenance.derive_local(local, binding, &sources);
        proof {
            reveal_with_fuel(LocalProvenanceView::joined_from, 2);
            let joined = LocalProvenanceView::joined_from(old(self)@.provenance, sources@, 0);
            assert(joined =~= old(self)@.known(source));
            assert(self@.bindings =~= old(self)@.bindings.insert(local.id, binding@));
            assert(self@.blocks =~= old(self)@.blocks);
            assert(self@.edges =~= old(self)@.edges);
        }
        local
    }

    /// Gives a local all that the sources are known by.
    pub fn merge_local_provenance(&mut self, target: RcLocal, sources: &Vec<RcLocal>)
        requires
            old(self).well_formed(),
            old(self)@.bindings.dom().contains(target.id) || old(self)@.binding_of(target) is Some,
        ensures
            final(self).well_formed(),
            final(self)@ == ({
                let binding = if old(self)@.bindings.dom().contains(target.id) {
                    old(self)@.bindings[target.id]
                } else {
                    old(self)@.binding_of(target)->0
                };
                let joined = LocalProvenanceView::joined_from(old(self)@.provenance, sources@, 0);
                CfgView {
                    bindings: old(self)@.bindings.insert(target.id, binding),
                    provenance: old(self)@.provenance.insert(
                        target.id,
                        if joined.bindings == Set::<BindingView>::empty() {
                            LocalProvenanceView { bindings: set![binding], ..joined }
                        } else {
                            joined
                        },
                    ),
                    ..old(self)@
                }
            }),
    {
        let binding = match find_entry(&self.bindings, target.id) {
            Some(binding) => binding.clone(),
            None => match self.provenance.binding(target) {
                Some(binding) => {
                    proof {
                        lemma_single_binding(self.provenance.known(target).bindings, binding@);
                    }
                    binding.clone()
                },
                None => {
                    proof {
                        lemma_no_single_binding(self.provenance.known(target).bindings);
                    }
                    BindingIdentity::local(0, 0)
                },
            },
        };
        self.provenance.merge_locals(target, binding.clone(), sources);
        insert_entry(&mut self.bindings, target.id, binding);
        proof {
            assert(self@.bindings =~= old(self)@.bindings.insert(target.id, binding@));
            assert(self@.blocks =~= old(self)@.blocks);
            assert(self@.edges =~= old(self)@.edges);
        }
    }

    pub fn id(&self) -> (id: usize)
        ensures
            id == self@.id,
    {
        self.id
    }

    pub fn parameters(&self) -> (parameters: &Vec<RcLocal>)
        ensures
            parameters@ == self@.parameters,
    {
        &self.parameters
    }

    /// Gives the function another name, or none.
    pub fn set_name(&mut self, name: Option<String>)
        requires
            old(self).well_formed(),
        ensures
            final(self).well_formed(),
            final(self)@ == (CfgView {
                name: crate::ast::local::text_of(name),
                ..old(self)@
            }),
    {
        self.name = name;
        proof {
            assert(self@.blocks =~= old(self)@.blocks);
            assert(self@.edges =~= old(self)@.edges);
        }
    }

    /// Gives a block other edges to leave by, and gives the ones that it had.
    pub fn set_edges(
        &mut self,
        node: NodeId,
        new_edges: Vec<(NodeId, BlockEdge)>,
    ) -> (previous: Vec<(NodeId, BlockEdge)>)
        requires
            old(self).well_formed(),
            old(self)@.blocks.dom().contains(node),
            forall|i: int|
                0 <= i < new_edges@.len() ==> old(self)@.blocks.dom().contains(
                    (#[trigger] new_edges@[i]).0,
                ),
            old(self)@.edges.len() + new_edges@.len() <= 0xffff_ffff,
        ensures
            final(self).well_formed(),
            final(self)@ == (CfgView { edges: final(self)@.edges, ..old(self)@ }),
            final(self)@.edges.len() == EdgeView::leaving_others(old(self)@.edges, node).len()
                + new_edges@.len(),
            forall|i: int|
                0 <= i < EdgeView::leaving_others(old(self)@.edges, node).len() ==> (
                #[trigger] final(self)@.edges[i]) == EdgeView::leaving_others(
                    old(self)@.edges,
                    node,
                )[i],
            forall|i: int|
                0 <= i < new_edges@.len() ==> {
                    let added = final(self)@.edges[EdgeView::leaving_others(
                        old(self)@.edges,
                        node,
                    ).len() + i];
                    &&& added.source == node
                    &&& added.target == (#[trigger] new_edges@[i]).0
                    &&& added.branch == new_edges@[i].1.branch_type
                    &&& added.arguments == BlockEdge::argument_views(new_edges@[i].1.arguments@)
                },
            previous@.len() == EdgeView::leaving(old(self)@.edges, node).len(),
            forall|i: int|
                0 <= i < previous@.len() ==> {
                    let edge = EdgeView::leaving(old(self)@.edges, node)[i];
                    &&& (#[trigger] previous@[i]).0 == edge.target
                    &&& previous@[i].1.branch_type == edge.branch
                    &&& BlockEdge::argument_views(previous@[i].1.arguments@) == edge.arguments
                },
    {
        let previous = self.remove_edges(node);
        let ghost kept = self@.edges;
        proof {
            lemma_others_len(old(self)@.edges, node);
        }
        let mut rest = new_edges;
        let mut index: usize = 0;
        let count: usize = rest.len();
        while index < count
            invariant
                index <= count == new_edges@.len(),
                rest@ =~= new_edges@.skip(index as int),
                self.well_formed(),
                old(self)@.blocks.dom().contains(node),
                forall|i: int|
                    0 <= i < new_edges@.len() ==> old(self)@.blocks.dom().contains(
                        (#[trigger] new_edges@[i]).0,
                    ),
                kept == EdgeView::leaving_others(old(self)@.edges, node),
                kept.len() + count <= 0xffff_ffff,
                self@ == (CfgView { edges: self@.edges, ..old(self)@ }),
                self@.edges.len() == kept.len() + index,
                forall|i: int| 0 <= i < kept.len() ==> (#[trigger] self@.edges[i]) == kept[i],
                forall|i: int|
                    0 <= i < index ==> {
                        let added = self@.edges[kept.len() + i];
                        &&& added.source == node
                        &&& added.target == (#[trigger] new_edges@[i]).0
                        &&& added.branch == new_edges@[i].1.branch_type
                        &&& added.arguments == BlockEdge::argument_views(
                            new_edges@[i].1.arguments@,
                        )
                    },
            decreases count - index,
        {
            let (target, edge) = rest.remove(0);
            proof {
                assert(new_edges@[index as int] == (target, edge));
            }
            let id = self.add_edge(node, target, edge);
            index += 1;
        }
        previous
    }
}

proof fn lemma_others_len(edges: Seq<EdgeView>, node: u32)
    ensures
        EdgeView::leaving_others(edges, node).len() <= edges.len(),
    decreases edges.len(),
{
    if edges.len() > 0 {
        lemma_others_len(edges.drop_last(), node);
    }
}

proof fn lemma_single_binding(bindings: Set<BindingView>, binding: BindingView)
    requires
        bindings == set![binding],
    ensures
        exists|other: BindingView| bindings == set![other],
        (choose|other: BindingView| bindings == set![other]) == binding,
{
    let chosen = choose|other: BindingView| bindings == set![other];
    assert(bindings == set![chosen]);
    assert(set![chosen].contains(chosen));
}

proof fn lemma_no_single_binding(bindings: Set<BindingView>)
    requires
        bindings.len() != 1,
    ensures
        !(exists|other: BindingView| bindings == set![other]),
{
    if exists|other: BindingView| bindings == set![other] {
        let chosen = choose|other: BindingView| bindings == set![other];
        assert(bindings.len() == 1);
    }
}

impl CfgView {
    /// What a definition in the family of a local, at an origin, stands for.
    pub open spec fn definition_binding(self, family_local: RcLocal, origin: OriginView) -> BindingView {
        if self.families.dom().contains(family_local.id) {
            self.families[family_local.id].binding_at(origin.instruction)
        } else {
            self.bindings[family_local.id]
        }
    }

    /// The origin of a definition in the family of a local.
    pub open spec fn definition_origin(self, family_local: RcLocal, origin: OriginView) -> OriginView {
        if self.families.dom().contains(family_local.id) {
            self.families[family_local.id].definition_origin(origin)
        } else {
            origin
        }
    }

    /// The name of a definition in the family of a local: the one that its
    /// register carried at the origins, where it is one only.
    pub open spec fn definition_name(self, family_local: RcLocal, origins: Set<OriginView>) -> Option<
        Seq<char>,
    > {
        if self.families.dom().contains(family_local.id) && exists|name: Seq<u8>|
            self.families[family_local.id].names(origins) == set![name] {
            Some(
                crate::text::ascii_text(
                    choose|name: Seq<u8>|
                        self.families[family_local.id].names(origins) == set![name],
                ),
            )
        } else {
            None
        }
    }

    /// The name of a definition rests on the families of registers alone.
    pub proof fn lemma_same_definition_name(
        self,
        other: CfgView,
        family_local: RcLocal,
        origins: Set<OriginView>,
    )
        requires
            self.families == other.families,
        ensures
            self.definition_name(family_local, origins) == other.definition_name(
                family_local,
                origins,
            ),
    {
    }

    /// What is known of a local once it is defined at the origins.
    pub open spec fn defined(
        self,
        local: RcLocal,
        family_local: RcLocal,
        origins: Set<OriginView>,
    ) -> LocalProvenanceView {
        LocalProvenanceView {
            bindings: self.known(local).bindings.union(
                origins.map(|origin: OriginView| self.definition_binding(family_local, origin)),
            ),
            definitions: self.known(local).definitions.union(
                origins.map(|origin: OriginView| self.definition_origin(family_local, origin)),
            ),
            uses: self.known(local).uses,
        }
    }
}

proof fn lemma_map_insert<A, B>(set: Set<A>, member: A, f: spec_fn(A) -> B)
    ensures
        set.insert(member).map(f) == set.map(f).insert(f(member)),
{
    assert forall|b: B|
        set.insert(member).map(f).contains(b) == set.map(f).insert(f(member)).contains(b) by {
        if set.map(f).contains(b) {
            let a = choose|a: A| set.contains(a) && b == f(a);
            assert(set.insert(member).contains(a));
        }
        if b == f(member) {
            assert(set.insert(member).contains(member));
        }
        if set.insert(member).map(f).contains(b) {
            let a = choose|a: A| set.insert(member).contains(a) && b == f(a);
            if a != member {
                assert(set.contains(a));
            }
        }
    }
    assert(set.insert(member).map(f) =~= set.map(f).insert(f(member)));
}

proof fn lemma_prefix_set<A>(list: Seq<A>, count: int)
    requires
        0 <= count < list.len(),
    ensures
        list.take(count + 1).to_set() == list.take(count).to_set().insert(list[count]),
{
    let shorter = list.take(count);
    let longer = list.take(count + 1);
    assert(longer =~= shorter.push(list[count]));
    shorter.lemma_push_to_set_commute(list[count]);
}

/// The name that a register carried at the origins, where it is one only.
fn single_name(family: &RegisterFamily, origins: &OriginSet) -> (name: Option<String>)
    requires
        origins.well_formed(),
    ensures
        match name {
            Some(name) => exists|bytes: Seq<u8>|
                family@.names(origins@) == set![bytes] && name@ == crate::text::ascii_text(bytes),
            None => forall|bytes: Seq<u8>| family@.names(origins@) != set![bytes],
        },
{
    let ghost listed = origins.listed();
    let count: usize = origins.len();
    let mut found: Option<Vec<u8>> = None;
    let mut many = false;
    let mut index: usize = 0;
    proof {
        assert(listed.take(0).to_set() =~= Set::empty());
        assert(family@.names(listed.take(0).to_set()) =~= Set::empty());
    }
    while index < count
        invariant
            index <= count == listed.len(),
            listed == origins.listed(),
            many ==> exists|a: Seq<u8>, b: Seq<u8>|
                #![trigger family@.names(listed.take(index as int).to_set()).contains(a),
                    family@.names(listed.take(index as int).to_set()).contains(b)]
                a != b && family@.names(listed.take(index as int).to_set()).contains(a)
                    && family@.names(listed.take(index as int).to_set()).contains(b),
            !many ==> family@.names(listed.take(index as int).to_set()) == (match found {
                Some(bytes) => set![bytes@],
                None => Set::<Seq<u8>>::empty(),
            }),
        decreases count - index,
    {
        let ghost before = listed.take(index as int).to_set();
        let ghost after = listed.take(index + 1).to_set();
        let origin = origins.get(index);
        proof {
            lemma_prefix_set(listed, index as int);
            assert(origin@ == listed[index as int]);
        }
        let name = family.debug_name_at(origin.instruction);
        let fit = match name {
            Some(name) => is_valid_identifier(name),
            None => false,
        };
        proof {
            assert forall|bytes: Seq<u8>| #[trigger]
                family@.names(before).contains(bytes) implies family@.names(after).contains(
                bytes,
            ) by {
                let o = choose|o: OriginView|
                    before.contains(o) && #[trigger] family@.names_at(o, bytes);
                assert(after.contains(o));
            }
        }
        if fit {
            match name {
                Some(name) => {
                    proof {
                        assert(family@.names_at(origin@, name@));
                        assert(after.contains(origin@));
                        assert(family@.names(after).contains(name@));
                        assert(family@.names(after) =~= family@.names(before).insert(name@)) by {
                            assert forall|bytes: Seq<u8>|
                                family@.names(after).contains(bytes) implies family@.names(
                                before,
                            ).insert(name@).contains(bytes) by {
                                let o = choose|o: OriginView|
                                    after.contains(o) && #[trigger] family@.names_at(o, bytes);
                                if o != origin@ {
                                    assert(before.contains(o));
                                }
                            }
                        }
                    }
                    match &found {
                        Some(bytes) => {
                            let same = crate::text::same_bytes(bytes.as_slice(), name);
                            if !same {
                                proof {
                                    if !many {
                                        assert(family@.names(before).contains(bytes@));
                                        assert(family@.names(after).contains(bytes@));
                                    }
                                }
                                many = true;
                            } else {
                                proof {
                                    if !many {
                                        assert(family@.names(after) =~= set![bytes@]);
                                    }
                                }
                            }
                        },
                        None => {
                            proof {
                                if !many {
                                    assert(family@.names(after) =~= set![name@]);
                                }
                            }
                            found = Some(crate::text::copy_bytes(name));
                        },
                    }
                },
                None => {},
            }
        } else {
            proof {
                assert(family@.names(after) =~= family@.names(before)) by {
                    assert forall|bytes: Seq<u8>|
                        family@.names(after).contains(bytes) implies family@.names(
                        before,
                    ).contains(bytes) by {
                        let o = choose|o: OriginView|
                            after.contains(o) && #[trigger] family@.names_at(o, bytes);
                        assert(before.contains(o));
                    }
                }
            }
        }
        index += 1;
    }
    proof {
        assert(listed.take(count as int) =~= listed);
    }
    if many {
        proof {
            assert forall|bytes: Seq<u8>| family@.names(origins@) != set![bytes] by {
                if family@.names(origins@) == set![bytes] {
                    let (a, b) = choose|a: Seq<u8>, b: Seq<u8>|
                        #![trigger family@.names(listed.take(index as int).to_set()).contains(a),
                            family@.names(listed.take(index as int).to_set()).contains(b)]
                        a != b && family@.names(listed.take(index as int).to_set()).contains(a)
                            && family@.names(listed.take(index as int).to_set()).contains(b);
                    assert(set![bytes].contains(a) && set![bytes].contains(b));
                }
            }
        }
        return None;
    }
    match found {
        Some(bytes) => {
            let mut name = String::new();
            crate::text::push_ascii(&mut name, bytes.as_slice());
            proof {
                assert(name@ =~= crate::text::ascii_text(bytes@));
            }
            Some(name)
        },
        None => {
            proof {
                assert forall|bytes: Seq<u8>| family@.names(origins@) != set![bytes] by {
                    assert(set![bytes].contains(bytes));
                }
            }
            None
        },
    }
}

impl Function {
    /// Creates the local of a definition in the family of a local, made by a
    /// statement.
    pub fn new_ssa_definition(
        &mut self,
        locals: &mut Locals,
        family_local: RcLocal,
        node: NodeId,
        statement: usize,
    ) -> (local: RcLocal)
        requires
            old(self).well_formed(),
            old(self)@.origins_of(node, statement as int) is Some,
            old(self)@.bindings.dom().contains(family_local.id),
        ensures
            final(self).well_formed(),
            local.id == old(locals)@.len(),
            final(locals)@ == old(locals)@.push(
                old(self)@.definition_name(
                    family_local,
                    old(self)@.origins_of(node, statement as int)->0,
                ),
            ),
            final(self)@ == ({
                let origins = old(self)@.origins_of(node, statement as int)->0;
                CfgView {
                    bindings: old(self)@.bindings.insert(
                        local.id,
                        old(self)@.bindings[family_local.id],
                    ),
                    provenance: if origins == Set::<OriginView>::empty() {
                        old(self)@.provenance
                    } else {
                        old(self)@.provenance.insert(
                            local.id,
                            old(self)@.defined(local, family_local, origins),
                        )
                    },
                    ..old(self)@
                }
            }),
    {
        let origins = match self.statement_origins(node, statement) {
            Some(origins) => origins.clone(),
            None => OriginSet::new(),
        };
        let name = match find_entry(&self.register_families, family_local.id) {
            Some(family) => {
                let name = single_name(family, &origins);
                proof {
                    let names = family@.names(origins@);
                    if name is Some {
                        let bytes = choose|bytes: Seq<u8>|
                            names == set![bytes] && name->0@ == crate::text::ascii_text(bytes);
                        let chosen = choose|bytes: Seq<u8>| names == set![bytes];
                        assert(set![bytes].contains(chosen)) by {
                            assert(set![chosen].contains(chosen));
                        }
                    }
                }
                name
            },
            None => None,
        };
        let local = RcLocal::new(locals, Local(name));
        let binding = match find_entry(&self.bindings, family_local.id) {
            Some(binding) => binding.clone(),
            None => BindingIdentity::local(0, 0),
        };
        insert_entry(&mut self.bindings, local.id, binding.clone());
        let ghost listed = origins.listed();
        let ghost before = old(self)@;
        let ghost made_binding = |origin: OriginView|
            before.definition_binding(family_local, origin);
        let ghost made_origin = |origin: OriginView| before.definition_origin(family_local, origin);
        let count: usize = origins.len();
        let mut index: usize = 0;
        proof {
            assert(self@.bindings =~= before.bindings.insert(local.id, binding@));
            assert(self@.blocks =~= before.blocks);
            assert(self@.edges =~= before.edges);
            assert(self@.families =~= before.families);
            assert(listed.take(0).to_set() =~= Set::empty());
        }
        while index < count
            invariant
                index <= count == listed.len(),
                listed == origins.listed(),
                self.well_formed(),
                before == old(self)@,
                before.bindings.dom().contains(family_local.id),
                binding@ == before.bindings[family_local.id],
                made_binding == (|origin: OriginView|
                    before.definition_binding(family_local, origin)),
                made_origin == (|origin: OriginView|
                    before.definition_origin(family_local, origin)),
                self@ == (CfgView {
                    bindings: before.bindings.insert(local.id, binding@),
                    provenance: self@.provenance,
                    ..before
                }),
                self@.provenance == (if index == 0 {
                    before.provenance
                } else {
                    before.provenance.insert(
                        local.id,
                        LocalProvenanceView {
                            bindings: before.known(local).bindings.union(
                                listed.take(index as int).to_set().map(made_binding),
                            ),
                            definitions: before.known(local).definitions.union(
                                listed.take(index as int).to_set().map(made_origin),
                            ),
                            uses: before.known(local).uses,
                        },
                    )
                }),
            decreases count - index,
        {
            let origin = origins.get(index);
            let ghost shorter = listed.take(index as int).to_set();
            let ghost earlier = self@.provenance;
            let (made, from) = match find_entry(&self.register_families, family_local.id) {
                Some(family) => {
                    proof {
                        assert(before.families == self@.families);
                        assert(self@.families.dom().contains(family_local.id));
                        assert(self@.families[family_local.id] == family@);
                    }
                    (
                        family.binding_at(origin.instruction),
                        family.definition_origin(origin.clone()),
                    )
                },
                None => {
                    proof {
                        assert(before.families == self@.families);
                        assert(!self@.families.dom().contains(family_local.id));
                    }
                    (binding.clone(), origin.clone())
                },
            };
            proof {
                assert(made@ == made_binding(origin@));
                assert(from@ == made_origin(origin@));
            }
            self.provenance.record_definition(local, made, from);
            index += 1;
            proof {
                lemma_prefix_set(listed, index - 1);
                lemma_map_insert(shorter, origin@, made_binding);
                lemma_map_insert(shorter, origin@, made_origin);
                let longer = listed.take(index as int).to_set();
                let now = LocalProvenanceView {
                    bindings: before.known(local).bindings.union(longer.map(made_binding)),
                    definitions: before.known(local).definitions.union(longer.map(made_origin)),
                    uses: before.known(local).uses,
                };
                if index == 1 {
                    assert(shorter =~= Set::empty());
                    assert(shorter.map(made_binding) =~= Set::empty());
                    assert(shorter.map(made_origin) =~= Set::empty());
                }
                assert(self@.provenance[local.id] =~= now);
                assert(self@.provenance =~= before.provenance.insert(local.id, now));
                assert(self@.blocks =~= before.blocks);
                assert(self@.edges =~= before.edges);
                assert(self@ =~= (CfgView {
                    bindings: before.bindings.insert(local.id, binding@),
                    provenance: self@.provenance,
                    ..before
                }));
            }
        }
        proof {
            assert(listed.take(count as int) =~= listed);
            if count == 0 {
                assert(listed =~= Seq::empty());
                assert(origins@ =~= Set::empty());
            } else {
                assert(origins@.contains(listed[0]));
            }
        }
        local
    }
}

/// Whether `used` holds an origin of use for every origin, and nothing else.
pub open spec fn are_use_origins(
    families: Map<u64, FamilyView>,
    binding: Option<BindingView>,
    origins: Set<OriginView>,
    used: Set<OriginView>,
) -> bool {
    &&& forall|origin: OriginView|
        #![trigger origins.contains(origin)]
        origins.contains(origin) ==> exists|use_origin: OriginView|
            #![trigger used.contains(use_origin)]
            used.contains(use_origin) && is_use_origin(families, binding, origin, use_origin)
    &&& forall|use_origin: OriginView|
        #![trigger used.contains(use_origin)]
        used.contains(use_origin) ==> exists|origin: OriginView|
            #![trigger origins.contains(origin)]
            origins.contains(origin) && is_use_origin(families, binding, origin, use_origin)
}

impl Function {
    /// A stretch of one of the families that has the ends asked for and covers
    /// an instruction. Which one is found first is left open.
    fn find_lifetime(&self, start: usize, end: usize, instruction: usize) -> (found: Option<
        DebugLifetime,
    >)
        ensures
            match found {
                Some(found) => {
                    &&& found@.start == start
                    &&& found@.end == end
                    &&& found@.covers(instruction)
                    &&& exists|id: u64, i: int|
                        #![trigger self@.families[id].lifetimes[i]]
                        self@.families.dom().contains(id) && 0 <= i
                            < self@.families[id].lifetimes.len()
                            && self@.families[id].lifetimes[i] == found@
                },
                None => forall|id: u64, i: int|
                    #![trigger self@.families[id].lifetimes[i]]
                    self@.families.dom().contains(id) && 0 <= i < self@.families[id].lifetimes.len()
                        ==> {
                        let lifetime = self@.families[id].lifetimes[i];
                        !(lifetime.start == start && lifetime.end == end && lifetime.covers(
                            instruction,
                        ))
                    },
            },
    {
        let keys = entry_keys(&self.register_families);
        let mut index: usize = 0;
        while index < keys.len()
            invariant
                index <= keys.len(),
                keys@.to_set() == self.register_families@.dom(),
                forall|k: int, i: int|
                    #![trigger self@.families[keys@[k]].lifetimes[i]]
                    0 <= k < index && 0 <= i < self@.families[keys@[k]].lifetimes.len() ==> {
                        let lifetime = self@.families[keys@[k]].lifetimes[i];
                        !(lifetime.start == start && lifetime.end == end && lifetime.covers(
                            instruction,
                        ))
                    },
            decreases keys.len() - index,
        {
            let key: u64 = keys[index];
            proof {
                assert(keys@.to_set().contains(keys@[index as int]));
            }
            match find_entry(&self.register_families, key) {
                Some(family) => {
                    proof {
                        assert(self@.families[key] == family@);
                    }
                    let mut at: usize = 0;
                    while at < family.debug_lifetimes.len()
                        invariant
                            at <= family.debug_lifetimes.len(),
                            self@.families.dom().contains(key),
                            self@.families[key] == family@,
                            forall|i: int|
                                #![trigger self@.families[key].lifetimes[i]]
                                0 <= i < at ==> {
                                    let lifetime = self@.families[key].lifetimes[i];
                                    !(lifetime.start == start && lifetime.end == end
                                        && lifetime.covers(instruction))
                                },
                        decreases family.debug_lifetimes.len() - at,
                    {
                        let lifetime = &family.debug_lifetimes[at];
                        proof {
                            assert(self@.families[key].lifetimes[at as int] == lifetime@);
                        }
                        if lifetime.start_instruction == start && lifetime.end_instruction == end
                            && lifetime.contains(instruction) {
                            return Some(lifetime.clone());
                        }
                        at += 1;
                    }
                },
                None => {},
            }
            index += 1;
        }
        proof {
            assert forall|id: u64, i: int|
                #![trigger self@.families[id].lifetimes[i]]
                self@.families.dom().contains(id) && 0 <= i
                    < self@.families[id].lifetimes.len() implies {
                let lifetime = self@.families[id].lifetimes[i];
                !(lifetime.start == start && lifetime.end == end && lifetime.covers(instruction))
            } by {
                assert(keys@.to_set().contains(id));
                let k = choose|k: int| 0 <= k < keys@.len() && keys@[k] == id;
                assert(self@.families[keys@[k]].lifetimes[i] == self@.families[id].lifetimes[i]);
            }
        }
        None
    }

    /// The origin of a use of a local that stands for `binding`.
    fn use_origin(&self, binding: &Option<BindingIdentity>, origin: &SourceOrigin) -> (used:
        SourceOrigin)
        ensures
            is_use_origin(
                self@.families,
                match *binding {
                    Some(binding) => Some(binding@),
                    None => None,
                },
                origin@,
                used@,
            ),
    {
        let mut used = origin.clone();
        match binding {
            Some(BindingIdentity::Local { register, lifetime, .. }) => {
                used.register_family = Some(*register);
                used.debug_lifetime = match lifetime {
                    Some((start, end)) => {
                        let found = self.find_lifetime(*start, *end, origin.instruction);
                        proof {
                            if found is None {
                                assert forall|candidate: LifetimeView|
                                    !#[trigger] fits_use(
                                        self@.families,
                                        *lifetime,
                                        origin@,
                                        candidate,
                                    ) by {
                                }
                            }
                        }
                        found
                    },
                    None => None,
                };
            },
            Some(BindingIdentity::Parameter { register, .. }) => {
                used.register_family = Some(*register);
            },
            _ => {},
        }
        used
    }

    /// Records that a statement uses a local, at each of the origins of the
    /// statement.
    pub fn record_use(&mut self, local: RcLocal, node: NodeId, statement: usize)
        requires
            old(self).well_formed(),
        ensures
            final(self).well_formed(),
            final(self)@ == (CfgView { provenance: final(self)@.provenance, ..old(self)@ }),
            old(self)@.origins_of(node, statement as int) is None
                || !old(self)@.provenance.dom().contains(local.id) ==> final(self)@ == old(self)@,
            old(self)@.origins_of(node, statement as int) matches Some(origins)
                ==> old(self)@.provenance.dom().contains(local.id) ==> exists|used: Set<OriginView>|
                {
                    &&& #[trigger] are_use_origins(
                        old(self)@.families,
                        old(self)@.binding_of(local),
                        origins,
                        used,
                    )
                    &&& final(self)@.provenance == old(self)@.provenance.insert(
                        local.id,
                        LocalProvenanceView {
                            uses: old(self)@.provenance[local.id].uses.union(used),
                            ..old(self)@.provenance[local.id]
                        },
                    )
                },
    {
        let origins = match self.statement_origins(node, statement) {
            Some(origins) => origins.clone(),
            None => {
                return;
            },
        };
        let binding = match self.provenance.binding(local) {
            Some(binding) => {
                proof {
                    lemma_single_binding(self.provenance.known(local).bindings, binding@);
                }
                Some(binding.clone())
            },
            None => {
                proof {
                    lemma_no_single_binding(self.provenance.known(local).bindings);
                }
                match find_entry(&self.bindings, local.id) {
                    Some(binding) => Some(binding.clone()),
                    None => None,
                }
            },
        };
        let ghost standing = self@.binding_of(local);
        let ghost listed = origins.listed();
        let ghost before = self@;
        let ghost mut used: Set<OriginView> = Set::empty();
        let count: usize = origins.len();
        let mut index: usize = 0;
        proof {
            assert(listed.take(0).to_set() =~= Set::empty());
            if before.provenance.dom().contains(local.id) {
                assert(before.provenance =~= before.provenance.insert(
                    local.id,
                    LocalProvenanceView {
                        uses: before.provenance[local.id].uses.union(used),
                        ..before.provenance[local.id]
                    },
                )) by {
                    assert(before.provenance[local.id].uses.union(used)
                        =~= before.provenance[local.id].uses);
                }
            }
        }
        while index < count
            invariant
                index <= count == listed.len(),
                listed == origins.listed(),
                self.well_formed(),
                before == old(self)@,
                standing == before.binding_of(local),
                standing == (match binding {
                    Some(binding) => Some(binding@),
                    None => None,
                }),
                self@ == (CfgView { provenance: self@.provenance, ..before }),
                !before.provenance.dom().contains(local.id) ==> self@.provenance
                    == before.provenance,
                before.provenance.dom().contains(local.id) ==> {
                    &&& are_use_origins(
                        before.families,
                        standing,
                        listed.take(index as int).to_set(),
                        used,
                    )
                    &&& self@.provenance == before.provenance.insert(
                        local.id,
                        LocalProvenanceView {
                            uses: before.provenance[local.id].uses.union(used),
                            ..before.provenance[local.id]
                        },
                    )
                },
            decreases count - index,
        {
            let origin = origins.get(index);
            let made = self.use_origin(&binding, origin);
            let ghost shorter = listed.take(index as int).to_set();
            let ghost earlier = used;
            let ghost made_view = made@;
            let ghost origin_view = origin@;
            self.provenance.record_use(local, made);
            index += 1;
            proof {
                assert(self@.blocks =~= before.blocks);
                assert(self@.edges =~= before.edges);
                assert(self@ =~= (CfgView { provenance: self@.provenance, ..before }));
                used = used.insert(made_view);
                lemma_prefix_set(listed, index - 1);
                let longer = listed.take(index as int).to_set();
                if before.provenance.dom().contains(local.id) {
                    assert(before.provenance[local.id].uses.union(earlier).insert(made_view)
                        =~= before.provenance[local.id].uses.union(used));
                    assert(self@.provenance =~= before.provenance.insert(
                        local.id,
                        LocalProvenanceView {
                            uses: before.provenance[local.id].uses.union(used),
                            ..before.provenance[local.id]
                        },
                    ));
                    assert forall|o: OriginView|
                        #![trigger longer.contains(o)]
                        longer.contains(o) implies exists|u: OriginView|
                        #![trigger used.contains(u)]
                        used.contains(u) && is_use_origin(before.families, standing, o, u) by {
                        if o == origin_view {
                            assert(used.contains(made_view));
                        } else {
                            assert(shorter.contains(o));
                            let u = choose|u: OriginView|
                                #![trigger earlier.contains(u)]
                                earlier.contains(u) && is_use_origin(
                                    before.families,
                                    standing,
                                    o,
                                    u,
                                );
                            assert(used.contains(u));
                        }
                    }
                    assert forall|u: OriginView|
                        #![trigger used.contains(u)]
                        used.contains(u) implies exists|o: OriginView|
                        #![trigger longer.contains(o)]
                        longer.contains(o) && is_use_origin(before.families, standing, o, u) by {
                        if u == made_view {
                            assert(longer.contains(origin_view));
                        } else {
                            assert(earlier.contains(u));
                            let o = choose|o: OriginView|
                                #![trigger shorter.contains(o)]
                                shorter.contains(o) && is_use_origin(
                                    before.families,
                                    standing,
                                    o,
                                    u,
                                );
                            assert(longer.contains(o));
                        }
                    }
                }
            }
        }
        proof {
            assert(listed.take(count as int) =~= listed);
            if before.provenance.dom().contains(local.id) {
                assert(before.origins_of(node, statement as int) == Some(origins@));
                assert(are_use_origins(before.families, standing, origins@, used));
                assert(self@.provenance == before.provenance.insert(
                    local.id,
                    LocalProvenanceView {
                        uses: before.provenance[local.id].uses.union(used),
                        ..before.provenance[local.id]
                    },
                ));
                assert(are_use_origins(
                    old(self)@.families,
                    old(self)@.binding_of(local),
                    old(self)@.origins_of(node, statement as int)->0,
                    used,
                ));
            }
        }
    }
}

impl EdgeView {
    /// The pairs of blocks that edges join.
    pub open spec fn arcs(edges: Seq<EdgeView>) -> Set<(u32, u32)> {
        Set::new(
            |arc: (u32, u32)|
                exists|i: int|
                    0 <= i < edges.len() && (#[trigger] edges[i]).source == arc.0 && edges[i].target
                        == arc.1,
        )
    }
}

impl Function {
    pub(crate) proof fn lemma_arcs(&self)
        ensures
            EdgeView::arcs(self@.edges) == graph::graph_arcs(graph::graph_edges(self.graph_of())),
            self@.blocks.dom() == graph::graph_nodes(self.graph_of()).dom(),
    {
        let raw = graph::graph_edges(self.graph);
        let edges = self@.edges;
        assert forall|arc: (u32, u32)|
            EdgeView::arcs(edges).contains(arc) == graph::graph_arcs(raw).contains(arc) by {
            if EdgeView::arcs(edges).contains(arc) {
                let i = choose|i: int|
                    0 <= i < edges.len() && (#[trigger] edges[i]).source == arc.0 && edges[i].target
                        == arc.1;
                assert(raw[i].1 == arc.0);
            }
            if graph::graph_arcs(raw).contains(arc) {
                let i = choose|i: int|
                    0 <= i < raw.len() && (#[trigger] raw[i]).1 == arc.0 && raw[i].2 == arc.1;
                assert(edges[i].source == arc.0);
            }
        }
        assert(EdgeView::arcs(edges) =~= graph::graph_arcs(raw));
        assert(self@.blocks.dom() =~= graph::graph_nodes(self.graph).dom());
    }

    /// The graph of the blocks.
    pub closed spec fn graph_of(&self) -> NumberGraph {
        self.graph
    }

    /// The graph of the blocks: each node carries the place of its block.
    pub fn graph(&self) -> (graph: &NumberGraph)
        ensures
            *graph == self.graph_of(),
            EdgeView::arcs(self@.edges) == graph::graph_arcs(graph::graph_edges(*graph)),
            self@.blocks.dom() == graph::graph_nodes(*graph).dom(),
    {
        proof {
            self.lemma_arcs();
        }
        &self.graph
    }

    /// Every edge once, the one with the lowest number first.
    pub fn edge_references(&self) -> (edges: Vec<EdgeReference<'_>>)
        requires
            self.well_formed(),
        ensures
            EdgeReference::views(edges@).to_multiset() == self@.edges.to_multiset(),
            forall|i: int, j: int| 0 <= i < j < edges@.len() ==> edges@[i].id < edges@[j].id,
    {
        let raw = graph::edge_references(&self.graph);
        let ghost all = graph::graph_edges(self.graph);
        proof {
            broadcast use vstd::seq_lib::group_to_multiset_ensures;

            assert forall|i: int| 0 <= i < raw@.len() implies (#[trigger] raw@[i]).3
                < self.edges@.len() by {
                assert(raw@.to_multiset().contains(raw@[i]));
                assert(all.contains(raw@[i]));
            }
            let f = |edge: (u32, u32, u32, u64)| self.edge_view(edge);
            lemma_multiset_map(raw@, all, f);
            assert(raw@.map_values(f) =~= Seq::new(raw@.len(), |i: int| self.edge_view(raw@[i])));
            assert(all.map_values(f) =~= self@.edges);
        }
        let edges = self.references(raw);
        proof {
            assert forall|i: int, j: int| 0 <= i < j < edges@.len() implies edges@[i].id
                < edges@[j].id by {
                assert(EdgeReference::views(edges@)[i] == self.edge_view(raw@[i]));
                assert(EdgeReference::views(edges@)[j] == self.edge_view(raw@[j]));
            }
        }
        edges
    }
}

proof fn lemma_multiset_map<A, B>(left: Seq<A>, right: Seq<A>, f: spec_fn(A) -> B)
    requires
        left.to_multiset() == right.to_multiset(),
    ensures
        left.map_values(f).to_multiset() == right.map_values(f).to_multiset(),
    decreases left.len(),
{
    broadcast use vstd::seq_lib::group_to_multiset_ensures;

    assert(left.len() == left.to_multiset().len());
    assert(right.len() == right.to_multiset().len());
    if left.len() == 0 {
        assert(left.map_values(f) =~= right.map_values(f));
    } else {
        let last = left.last();
        assert(left.to_multiset().contains(last));
        assert(right.contains(last));
        let place = choose|i: int| 0 <= i < right.len() && right[i] == last;
        let rest = right.remove(place);
        assert(left.drop_last() =~= left.remove(left.len() - 1));
        assert(left.drop_last().to_multiset() =~= rest.to_multiset());
        lemma_multiset_map(left.drop_last(), rest, f);
        assert(left.map_values(f) =~= left.drop_last().map_values(f).push(f(last)));
        assert(right.map_values(f).remove(place) =~= rest.map_values(f));
        assert(right.map_values(f)[place] == f(last));
        assert(right.map_values(f) =~= rest.map_values(f).insert(place, f(last)));
    }
}

impl EdgeView {
    /// The edges that leave a block are those among all edges that have it for
    /// their source.
    pub proof fn leaving_edges(edges: Seq<EdgeView>, node: u32, edge: EdgeView)
        ensures
            Self::leaving(edges, node).contains(edge) <==> edges.contains(edge) && edge.source
                == node,
        decreases edges.len(),
    {
        if edges.len() > 0 {
            let front = edges.drop_last();
            Self::leaving_edges(front, node, edge);
            let all = Self::leaving(edges, node);
            let rest = Self::leaving(front, node);
            let here = if edges.last().source == node {
                1int
            } else {
                0
            };
            if rest.contains(edge) {
                let i = choose|i: int| 0 <= i < rest.len() && rest[i] == edge;
                assert(all[i + here] == edge);
            }
            if all.contains(edge) {
                let i = choose|i: int| 0 <= i < all.len() && all[i] == edge;
                if i >= here {
                    assert(rest[i - here] == edge);
                }
            }
            if front.contains(edge) {
                let i = choose|i: int| 0 <= i < front.len() && front[i] == edge;
                assert(edges[i] == edge);
            }
            if edges.contains(edge) {
                let i = choose|i: int| 0 <= i < edges.len() && edges[i] == edge;
                if i < front.len() {
                    assert(front[i] == edge);
                } else if edge.source == node {
                    assert(all[0] == edge);
                }
            }
            assert(edges[edges.len() - 1] == edges.last());
        }
    }

    /// The edges that enter a block are those among all edges that have it for
    /// their target.
    pub proof fn entering_edges(edges: Seq<EdgeView>, node: u32, edge: EdgeView)
        ensures
            Self::entering(edges, node).contains(edge) <==> edges.contains(edge) && edge.target
                == node,
        decreases edges.len(),
    {
        if edges.len() > 0 {
            let front = edges.drop_last();
            Self::entering_edges(front, node, edge);
            let all = Self::entering(edges, node);
            let rest = Self::entering(front, node);
            let here = if edges.last().target == node {
                1int
            } else {
                0
            };
            if rest.contains(edge) {
                let i = choose|i: int| 0 <= i < rest.len() && rest[i] == edge;
                assert(all[i + here] == edge);
            }
            if all.contains(edge) {
                let i = choose|i: int| 0 <= i < all.len() && all[i] == edge;
                if i >= here {
                    assert(rest[i - here] == edge);
                }
            }
            if front.contains(edge) {
                let i = choose|i: int| 0 <= i < front.len() && front[i] == edge;
                assert(edges[i] == edge);
            }
            if edges.contains(edge) {
                let i = choose|i: int| 0 <= i < edges.len() && edges[i] == edge;
                if i < front.len() {
                    assert(front[i] == edge);
                } else if edge.target == node {
                    assert(all[0] == edge);
                }
            }
            assert(edges[edges.len() - 1] == edges.last());
        }
    }

    /// A block is listed among the successors of another exactly when an edge
    /// joins them.
    pub proof fn successors_are_joined(edges: Seq<EdgeView>, node: u32, other: u32)
        ensures
            Self::targets(Self::leaving(edges, node)).contains(other) <==> Self::arcs(
                edges,
            ).contains((node, other)),
    {
        let leaving = Self::leaving(edges, node);
        let targets = Self::targets(leaving);
        if targets.contains(other) {
            let i = choose|i: int| 0 <= i < targets.len() && targets[i] == other;
            Self::leaving_edges(edges, node, leaving[i]);
            assert(leaving.contains(leaving[i]));
            let k = choose|k: int| 0 <= k < edges.len() && edges[k] == leaving[i];
            assert(edges[k].source == node && edges[k].target == other);
        }
        if Self::arcs(edges).contains((node, other)) {
            let k = choose|k: int|
                0 <= k < edges.len() && (#[trigger] edges[k]).source == node && edges[k].target
                    == other;
            Self::leaving_edges(edges, node, edges[k]);
            assert(edges.contains(edges[k]));
            let i = choose|i: int| 0 <= i < leaving.len() && leaving[i] == edges[k];
            assert(targets[i] == other);
        }
    }

    /// A block is listed among the predecessors of another exactly when an
    /// edge joins them.
    pub proof fn predecessors_are_joined(edges: Seq<EdgeView>, node: u32, other: u32)
        ensures
            Self::sources(Self::entering(edges, node)).contains(other) <==> Self::arcs(
                edges,
            ).contains((other, node)),
    {
        let entering = Self::entering(edges, node);
        let sources = Self::sources(entering);
        if sources.contains(other) {
            let i = choose|i: int| 0 <= i < sources.len() && sources[i] == other;
            Self::entering_edges(edges, node, entering[i]);
            assert(entering.contains(entering[i]));
            let k = choose|k: int| 0 <= k < edges.len() && edges[k] == entering[i];
            assert(edges[k].source == other && edges[k].target == node);
        }
        if Self::arcs(edges).contains((other, node)) {
            let k = choose|k: int|
                0 <= k < edges.len() && (#[trigger] edges[k]).source == other && edges[k].target
                    == node;
            Self::entering_edges(edges, node, edges[k]);
            assert(edges.contains(edges[k]));
            let i = choose|i: int| 0 <= i < entering.len() && entering[i] == edges[k];
            assert(sources[i] == other);
        }
    }
}

impl Function {
    /// Every edge joins two blocks of the function, and no two edges have one
    /// number.
    pub proof fn edges_join_blocks(&self)
        requires
            self.well_formed(),
        ensures
            forall|i: int|
                0 <= i < self@.edges.len() ==> self@.blocks.dom().contains(
                    (#[trigger] self@.edges[i]).source,
                ) && self@.blocks.dom().contains(self@.edges[i].target),
            forall|i: int, j: int|
                0 <= i < j < self@.edges.len() ==> (#[trigger] self@.edges[i]).id != (
                #[trigger] self@.edges[j]).id,
            self@.blocks.dom().finite(),
    {
        let raw = graph::graph_edges(self.graph);
        assert(self@.blocks.dom() =~= graph::graph_nodes(self.graph).dom());
        assert forall|i: int| 0 <= i < self@.edges.len() implies self@.blocks.dom().contains(
            (#[trigger] self@.edges[i]).source,
        ) && self@.blocks.dom().contains(self@.edges[i].target) by {
            assert(raw[i].1 == self@.edges[i].source);
        }
        assert forall|i: int, j: int| 0 <= i < j < self@.edges.len() implies (
        #[trigger] self@.edges[i]).id != (#[trigger] self@.edges[j]).id by {
            assert(raw[i].0 != raw[j].0);
        }
    }
}

impl Function {
    /// Gives the function other parameters.
    pub fn set_parameters(&mut self, parameters: Vec<RcLocal>)
        requires
            old(self).well_formed(),
        ensures
            final(self).well_formed(),
            final(self)@ == (CfgView { parameters: parameters@, ..old(self)@ }),
    {
        self.parameters = parameters;
        proof {
            assert(self@.blocks =~= old(self)@.blocks);
            assert(self@.edges =~= old(self)@.edges);
        }
    }

    /// Gives an edge other arguments.
    pub fn set_arguments(&mut self, id: u32, arguments: Vec<(RcLocal, RValue)>)
        requires
            old(self).well_formed(),
            exists|i: int| 0 <= i < old(self)@.edges.len() && (#[trigger] old(self)@.edges[i]).id == id,
        ensures
            final(self).well_formed(),
            forall|i: int|
                0 <= i < old(self)@.edges.len() && (#[trigger] old(self)@.edges[i]).id == id
                    ==> final(self)@ == (CfgView {
                    edges: old(self)@.edges.update(
                        i,
                        EdgeView {
                            arguments: BlockEdge::argument_views(arguments@),
                            ..old(self)@.edges[i]
                        },
                    ),
                    ..old(self)@
                }),
    {
        let raw = graph::edge_references(&self.graph);
        let ghost all = graph::graph_edges(self.graph);
        let mut index: usize = 0;
        while index < raw.len()
            invariant
                index <= raw.len(),
                raw@.to_multiset() == all.to_multiset(),
                all == graph::graph_edges(self.graph),
                *self == *old(self),
                self.well_formed(),
                forall|i: int| 0 <= i < index ==> (#[trigger] raw@[i]).0 != id,
            decreases raw.len() - index,
        {
            broadcast use vstd::seq_lib::group_to_multiset_ensures;

            let (found, source, target, place) = raw[index];
            if found == id {
                proof {
                    assert(raw@.to_multiset().contains(raw@[index as int]));
                    assert(all.contains(raw@[index as int]));
                }
                let ghost at = choose|k: int| 0 <= k < all.len() && all[k] == raw@[index as int];
                let length: usize = self.edges.len();
                assert(all[at].3 < length);
                let branch_type = self.edges[place as usize].branch_type;
                self.edges.set(place as usize, BlockEdge { branch_type, arguments });
                proof {
                    let expected = old(self)@.edges.update(
                        at,
                        EdgeView {
                            arguments: BlockEdge::argument_views(arguments@),
                            ..old(self)@.edges[at]
                        },
                    );
                    assert forall|k: int| 0 <= k < all.len() implies self@.edges[k]
                        == expected[k] by {
                        if k != at {
                            if k < at {
                                assert(all[k].3 != all[at].3);
                            } else {
                                assert(all[at].3 != all[k].3);
                            }
                        }
                    }
                    assert(self@.edges =~= expected);
                    assert(self@.blocks =~= old(self)@.blocks);
                    assert(self@ =~= (CfgView { edges: expected, ..old(self)@ }));
                    assert forall|i: int|
                        0 <= i < old(self)@.edges.len() && (#[trigger] old(self)@.edges[i]).id
                            == id implies i == at by {
                        assert(all[i].0 == id);
                        assert(all[at].0 == id);
                    }
                }
                return;
            }
            index += 1;
        }
        proof {
            broadcast use vstd::seq_lib::group_to_multiset_ensures;

            let i = choose|i: int|
                0 <= i < old(self)@.edges.len() && (#[trigger] old(self)@.edges[i]).id == id;
            assert(all[i].0 == id);
            assert(all.to_multiset().contains(all[i]));
            assert(raw@.contains(all[i]));
            let k = choose|k: int| 0 <= k < raw@.len() && raw@[k] == all[i];
            assert(raw@[k].0 != id);
        }
    }
}

impl Function {
    /// The statements of a block can be counted.
    pub proof fn blocks_are_countable(&self)
        requires
            self.well_formed(),
        ensures
            forall|node: u32|
                self@.blocks.dom().contains(node) ==> (#[trigger] self@.blocks[node]).len()
                    <= usize::MAX,
    {
        assert forall|node: u32| self@.blocks.dom().contains(node) implies (
        #[trigger] self@.blocks[node]).len() <= usize::MAX by {
            let place = graph::graph_nodes(self.graph)[node];
            let block = self.blocks@[place as int];
            assert(self@.blocks[node] == block@);
            assert(block.0.len() == block.0@.len());
        }
    }
}

} // verus!
