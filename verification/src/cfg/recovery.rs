//! What a function shows before its structure is recovered.

use vstd::prelude::*;

use crate::ast::local::RcLocal;
use crate::ast::nodes;
use crate::ast::nodes::{RValue, RValueView};
use crate::ast::LocalRw;
use crate::cfg::block::{BlockEdge, BranchType, EdgeView};
use crate::cfg::effects::{summarize_effects, EffectSummary, EffectView, StatementLocation};
use crate::cfg::function::{CfgView, EdgeReference, Function};
use crate::cfg::graph;
use crate::cfg::graph::NodeId;
use crate::cfg::local_set::LocalSet;
use crate::cfg::node_set::NodeSet;
use crate::cfg::provenance::{BindingSet, LocalProvenanceView, OriginSet, OriginView};

verus! {

broadcast use nodes::group_views;

/// What cannot be recovered from.
#[derive(Debug, Clone, Copy, PartialEq, Eq, Structural)]
pub enum RecoveryError {
    InvalidEntry { function_id: usize, entry: NodeId },
}

/// Which optional facts are wanted.
///
/// Facts must be built while the function is still in SSA form, so they cannot
/// be computed on first access: by the time a consumer reads them, SSA
/// destruction has already discarded the information they describe. Demand is
/// therefore declared up front, and an unrequested fact reads back as `None`
/// rather than as an empty collection that would be indistinguishable from a
/// genuinely empty result.
#[derive(Debug, Clone, Copy, PartialEq, Eq, Structural)]
pub struct FactSet {
    pub locals: bool,
    pub statement_origins: bool,
    pub edges: bool,
    pub dominators: bool,
    pub post_dominators: bool,
    pub effects: bool,
}

impl FactSet {
    /// No optional fact.
    pub fn none() -> (facts: Self)
        ensures
            facts == (FactSet {
                locals: false,
                statement_origins: false,
                edges: false,
                dominators: false,
                post_dominators: false,
                effects: false,
            }),
    {
        FactSet {
            locals: false,
            statement_origins: false,
            edges: false,
            dominators: false,
            post_dominators: false,
            effects: false,
        }
    }

    /// Every optional fact.
    pub fn all() -> (facts: Self)
        ensures
            facts == (FactSet {
                locals: true,
                statement_origins: true,
                edges: true,
                dominators: true,
                post_dominators: true,
                effects: true,
            }),
    {
        FactSet {
            locals: true,
            statement_origins: true,
            edges: true,
            dominators: true,
            post_dominators: true,
            effects: true,
        }
    }

    /// What source reconstruction reads. The candidate regions are always
    /// derived and are not part of this set; they are paired with edge facts
    /// to find the returns a region exits through, so edges belong here.
    pub fn reconstruction() -> (facts: Self)
        ensures
            facts == (FactSet {
                locals: false,
                statement_origins: false,
                edges: true,
                dominators: false,
                post_dominators: false,
                effects: false,
            }),
    {
        FactSet { edges: true, ..FactSet::none() }
    }

    pub fn union(self, other: Self) -> (facts: Self)
        ensures
            facts == (FactSet {
                locals: self.locals || other.locals,
                statement_origins: self.statement_origins || other.statement_origins,
                edges: self.edges || other.edges,
                dominators: self.dominators || other.dominators,
                post_dominators: self.post_dominators || other.post_dominators,
                effects: self.effects || other.effects,
            }),
    {
        FactSet {
            locals: self.locals || other.locals,
            statement_origins: self.statement_origins || other.statement_origins,
            edges: self.edges || other.edges,
            dominators: self.dominators || other.dominators,
            post_dominators: self.post_dominators || other.post_dominators,
            effects: self.effects || other.effects,
        }
    }

    /// Whether every fact of another set is in this one.
    pub open spec fn includes(self, other: FactSet) -> bool {
        &&& other.locals ==> self.locals
        &&& other.statement_origins ==> self.statement_origins
        &&& other.edges ==> self.edges
        &&& other.dominators ==> self.dominators
        &&& other.post_dominators ==> self.post_dominators
        &&& other.effects ==> self.effects
    }

    pub fn contains(self, other: Self) -> (result: bool)
        ensures
            result == self.includes(other),
    {
        (!other.locals || self.locals) && (!other.statement_origins || self.statement_origins) && (
        !other.edges || self.edges) && (!other.dominators || self.dominators) && (
        !other.post_dominators || self.post_dominators) && (!other.effects || self.effects)
    }
}

/// When an edge is taken, in the order that edges are listed by.
#[derive(Debug, Clone, Copy, PartialEq, Eq, PartialOrd, Ord, Hash, Structural)]
pub enum BranchKind {
    Unconditional,
    Then,
    Else,
}

impl BranchKind {
    pub open spec fn of(branch: BranchType) -> BranchKind {
        match branch {
            BranchType::Unconditional => BranchKind::Unconditional,
            BranchType::Then => BranchKind::Then,
            BranchType::Else => BranchKind::Else,
        }
    }

    /// The place of a kind in the order.
    pub open spec fn rank(self) -> int {
        match self {
            BranchKind::Unconditional => 0,
            BranchKind::Then => 1,
            BranchKind::Else => 2,
        }
    }
}

impl<'a> From<&'a BranchType> for BranchKind {
    fn from(branch: &'a BranchType) -> (kind: Self) {
        match branch {
            BranchType::Unconditional => BranchKind::Unconditional,
            BranchType::Then => BranchKind::Then,
            BranchType::Else => BranchKind::Else,
        }
    }
}

impl<'a> vstd::std_specs::convert::FromSpecImpl<&'a BranchType> for BranchKind {
    open spec fn obeys_from_spec() -> bool {
        true
    }

    open spec fn from_spec(branch: &'a BranchType) -> Self {
        BranchKind::of(*branch)
    }
}

/// A set of blocks that form a loop, and the block that it is entered by.
#[derive(Debug)]
pub struct CandidateRegion {
    pub header: NodeId,
    pub members: NodeSet,
}

/// Whether a block lies on a cycle.
pub open spec fn on_cycle(arcs: Set<(u32, u32)>, node: u32) -> bool {
    exists|other: u32| #[trigger]
        arcs.contains((node, other)) && graph::reaches(arcs, other, node)
}

/// The blocks that a block reaches and is reached from.
pub open spec fn companions(arcs: Set<(u32, u32)>, nodes: Set<u32>, node: u32) -> Set<u32> {
    nodes.filter(
        |other: u32| graph::reaches(arcs, node, other) && graph::reaches(arcs, other, node),
    )
}

/// Whether a member of a set is entered from outside it.
pub open spec fn entered(arcs: Set<(u32, u32)>, members: Set<u32>, node: u32) -> bool {
    exists|other: u32| #[trigger] arcs.contains((other, node)) && !members.contains(other)
}

/// Whether a block is the header of a set: the lowest of those entered from
/// outside, or the lowest of all where none is.
pub open spec fn is_header(arcs: Set<(u32, u32)>, members: Set<u32>, header: u32) -> bool {
    &&& members.contains(header)
    &&& if exists|node: u32| members.contains(node) && #[trigger] entered(arcs, members, node) {
        &&& entered(arcs, members, header)
        &&& forall|node: u32|
            members.contains(node) && #[trigger] entered(arcs, members, node) ==> header <= node
    } else {
        forall|node: u32| #[trigger] members.contains(node) ==> header <= node
    }
}

/// Whether regions are the loops of a graph: each the companions of a block on
/// a cycle, every such block in one of them, in the order of their headers.
pub open spec fn are_regions(
    arcs: Set<(u32, u32)>,
    nodes: Set<u32>,
    regions: Seq<CandidateRegion>,
) -> bool {
    &&& forall|i: int|
        0 <= i < regions.len() ==> is_region(arcs, nodes, #[trigger] regions[i])
    &&& forall|node: u32|
        nodes.contains(node) && #[trigger] on_cycle(arcs, node) ==> exists|i: int|
            0 <= i < regions.len() && (#[trigger] regions[i]).members@.contains(node)
    &&& forall|i: int, j: int| 0 <= i < j < regions.len() ==> regions[i].header < regions[j].header
}

/// Following arcs to a node, and from there to another, leads to the other.
pub proof fn reaching_is_transitive(arcs: Set<(u32, u32)>, a: u32, b: u32, c: u32)
    requires
        graph::reaches(arcs, a, b),
        graph::reaches(arcs, b, c),
    ensures
        graph::reaches(arcs, a, c),
{
    let first = choose|path: Seq<u32>| graph::leads(arcs, a, b, path);
    let second = choose|path: Seq<u32>| graph::leads(arcs, b, c, path);
    let whole = first + second.skip(1);
    assert forall|i: int| 0 <= i < whole.len() - 1 implies #[trigger] graph::follows(
        arcs,
        whole,
        i,
    ) by {
        if i + 1 < first.len() {
            assert(graph::follows(arcs, first, i));
        } else {
            let k = i - first.len() + 1;
            assert(whole[i] == second[k]);
            assert(graph::follows(arcs, second, k));
        }
    }
    assert(graph::leads(arcs, a, c, whole));
}

proof fn lemma_reaches_self(arcs: Set<(u32, u32)>, node: u32)
    ensures
        graph::reaches(arcs, node, node),
{
    assert(graph::leads(arcs, node, node, seq![node]));
}

proof fn lemma_reaches_next(arcs: Set<(u32, u32)>, a: u32, b: u32)
    requires
        arcs.contains((a, b)),
    ensures
        graph::reaches(arcs, a, b),
{
    let path = seq![a, b];
    assert(graph::is_path(arcs, path));
    assert(graph::leads(arcs, a, b, path));
}

proof fn lemma_mutual_cycle(arcs: Set<(u32, u32)>, a: u32, b: u32)
    requires
        a != b,
        graph::reaches(arcs, a, b),
        graph::reaches(arcs, b, a),
    ensures
        on_cycle(arcs, a),
{
    let path = choose|path: Seq<u32>| graph::leads(arcs, a, b, path);
    assert(path.len() >= 2);
    let rest = path.skip(1);
    assert(graph::follows(arcs, path, 0));
    assert forall|i: int| 0 <= i < rest.len() - 1 implies #[trigger] graph::follows(
        arcs,
        rest,
        i,
    ) by {
        assert(graph::follows(arcs, path, i + 1));
    }
    assert(graph::leads(arcs, path[1], b, rest));
    reaching_is_transitive(arcs, path[1], b, a);
    assert(arcs.contains((a, path[1])));
}

/// The set of the nodes of a list.
fn collect(nodes: &Vec<u32>) -> (set: NodeSet)
    ensures
        set.well_formed(),
        set@ == nodes@.to_set(),
{
    let mut set = NodeSet::new();
    let mut index: usize = 0;
    proof {
        assert(nodes@.take(0).to_set() =~= Set::empty());
    }
    while index < nodes.len()
        invariant
            index <= nodes.len(),
            set.well_formed(),
            set@ == nodes@.take(index as int).to_set(),
        decreases nodes.len() - index,
    {
        let ghost shorter = nodes@.take(index as int);
        set.insert(nodes[index]);
        index += 1;
        proof {
            assert(nodes@.take(index as int) =~= shorter.push(nodes@[index - 1]));
            shorter.lemma_push_to_set_commute(nodes@[index - 1]);
        }
    }
    proof {
        assert(nodes@.take(index as int) =~= nodes@);
    }
    set
}

fn is_entered(function: &Function, members: &NodeSet, node: u32) -> (result: bool)
    requires
        function.well_formed(),
    ensures
        result == entered(EdgeView::arcs(function@.edges), members@, node),
{
    let predecessors = function.predecessor_blocks(node);
    let ghost arcs = EdgeView::arcs(function@.edges);
    let mut index: usize = 0;
    while index < predecessors.len()
        invariant
            index <= predecessors.len(),
            predecessors@ == EdgeView::sources(EdgeView::entering(function@.edges, node)),
            arcs == EdgeView::arcs(function@.edges),
            forall|i: int| 0 <= i < index ==> members@.contains(#[trigger] predecessors@[i]),
        decreases predecessors.len() - index,
    {
        if !members.contains(predecessors[index]) {
            proof {
                EdgeView::predecessors_are_joined(
                    function@.edges,
                    node,
                    predecessors@[index as int],
                );
                assert(predecessors@.contains(predecessors@[index as int]));
                assert(arcs.contains((predecessors@[index as int], node)));
            }
            return true;
        }
        index += 1;
    }
    proof {
        assert forall|other: u32| #[trigger] arcs.contains((other, node)) implies members@.contains(
            other,
        ) by {
            EdgeView::predecessors_are_joined(function@.edges, node, other);
            let i = choose|i: int| 0 <= i < predecessors@.len() && predecessors@[i] == other;
            assert(members@.contains(predecessors@[i]));
        }
    }
    false
}

fn find_header(function: &Function, members: &NodeSet) -> (header: u32)
    requires
        function.well_formed(),
        members.well_formed(),
        members.listed().len() > 0,
    ensures
        is_header(EdgeView::arcs(function@.edges), members@, header),
{
    let ghost arcs = EdgeView::arcs(function@.edges);
    let ghost listed = members.listed();
    let count: usize = members.len();
    let mut index: usize = 0;
    while index < count
        invariant
            index <= count == listed.len(),
            listed == members.listed(),
            arcs == EdgeView::arcs(function@.edges),
            function.well_formed(),
            members.well_formed(),
            forall|i: int| 0 <= i < index ==> !#[trigger] entered(arcs, members@, listed[i]),
        decreases count - index,
    {
        let node: u32 = members.get(index);
        if is_entered(function, members, node) {
            proof {
                assert forall|other: u32|
                    members@.contains(other) && #[trigger] entered(
                        arcs,
                        members@,
                        other,
                    ) implies node <= other by {
                    let i = choose|i: int| 0 <= i < listed.len() && listed[i] == other;
                    assert(entered(arcs, members@, listed[i]));
                }
            }
            return node;
        }
        index += 1;
    }
    let first: u32 = members.get(0);
    proof {
        assert forall|other: u32| members@.contains(other) implies !#[trigger] entered(
            arcs,
            members@,
            other,
        ) by {
            let i = choose|i: int| 0 <= i < listed.len() && listed[i] == other;
            assert(!entered(arcs, members@, listed[i]));
        }
        assert forall|other: u32| #[trigger] members@.contains(other) implies first <= other by {
            let i = choose|i: int| 0 <= i < listed.len() && listed[i] == other;
            assert(listed[0] <= listed[i]);
        }
    }
    first
}

/// Whether a block leads to itself at once.
fn loops_to_itself(function: &Function, node: u32) -> (result: bool)
    requires
        function.well_formed(),
    ensures
        result == EdgeView::arcs(function@.edges).contains((node, node)),
{
    let successors = function.successor_blocks(node);
    let mut index: usize = 0;
    proof {
        EdgeView::successors_are_joined(function@.edges, node, node);
    }
    while index < successors.len()
        invariant
            index <= successors.len(),
            successors@ == EdgeView::targets(EdgeView::leaving(function@.edges, node)),
            successors@.contains(node) == EdgeView::arcs(function@.edges).contains((node, node)),
            forall|i: int| 0 <= i < index ==> successors@[i] != node,
        decreases successors.len() - index,
    {
        if successors[index] == node {
            return true;
        }
        index += 1;
    }
    false
}

fn insert_region(regions: &mut Vec<CandidateRegion>, region: CandidateRegion)
    requires
        forall|i: int, j: int|
            0 <= i < j < old(regions)@.len() ==> old(regions)@[i].header < old(regions)@[j].header,
        forall|i: int| 0 <= i < old(regions)@.len() ==> old(regions)@[i].header != region.header,
    ensures
        forall|i: int, j: int|
            0 <= i < j < final(regions)@.len() ==> final(regions)@[i].header < final(regions)@[j].header,
        exists|place: int|
            0 <= place <= old(regions)@.len() && final(regions)@ == #[trigger] old(regions)@.insert(place, region),
{
    let mut place: usize = 0;
    while place < regions.len() && regions[place].header < region.header
        invariant
            place <= regions.len(),
            regions@ == old(regions)@,
            forall|i: int| 0 <= i < place ==> regions@[i].header < region.header,
        decreases regions.len() - place,
    {
        place += 1;
    }
    regions.insert(place, region);
    proof {
        assert(regions@ == old(regions)@.insert(place as int, region));
    }
}

/// Whether a set holds a node with all that reach it and are reached from it.
#[verifier::opaque]
pub open spec fn is_component(
    arcs: Set<(u32, u32)>,
    nodes: Set<u32>,
    members: Set<u32>,
) -> bool {
    forall|node: u32| #[trigger]
        members.contains(node) ==> nodes.contains(node) && members == companions(arcs, nodes, node)
}

/// Whether a region is a loop of a graph.
#[verifier::opaque]
pub open spec fn is_region(
    arcs: Set<(u32, u32)>,
    nodes: Set<u32>,
    region: CandidateRegion,
) -> bool {
    &&& region.members.well_formed()
    &&& is_header(arcs, region.members@, region.header)
    &&& on_cycle(arcs, region.header)
    &&& region.members@ == companions(arcs, nodes, region.header)
}

proof fn lemma_part_is_component(
    arcs: Set<(u32, u32)>,
    nodes: Set<u32>,
    parts: Seq<Vec<u32>>,
    place: int,
)
    requires
        0 <= place < parts.len(),
        forall|node: u32|
            nodes.contains(node) <==> exists|i: int|
                0 <= i < parts.len() && (#[trigger] parts[i])@.contains(node),
        forall|i: int, j: int, a: u32, b: u32|
            0 <= i < parts.len() && 0 <= j < parts.len() && (#[trigger] parts[i]@.contains(a)) && (
            #[trigger] parts[j]@.contains(b)) ==> (i == j <==> (graph::reaches(arcs, a, b)
                && graph::reaches(arcs, b, a))),
    ensures
        is_component(arcs, nodes, parts[place]@.to_set()),
{
    reveal(is_component);
    let members = parts[place]@.to_set();
    assert forall|node: u32| #[trigger] members.contains(node) implies nodes.contains(node)
        && members == companions(arcs, nodes, node) by {
        assert(parts[place]@.contains(node));
        assert forall|other: u32|
            members.contains(other) == companions(arcs, nodes, node).contains(other) by {
            if members.contains(other) {
                assert(parts[place]@.contains(other));
                assert(nodes.contains(other));
            }
            if companions(arcs, nodes, node).contains(other) {
                let k = choose|k: int|
                    0 <= k < parts.len() && (#[trigger] parts[k])@.contains(other);
                assert(parts[k]@.contains(other));
                assert(k == place);
            }
        }
        assert(members =~= companions(arcs, nodes, node));
    }
}

/// The region of the nodes that all reach each other, where they form a loop.
fn make_region(function: &Function, part: &Vec<u32>) -> (region: Option<CandidateRegion>)
    requires
        function.well_formed(),
        part@.len() > 0,
        part@.no_duplicates(),
        is_component(
            EdgeView::arcs(function@.edges),
            function@.blocks.dom(),
            part@.to_set(),
        ),
    ensures
        match region {
            Some(region) => is_region(
                EdgeView::arcs(function@.edges),
                function@.blocks.dom(),
                region,
            ) && region.members@ == part@.to_set() && part@.to_set().contains(region.header),
            None => forall|node: u32| #[trigger]
                part@.to_set().contains(node) ==> !on_cycle(EdgeView::arcs(function@.edges), node),
        },
{
    let ghost arcs = EdgeView::arcs(function@.edges);
    let ghost nodes = function@.blocks.dom();
    let first: u32 = part[0];
    proof {
        reveal(is_component);
        reveal(is_region);
        assert(part@.to_set().contains(first));
    }
    if part.len() == 1 && !loops_to_itself(function, first) {
        proof {
            assert(part@ =~= seq![first]);
            function.edges_join_blocks();
            assert forall|node: u32| #[trigger] part@.to_set().contains(node) implies !on_cycle(
                arcs,
                node,
            ) by {
                assert(node == first);
                if on_cycle(arcs, first) {
                    let other = choose|other: u32| #[trigger]
                        arcs.contains((first, other)) && graph::reaches(arcs, other, first);
                    lemma_reaches_next(arcs, first, other);
                    let k = choose|k: int|
                        0 <= k < function@.edges.len() && (#[trigger] function@.edges[k]).source
                            == first && function@.edges[k].target == other;
                    assert(nodes.contains(function@.edges[k].target));
                    assert(companions(arcs, nodes, first).contains(other));
                    assert(part@.to_set().contains(other));
                }
            }
        }
        return None;
    }
    let members = collect(part);
    proof {
        if members.listed().len() == 0 {
            assert(members@ =~= Set::empty());
        }
    }
    let header = find_header(function, &members);
    proof {
        if part@.len() > 1 {
            let other = if part@[0] == header {
                part@[1]
            } else {
                part@[0]
            };
            assert(part@.to_set().contains(other));
            assert(companions(arcs, nodes, header).contains(other));
            lemma_mutual_cycle(arcs, header, other);
        } else {
            assert(part@ =~= seq![first]);
            assert(header == first);
            lemma_reaches_self(arcs, first);
            assert(arcs.contains((first, first)));
        }
    }
    Some(CandidateRegion { header, members })
}

/// Finds the loops of a function.
fn derive_candidate_regions(function: &Function) -> (regions: Vec<CandidateRegion>)
    requires
        function.well_formed(),
    ensures
        are_regions(EdgeView::arcs(function@.edges), function@.blocks.dom(), regions@),
{
    let ghost arcs = EdgeView::arcs(function@.edges);
    let ghost nodes = function@.blocks.dom();
    let parts = graph::kosaraju_scc(function.graph());
    let mut regions: Vec<CandidateRegion> = Vec::new();
    let mut index: usize = 0;
    proof {
        assert forall|k: int| 0 <= k < parts@.len() implies is_component(
            arcs,
            nodes,
            (#[trigger] parts@[k])@.to_set(),
        ) by {
            lemma_part_is_component(arcs, nodes, parts@, k);
        }
        assert forall|i: int, j: int|
            0 <= i < j < parts@.len() implies (#[trigger] parts@[i])@.to_set().disjoint(
            (#[trigger] parts@[j])@.to_set(),
        ) by {
            assert forall|node: u32| parts@[i]@.to_set().contains(node) implies !parts@[j]@.to_set().contains(
                node,
            ) by {
                if parts@[j]@.contains(node) {
                    assert(parts@[i]@.contains(node));
                    lemma_reaches_self(arcs, node);
                }
            }
        }
        assert forall|node: u32| nodes.contains(node) implies exists|i: int|
            0 <= i < parts@.len() && (#[trigger] parts@[i])@.to_set().contains(node) by {
            let i = choose|i: int| 0 <= i < parts@.len() && (#[trigger] parts@[i])@.contains(node);
            assert(parts@[i]@.to_set().contains(node));
        }
    }
    while index < parts.len()
        invariant
            index <= parts.len(),
            function.well_formed(),
            arcs == EdgeView::arcs(function@.edges),
            nodes == function@.blocks.dom(),
            forall|i: int| 0 <= i < parts@.len() ==> (#[trigger] parts@[i])@.no_duplicates(),
            forall|i: int| 0 <= i < parts@.len() ==> (#[trigger] parts@[i])@.len() > 0,
            forall|k: int|
                0 <= k < parts@.len() ==> is_component(
                    arcs,
                    nodes,
                    (#[trigger] parts@[k])@.to_set(),
                ),
            forall|i: int, j: int|
                0 <= i < j < parts@.len() ==> (#[trigger] parts@[i])@.to_set().disjoint(
                    (#[trigger] parts@[j])@.to_set(),
                ),
            forall|i: int|
                0 <= i < regions@.len() ==> {
                    &&& is_region(arcs, nodes, #[trigger] regions@[i])
                    &&& exists|k: int|
                        0 <= k < index && (#[trigger] parts@[k])@.to_set().contains(
                            regions@[i].header,
                        )
                },
            forall|k: int, node: u32|
                0 <= k < index && (#[trigger] parts@[k]@.to_set().contains(node)) && on_cycle(
                    arcs,
                    node,
                ) ==> exists|i: int|
                    0 <= i < regions@.len() && (#[trigger] regions@[i]).members@.contains(node),
            forall|i: int, j: int|
                0 <= i < j < regions@.len() ==> regions@[i].header < regions@[j].header,
        decreases parts.len() - index,
    {
        let ghost held = regions@;
        let ghost here = parts@[index as int]@.to_set();
        match make_region(function, &parts[index]) {
            Some(region) => {
                proof {
                    assert(here.contains(region.header));
                    assert forall|i: int| 0 <= i < regions@.len() implies regions@[i].header
                        != region.header by {
                        let k = choose|k: int|
                            0 <= k < index && (#[trigger] parts@[k])@.to_set().contains(
                                regions@[i].header,
                            );
                        assert(parts@[k]@.to_set().disjoint(parts@[index as int]@.to_set()));
                    }
                }
                let ghost new = region;
                insert_region(&mut regions, region);
                proof {
                    let place = choose|place: int|
                        0 <= place <= held.len() && regions@ == #[trigger] held.insert(place, new);
                    assert forall|i: int| 0 <= i < regions@.len() implies {
                        &&& is_region(arcs, nodes, #[trigger] regions@[i])
                        &&& exists|k: int|
                            0 <= k < index + 1 && (#[trigger] parts@[k])@.to_set().contains(
                                regions@[i].header,
                            )
                    } by {
                        if i == place {
                            assert(parts@[index as int]@.to_set().contains(new.header));
                        } else {
                            let k = if i < place {
                                i
                            } else {
                                i - 1
                            };
                            assert(regions@[i] == held[k]);
                        }
                    }
                    assert forall|k: int, node: u32|
                        0 <= k < index + 1 && (#[trigger] parts@[k]@.to_set().contains(node))
                            && on_cycle(arcs, node) implies exists|i: int|
                        0 <= i < regions@.len() && (#[trigger] regions@[i]).members@.contains(
                            node,
                        ) by {
                        if k == index {
                            assert(regions@[place].members@.contains(node));
                        } else {
                            let i = choose|i: int|
                                0 <= i < held.len() && (#[trigger] held[i]).members@.contains(node);
                            if i < place {
                                assert(regions@[i] == held[i]);
                            } else {
                                assert(regions@[i + 1] == held[i]);
                            }
                        }
                    }
                }
            },
            None => {},
        }
        index += 1;
    }
    proof {
        assert forall|node: u32|
            nodes.contains(node) && #[trigger] on_cycle(arcs, node) implies exists|i: int|
            0 <= i < regions@.len() && (#[trigger] regions@[i]).members@.contains(node) by {
            let k = choose|k: int|
                0 <= k < parts@.len() && (#[trigger] parts@[k])@.to_set().contains(node);
            assert(parts@[k]@.to_set().contains(node));
        }
        assert forall|i: int| 0 <= i < regions@.len() implies is_region(
            arcs,
            nodes,
            #[trigger] regions@[i],
        ) by {
        }
    }
    regions
}

/// Sets of blocks, one for each block of a list.
pub open spec fn keyed_by(facts: Seq<(u32, NodeSet)>, nodes: Set<u32>) -> bool {
    &&& forall|i: int|
        0 <= i < facts.len() ==> nodes.contains((#[trigger] facts[i]).0)
            && facts[i].1.well_formed()
    &&& forall|node: u32| #[trigger]
        nodes.contains(node) ==> exists|i: int|
            0 <= i < facts.len() && (#[trigger] facts[i]).0 == node
    &&& forall|i: int, j: int| 0 <= i < j < facts.len() ==> facts[i].0 < facts[j].0
}

/// The dominators of a block; only itself where the entry does not reach it.
pub open spec fn dominator_set(arcs: Set<(u32, u32)>, entry: u32, node: u32) -> Set<u32> {
    if graph::reaches(arcs, entry, node) {
        Set::new(|other: u32| graph::dominates(arcs, entry, other, node))
    } else {
        set![node]
    }
}

/// Whether facts are the dominators of every block; there are none without an
/// entry.
pub open spec fn are_dominators(
    arcs: Set<(u32, u32)>,
    nodes: Set<u32>,
    entry: Option<u32>,
    facts: Seq<(u32, NodeSet)>,
) -> bool {
    match entry {
        Some(entry) => {
            &&& keyed_by(facts, nodes)
            &&& forall|i: int|
                0 <= i < facts.len() ==> (#[trigger] facts[i]).1@ == dominator_set(
                    arcs,
                    entry,
                    facts[i].0,
                )
        },
        None => facts.len() == 0,
    }
}

fn derive_dominators(function: &Function) -> (facts: Vec<(u32, NodeSet)>)
    requires
        function.well_formed(),
        function@.entry matches Some(entry) ==> function@.blocks.dom().contains(entry),
    ensures
        are_dominators(
            EdgeView::arcs(function@.edges),
            function@.blocks.dom(),
            function@.entry,
            facts@,
        ),
{
    let ghost arcs = EdgeView::arcs(function@.edges);
    let mut facts: Vec<(u32, NodeSet)> = Vec::new();
    let entry = match function.entry() {
        Some(entry) => entry,
        None => {
            return facts;
        },
    };
    let dominators = graph::simple_fast(function.graph(), entry);
    let nodes = function.nodes();
    let ghost chains = graph::dominator_chains(dominators);
    let mut index: usize = 0;
    while index < nodes.len()
        invariant
            index <= nodes.len(),
            arcs == EdgeView::arcs(function@.edges),
            nodes@.to_set() == function@.blocks.dom(),
            forall|i: int, j: int| 0 <= i < j < nodes@.len() ==> nodes@[i] < nodes@[j],
            chains == graph::dominator_chains(dominators),
            forall|node: u32| #[trigger]
                chains.dom().contains(node) <==> graph::reaches(arcs, entry, node),
            forall|node: u32| #[trigger]
                chains.dom().contains(node) ==> graph::is_dominator_chain(
                    arcs,
                    entry,
                    node,
                    chains[node],
                ),
            facts@.len() == index,
            forall|i: int|
                0 <= i < index ==> {
                    &&& (#[trigger] facts@[i]).0 == nodes@[i]
                    &&& facts@[i].1.well_formed()
                    &&& facts@[i].1@ == dominator_set(arcs, entry, nodes@[i])
                },
        decreases nodes.len() - index,
    {
        let node: u32 = nodes[index];
        let values = match graph::dominators_of(&dominators, node) {
            Some(chain) => {
                let values = collect(&chain);
                proof {
                    assert(chains.dom().contains(node));
                    assert(graph::is_dominator_chain(arcs, entry, node, chains[node]));
                    assert forall|other: u32|
                        values@.contains(other) == dominator_set(arcs, entry, node).contains(
                            other,
                        ) by {
                        assert(chain@.contains(other) <==> graph::dominates(
                            arcs,
                            entry,
                            other,
                            node,
                        ));
                    }
                    assert(values@ =~= dominator_set(arcs, entry, node));
                }
                values
            },
            None => {
                proof {
                    assert(!chains.dom().contains(node));
                }
                NodeSet::single(node)
            },
        };
        facts.push((node, values));
        index += 1;
    }
    proof {
        assert forall|i: int| 0 <= i < facts@.len() implies function@.blocks.dom().contains(
            (#[trigger] facts@[i]).0,
        ) && facts@[i].1.well_formed() by {
            assert(nodes@.contains(nodes@[i]));
        }
        assert forall|node: u32| #[trigger]
            function@.blocks.dom().contains(node) implies exists|i: int|
            0 <= i < facts@.len() && (#[trigger] facts@[i]).0 == node by {
            assert(nodes@.to_set().contains(node));
            let i = choose|i: int| 0 <= i < nodes@.len() && nodes@[i] == node;
            assert(facts@[i].0 == node);
        }
        assert forall|i: int, j: int| 0 <= i < j < facts@.len() implies facts@[i].0
            < facts@[j].0 by {
            assert(facts@[i].0 == nodes@[i] && facts@[j].0 == nodes@[j]);
        }
    }
    facts
}

/// What the sets of the blocks say of one block: itself, and what all of its
/// successors share.
pub open spec fn shared_ahead(
    edges: Seq<EdgeView>,
    sets: Map<u32, Set<u32>>,
    node: u32,
) -> Set<u32> {
    let successors = EdgeView::targets(EdgeView::leaving(edges, node));
    if successors.len() == 0 {
        set![node]
    } else {
        shared_from(successors, sets, 0).insert(node)
    }
}

/// What the sets of the blocks from position `from` on share.
pub open spec fn shared_from(successors: Seq<u32>, sets: Map<u32, Set<u32>>, from: int) -> Set<u32>
    decreases successors.len() - from,
{
    if 0 <= from < successors.len() - 1 {
        sets[successors[from]].intersect(shared_from(successors, sets, from + 1))
    } else {
        sets[successors[from]]
    }
}

/// Whether sets agree with the graph: each block's set is itself and what all
/// of its successors' sets share.
pub open spec fn is_post_solution(
    edges: Seq<EdgeView>,
    nodes: Set<u32>,
    sets: Map<u32, Set<u32>>,
) -> bool {
    forall|node: u32| #[trigger]
        nodes.contains(node) ==> sets[node].subset_of(nodes) && sets[node] == shared_ahead(
            edges,
            sets,
            node,
        )
}

/// Whether facts are the post-dominators of every block: the largest sets that
/// agree with the graph.
pub open spec fn are_post_dominators(
    edges: Seq<EdgeView>,
    nodes: Set<u32>,
    facts: Seq<(u32, NodeSet)>,
) -> bool {
    &&& keyed_by(facts, nodes)
    &&& is_post_solution(edges, nodes, sets_of(facts))
    &&& forall|sets: Map<u32, Set<u32>>, node: u32|
        #![trigger is_post_solution(edges, nodes, sets), nodes.contains(node)]
        is_post_solution(edges, nodes, sets) && nodes.contains(node) ==> sets[node].subset_of(
            sets_of(facts)[node],
        )
}

/// The set of each block.
pub open spec fn sets_of(facts: Seq<(u32, NodeSet)>) -> Map<u32, Set<u32>> {
    Map::new(
        |node: u32| exists|i: int| 0 <= i < facts.len() && (#[trigger] facts[i]).0 == node,
        |node: u32|
            facts[choose|i: int| 0 <= i < facts.len() && (#[trigger] facts[i]).0 == node].1@,
    )
}

pub proof fn lemma_set_of(facts: Seq<(u32, NodeSet)>, nodes: Set<u32>, i: int)
    requires
        keyed_by(facts, nodes),
        0 <= i < facts.len(),
    ensures
        sets_of(facts).dom().contains(facts[i].0),
        sets_of(facts)[facts[i].0] == facts[i].1@,
{
    let k = choose|k: int| 0 <= k < facts.len() && (#[trigger] facts[k]).0 == facts[i].0;
    assert(facts[i].0 == facts[i].0);
    if k < i {
        assert(facts[k].0 < facts[i].0);
    } else if i < k {
        assert(facts[i].0 < facts[k].0);
    }
}

proof fn lemma_shared_smaller(
    successors: Seq<u32>,
    small: Map<u32, Set<u32>>,
    large: Map<u32, Set<u32>>,
    from: int,
)
    requires
        0 <= from < successors.len(),
        forall|i: int|
            0 <= i < successors.len() ==> small[#[trigger] successors[i]].subset_of(
                large[successors[i]],
            ),
    ensures
        shared_from(successors, small, from).subset_of(shared_from(successors, large, from)),
    decreases successors.len() - from,
{
    assert(small[successors[from]].subset_of(large[successors[from]]));
    if from < successors.len() - 1 {
        lemma_shared_smaller(successors, small, large, from + 1);
    }
}

proof fn lemma_successors_are_blocks(function: &Function, node: u32)
    requires
        function.well_formed(),
    ensures
        forall|i: int|
            0 <= i < EdgeView::leaving(function@.edges, node).len()
                ==> function@.blocks.dom().contains(
                #[trigger] EdgeView::targets(EdgeView::leaving(function@.edges, node))[i],
            ),
{
    function.edges_join_blocks();
    let leaving = EdgeView::leaving(function@.edges, node);
    assert forall|i: int| 0 <= i < leaving.len() implies function@.blocks.dom().contains(
        #[trigger] EdgeView::targets(leaving)[i],
    ) by {
        EdgeView::leaving_edges(function@.edges, node, leaving[i]);
        assert(leaving.contains(leaving[i]));
        let k = choose|k: int|
            0 <= k < function@.edges.len() && function@.edges[k] == leaving[i];
        assert(function@.blocks.dom().contains(function@.edges[k].target));
    }
}

fn find_fact(facts: &Vec<(u32, NodeSet)>, node: u32, nodes: Ghost<Set<u32>>) -> (place: usize)
    requires
        keyed_by(facts@, nodes@),
        nodes@.contains(node),
    ensures
        place < facts@.len(),
        facts@[place as int].0 == node,
{
    let mut place: usize = 0;
    while place < facts.len()
        invariant
            place <= facts.len(),
            keyed_by(facts@, nodes@),
            nodes@.contains(node),
            forall|i: int| 0 <= i < place ==> (#[trigger] facts@[i]).0 != node,
        decreases facts.len() - place,
    {
        if facts[place].0 == node {
            return place;
        }
        place += 1;
    }
    proof {
        let i = choose|i: int| 0 <= i < facts@.len() && (#[trigger] facts@[i]).0 == node;
        assert(facts@[i].0 != node);
    }
    0
}

fn share_ahead(function: &Function, facts: &Vec<(u32, NodeSet)>, node: u32) -> (shared: NodeSet)
    requires
        function.well_formed(),
        keyed_by(facts@, function@.blocks.dom()),
    ensures
        shared.well_formed(),
        shared@ == shared_ahead(function@.edges, sets_of(facts@), node),
{
    let successors = function.successor_blocks(node);
    let ghost nodes = function@.blocks.dom();
    let ghost sets = sets_of(facts@);
    if successors.len() == 0 {
        return NodeSet::single(node);
    }
    proof {
        lemma_successors_are_blocks(function, node);
        assert(nodes.contains(successors@[successors@.len() - 1]));
    }
    let mut index: usize = successors.len() - 1;
    let place: usize = find_fact(facts, successors[index], Ghost(nodes));
    proof {
        lemma_set_of(facts@, nodes, place as int);
    }
    let mut shared = facts[place].1.clone();
    while index > 0
        invariant
            index < successors@.len(),
            nodes == function@.blocks.dom(),
            sets == sets_of(facts@),
            keyed_by(facts@, nodes),
            forall|i: int| 0 <= i < successors@.len() ==> nodes.contains(#[trigger] successors@[i]),
            shared.well_formed(),
            shared@ == shared_from(successors@, sets, index as int),
        decreases index,
    {
        index -= 1;
        proof {
            assert(nodes.contains(successors@[index as int]));
        }
        let place: usize = find_fact(facts, successors[index], Ghost(nodes));
        proof {
            lemma_set_of(facts@, nodes, place as int);
        }
        shared = facts[place].1.intersection(&shared);
    }
    shared.insert(node);
    shared
}

/// The total of the sizes of the sets.
spec fn total_size(facts: Seq<(u32, NodeSet)>) -> nat
    decreases facts.len(),
{
    if facts.len() == 0 {
        0
    } else {
        total_size(facts.drop_last()) + facts.last().1.listed().len()
    }
}

proof fn lemma_total_update(facts: Seq<(u32, NodeSet)>, place: int, fact: (u32, NodeSet))
    requires
        0 <= place < facts.len(),
        fact.1.listed().len() < facts[place].1.listed().len(),
    ensures
        total_size(facts.update(place, fact)) < total_size(facts),
    decreases facts.len(),
{
    let updated = facts.update(place, fact);
    if place == facts.len() - 1 {
        assert(updated.drop_last() =~= facts.drop_last());
    } else {
        lemma_total_update(facts.drop_last(), place, fact);
        assert(updated.drop_last() =~= facts.drop_last().update(place, fact));
    }
}

/// Whether sets only shrink from here: each holds what it is to be refined to,
/// and every solution.
spec fn is_above(edges: Seq<EdgeView>, nodes: Set<u32>, sets: Map<u32, Set<u32>>) -> bool {
    &&& forall|node: u32| #[trigger]
        nodes.contains(node) ==> sets[node].subset_of(nodes) && shared_ahead(
            edges,
            sets,
            node,
        ).subset_of(sets[node])
    &&& forall|solution: Map<u32, Set<u32>>, node: u32|
        #![trigger is_post_solution(edges, nodes, solution), nodes.contains(node)]
        is_post_solution(edges, nodes, solution) && nodes.contains(node)
            ==> solution[node].subset_of(sets[node])
}

proof fn lemma_ahead_smaller(
    function: &Function,
    small: Map<u32, Set<u32>>,
    large: Map<u32, Set<u32>>,
    node: u32,
)
    requires
        function.well_formed(),
        forall|other: u32| #[trigger]
            function@.blocks.dom().contains(other) ==> small[other].subset_of(large[other]),
    ensures
        shared_ahead(function@.edges, small, node).subset_of(
            shared_ahead(function@.edges, large, node),
        ),
{
    let successors = EdgeView::targets(EdgeView::leaving(function@.edges, node));
    lemma_successors_are_blocks(function, node);
    if successors.len() > 0 {
        assert forall|i: int| 0 <= i < successors.len() implies small[
            #[trigger] successors[i]
        ].subset_of(large[successors[i]]) by {
            assert(function@.blocks.dom().contains(successors[i]));
        }
        lemma_shared_smaller(successors, small, large, 0);
    }
}

proof fn lemma_refine(function: &Function, sets: Map<u32, Set<u32>>, node: u32)
    requires
        function.well_formed(),
        is_above(function@.edges, function@.blocks.dom(), sets),
        function@.blocks.dom().contains(node),
    ensures
        is_above(
            function@.edges,
            function@.blocks.dom(),
            sets.insert(node, shared_ahead(function@.edges, sets, node)),
        ),
{
    let edges = function@.edges;
    let nodes = function@.blocks.dom();
    let refined = sets.insert(node, shared_ahead(edges, sets, node));
    assert forall|other: u32| #[trigger] nodes.contains(other) implies refined[other].subset_of(
        sets[other],
    ) by {
    }
    assert forall|other: u32| #[trigger] nodes.contains(other) implies refined[other].subset_of(
        nodes,
    ) && shared_ahead(edges, refined, other).subset_of(refined[other]) by {
        lemma_ahead_smaller(function, refined, sets, other);
    }
    assert forall|solution: Map<u32, Set<u32>>, other: u32|
        #![trigger is_post_solution(edges, nodes, solution), nodes.contains(other)]
        is_post_solution(edges, nodes, solution) && nodes.contains(
            other,
        ) implies solution[other].subset_of(refined[other]) by {
        if other == node {
            lemma_ahead_smaller(function, solution, sets, node);
        }
    }
}

proof fn lemma_sets_update(
    facts: Seq<(u32, NodeSet)>,
    nodes: Set<u32>,
    place: int,
    values: NodeSet,
)
    requires
        keyed_by(facts, nodes),
        0 <= place < facts.len(),
        values.well_formed(),
    ensures
        keyed_by(facts.update(place, (facts[place].0, values)), nodes),
        sets_of(facts.update(place, (facts[place].0, values))) == sets_of(facts).insert(
            facts[place].0,
            values@,
        ),
{
    let updated = facts.update(place, (facts[place].0, values));
    assert forall|node: u32| #[trigger] nodes.contains(node) implies exists|i: int|
        0 <= i < updated.len() && (#[trigger] updated[i]).0 == node by {
        let i = choose|i: int| 0 <= i < facts.len() && (#[trigger] facts[i]).0 == node;
        assert(updated[i].0 == node);
    }
    assert(keyed_by(updated, nodes));
    let left = sets_of(updated);
    let right = sets_of(facts).insert(facts[place].0, values@);
    assert forall|node: u32| left.dom().contains(node) == right.dom().contains(node) by {
        if left.dom().contains(node) {
            let i = choose|i: int| 0 <= i < updated.len() && (#[trigger] updated[i]).0 == node;
            assert(facts[i].0 == node);
        }
        if sets_of(facts).dom().contains(node) {
            let i = choose|i: int| 0 <= i < facts.len() && (#[trigger] facts[i]).0 == node;
            assert(updated[i].0 == node);
        }
        assert(updated[place].0 == facts[place].0);
    }
    assert forall|node: u32| left.dom().contains(node) implies left[node] == right[node] by {
        let i = choose|i: int| 0 <= i < updated.len() && (#[trigger] updated[i]).0 == node;
        lemma_set_of(updated, nodes, i);
        lemma_set_of(facts, nodes, i);
        if node == facts[place].0 {
            lemma_set_of(updated, nodes, place);
            lemma_set_of(facts, nodes, place);
        } else {
            assert(i != place);
        }
    }
    assert(left =~= right);
}

fn start_post_dominators(function: &Function) -> (facts: Vec<(u32, NodeSet)>)
    requires
        function.well_formed(),
    ensures
        keyed_by(facts@, function@.blocks.dom()),
        is_above(function@.edges, function@.blocks.dom(), sets_of(facts@)),
{
    let nodes = function.nodes();
    let all = collect(&nodes);
    let ghost dom = function@.blocks.dom();
    let ghost edges = function@.edges;
    let mut facts: Vec<(u32, NodeSet)> = Vec::new();
    let mut index: usize = 0;
    while index < nodes.len()
        invariant
            index <= nodes.len(),
            function.well_formed(),
            dom == function@.blocks.dom(),
            edges == function@.edges,
            nodes@.to_set() == dom,
            all.well_formed(),
            all@ == dom,
            forall|i: int, j: int| 0 <= i < j < nodes@.len() ==> nodes@[i] < nodes@[j],
            facts@.len() == index,
            forall|i: int|
                0 <= i < index ==> {
                    &&& (#[trigger] facts@[i]).0 == nodes@[i]
                    &&& facts@[i].1.well_formed()
                    &&& facts@[i].1@ == (if EdgeView::leaving(edges, nodes@[i]).len() == 0 {
                        set![nodes@[i]]
                    } else {
                        dom
                    })
                },
        decreases nodes.len() - index,
    {
        let node: u32 = nodes[index];
        let successors = function.successor_blocks(node);
        let values = if successors.len() == 0 {
            NodeSet::single(node)
        } else {
            all.clone()
        };
        facts.push((node, values));
        index += 1;
    }
    proof {
        assert forall|i: int| 0 <= i < facts@.len() implies dom.contains((#[trigger] facts@[i]).0)
            && facts@[i].1.well_formed() by {
            assert(nodes@.contains(nodes@[i]));
        }
        assert forall|node: u32| #[trigger] dom.contains(node) implies exists|i: int|
            0 <= i < facts@.len() && (#[trigger] facts@[i]).0 == node by {
            assert(nodes@.to_set().contains(node));
            let i = choose|i: int| 0 <= i < nodes@.len() && nodes@[i] == node;
            assert(facts@[i].0 == node);
        }
        assert forall|i: int, j: int| 0 <= i < j < facts@.len() implies facts@[i].0
            < facts@[j].0 by {
            assert(facts@[i].0 == nodes@[i] && facts@[j].0 == nodes@[j]);
        }
        let sets = sets_of(facts@);
        assert forall|node: u32| #[trigger] dom.contains(node) implies sets[node] == (
        if EdgeView::leaving(edges, node).len() == 0 {
            set![node]
        } else {
            dom
        }) by {
            let i = choose|i: int| 0 <= i < facts@.len() && (#[trigger] facts@[i]).0 == node;
            lemma_set_of(facts@, dom, i);
        }
        assert forall|node: u32| #[trigger] dom.contains(node) implies sets[node].subset_of(dom)
            && shared_ahead(edges, sets, node).subset_of(sets[node]) by {
            let successors = EdgeView::targets(EdgeView::leaving(edges, node));
            if successors.len() > 0 {
                lemma_successors_are_blocks(function, node);
                lemma_shared_within(successors, sets, dom, 0);
            }
        }
    }
    facts
}

proof fn lemma_shared_within(
    successors: Seq<u32>,
    sets: Map<u32, Set<u32>>,
    nodes: Set<u32>,
    from: int,
)
    requires
        0 <= from < successors.len(),
        forall|i: int|
            0 <= i < successors.len() ==> sets[#[trigger] successors[i]].subset_of(nodes),
    ensures
        shared_from(successors, sets, from).subset_of(nodes),
    decreases successors.len() - from,
{
    assert(sets[successors[from]].subset_of(nodes));
    if from < successors.len() - 1 {
        lemma_shared_within(successors, sets, nodes, from + 1);
    }
}

/// Refines the facts once, from the last block to the first.
fn refine_round(function: &Function, facts: &mut Vec<(u32, NodeSet)>) -> (changed: bool)
    requires
        function.well_formed(),
        keyed_by(old(facts)@, function@.blocks.dom()),
        is_above(function@.edges, function@.blocks.dom(), sets_of(old(facts)@)),
    ensures
        keyed_by(final(facts)@, function@.blocks.dom()),
        is_above(function@.edges, function@.blocks.dom(), sets_of(final(facts)@)),
        changed ==> total_size(final(facts)@) < total_size(old(facts)@),
        !changed ==> final(facts)@ == old(facts)@ && is_post_solution(
            function@.edges,
            function@.blocks.dom(),
            sets_of(final(facts)@),
        ),
{
    let ghost nodes = function@.blocks.dom();
    let ghost edges = function@.edges;
    let mut changed = false;
    let mut index: usize = facts.len();
    while index > 0
        invariant
            index <= facts@.len(),
            facts@.len() == old(facts)@.len(),
            function.well_formed(),
            nodes == function@.blocks.dom(),
            edges == function@.edges,
            keyed_by(facts@, nodes),
            is_above(edges, nodes, sets_of(facts@)),
            changed ==> total_size(facts@) < total_size(old(facts)@),
            !changed ==> facts@ == old(facts)@ && forall|i: int|
                index <= i < facts@.len() ==> (#[trigger] facts@[i]).1@ == shared_ahead(
                    edges,
                    sets_of(facts@),
                    facts@[i].0,
                ),
        decreases index,
    {
        index -= 1;
        let node: u32 = facts[index].0;
        let shared = share_ahead(function, facts, node);
        let ghost before = facts@;
        let ghost sets = sets_of(facts@);
        proof {
            lemma_set_of(before, nodes, index as int);
            assert(nodes.contains(before[index as int].0));
        }
        if !facts[index].1.same(&shared) {
            proof {
                lemma_refine(function, sets, node);
                lemma_sets_update(before, nodes, index as int, shared);
                let small = shared.listed();
                let large = before[index as int].1.listed();
                assert(small.no_duplicates());
                assert(large.no_duplicates());
                small.unique_seq_to_set();
                large.unique_seq_to_set();
                vstd::set_lib::lemma_len_subset(shared@, before[index as int].1@);
                if shared@.len() == before[index as int].1@.len() {
                    vstd::set_lib::lemma_subset_equality(shared@, before[index as int].1@);
                }
                lemma_total_update(before, index as int, (node, shared));
            }
            facts.set(index, (node, shared));
            changed = true;
        }
    }
    proof {
        if !changed {
            let sets = sets_of(facts@);
            assert forall|node: u32| #[trigger] nodes.contains(node) implies sets[node].subset_of(
                nodes,
            ) && sets[node] == shared_ahead(edges, sets, node) by {
                let i = choose|i: int| 0 <= i < facts@.len() && (#[trigger] facts@[i]).0 == node;
                lemma_set_of(facts@, nodes, i);
                assert(facts@[i].1@ == shared_ahead(edges, sets, facts@[i].0));
            }
        }
    }
    changed
}

fn derive_post_dominators(function: &Function) -> (facts: Vec<(u32, NodeSet)>)
    requires
        function.well_formed(),
    ensures
        are_post_dominators(function@.edges, function@.blocks.dom(), facts@),
{
    let mut facts = start_post_dominators(function);
    loop
        invariant
            function.well_formed(),
            keyed_by(facts@, function@.blocks.dom()),
            is_above(function@.edges, function@.blocks.dom(), sets_of(facts@)),
        ensures
            keyed_by(facts@, function@.blocks.dom()),
            is_above(function@.edges, function@.blocks.dom(), sets_of(facts@)),
            is_post_solution(function@.edges, function@.blocks.dom(), sets_of(facts@)),
        decreases total_size(facts@),
    {
        let changed = refine_round(function, &mut facts);
        if !changed {
            break;
        }
    }
    facts
}

/// What a parameter of a block is given on an edge.
#[derive(Debug)]
pub struct MergeRelationship {
    pub parameter: RcLocal,
    pub argument: RValue,
}

/// An edge between blocks, for the reader of the facts.
#[derive(Debug)]
pub struct EdgeFact {
    pub source: NodeId,
    pub target: NodeId,
    pub branch: BranchKind,
    pub merges: Vec<MergeRelationship>,
}

/// The model of an `EdgeFact`.
#[verifier::ext_equal]
pub struct EdgeFactView {
    pub source: u32,
    pub target: u32,
    pub branch: BranchKind,
    pub merges: Seq<(RcLocal, RValueView)>,
}

impl EdgeFactView {
    pub open spec fn of(edge: EdgeView) -> EdgeFactView {
        EdgeFactView {
            source: edge.source,
            target: edge.target,
            branch: BranchKind::of(edge.branch),
            merges: edge.arguments,
        }
    }

    /// Whether an edge is listed before another: by source, target, kind and
    /// number.
    pub open spec fn before(left: EdgeView, right: EdgeView) -> bool {
        let left_rank = BranchKind::of(left.branch).rank();
        let right_rank = BranchKind::of(right.branch).rank();
        ||| left.source < right.source
        ||| left.source == right.source && left.target < right.target
        ||| left.source == right.source && left.target == right.target && left_rank < right_rank
        ||| left.source == right.source && left.target == right.target && left_rank == right_rank
            && left.id < right.id
    }

    /// Whether edges stand in the order that they are listed in.
    pub open spec fn is_ordered(edges: Seq<EdgeView>) -> bool {
        forall|i: int, j: int|
            0 <= i < j < edges.len() ==> Self::before(#[trigger] edges[i], #[trigger] edges[j])
    }
}

impl EdgeFact {
    pub open spec fn view(&self) -> EdgeFactView {
        EdgeFactView {
            source: self.source,
            target: self.target,
            branch: self.branch,
            merges: Seq::new(
                self.merges@.len(),
                |i: int| (self.merges@[i].parameter, self.merges@[i].argument@),
            ),
        }
    }
}

/// Whether facts are the edges of a function, in order.
pub open spec fn are_edge_facts(edges: Seq<EdgeView>, facts: Seq<EdgeFact>) -> bool {
    exists|order: Seq<EdgeView>|
        {
            &&& #[trigger] order.to_multiset() == edges.to_multiset()
            &&& EdgeFactView::is_ordered(order)
            &&& facts.len() == order.len()
            &&& forall|i: int|
                0 <= i < facts.len() ==> (#[trigger] facts[i])@ == EdgeFactView::of(order[i])
        }
}

fn comes_before(left: &EdgeReference<'_>, right: &EdgeReference<'_>) -> (result: bool)
    ensures
        result == EdgeFactView::before(left@, right@),
{
    let left_rank: u8 = rank(left.weight.branch_type);
    let right_rank: u8 = rank(right.weight.branch_type);
    if left.source != right.source {
        return left.source < right.source;
    }
    if left.target != right.target {
        return left.target < right.target;
    }
    if left_rank != right_rank {
        return left_rank < right_rank;
    }
    left.id < right.id
}

fn rank(branch: BranchType) -> (rank: u8)
    ensures
        rank == BranchKind::of(branch).rank(),
{
    match branch {
        BranchType::Unconditional => 0,
        BranchType::Then => 1,
        BranchType::Else => 2,
    }
}

fn insert_edge<'a>(ordered: &mut Vec<EdgeReference<'a>>, edge: EdgeReference<'a>)
    requires
        EdgeFactView::is_ordered(EdgeReference::views(old(ordered)@)),
        forall|i: int| 0 <= i < old(ordered)@.len() ==> (#[trigger] old(ordered)@[i]).id != edge.id,
    ensures
        EdgeFactView::is_ordered(EdgeReference::views(final(ordered)@)),
        exists|place: int|
            0 <= place <= old(ordered)@.len() && EdgeReference::views(final(ordered)@)
                == #[trigger] EdgeReference::views(old(ordered)@).insert(place, edge@),
        final(ordered)@.len() == old(ordered)@.len() + 1,
{
    let ghost views = EdgeReference::views(ordered@);
    let ghost new = edge@;
    let mut place: usize = 0;
    while place < ordered.len() && comes_before(&ordered[place], &edge)
        invariant
            place <= ordered.len(),
            ordered@ == old(ordered)@,
            views == EdgeReference::views(ordered@),
            new == edge@,
            forall|i: int| 0 <= i < place ==> EdgeFactView::before(#[trigger] views[i], new),
        decreases ordered.len() - place,
    {
        place += 1;
    }
    proof {
        if place < ordered@.len() {
            assert(ordered@[place as int].id != edge.id);
            assert(EdgeFactView::before(new, views[place as int]));
        }
    }
    ordered.insert(place, edge);
    proof {
        let after = EdgeReference::views(ordered@);
        assert(after =~= views.insert(place as int, new));
        assert forall|i: int, j: int| 0 <= i < j < after.len() implies EdgeFactView::before(
            #[trigger] after[i],
            #[trigger] after[j],
        ) by {
            let p = place as int;
            if i < p && j > p {
                assert(EdgeFactView::before(views[i], views[j - 1]));
            } else if i == p {
                assert(after[i] == new);
                assert(after[j] == views[j - 1]);
                if j - 1 > p {
                    assert(EdgeFactView::before(views[p], views[j - 1]));
                }
            } else if i > p {
                assert(EdgeFactView::before(views[i - 1], views[j - 1]));
            } else if j == p {
                assert(EdgeFactView::before(views[i], new));
            } else {
                assert(EdgeFactView::before(views[i], views[j]));
            }
        }
    }
}

fn edge_fact(edge: &EdgeReference<'_>) -> (fact: EdgeFact)
    ensures
        fact@ == EdgeFactView::of(edge@),
{
    let mut merges: Vec<MergeRelationship> = Vec::new();
    let mut index: usize = 0;
    let ghost arguments = BlockEdge::argument_views(edge.weight.arguments@);
    while index < edge.weight.arguments.len()
        invariant
            index <= edge.weight.arguments.len(),
            arguments == BlockEdge::argument_views(edge.weight.arguments@),
            merges@.len() == index,
            forall|i: int|
                0 <= i < index ==> ((#[trigger] merges@[i]).parameter, merges@[i].argument@)
                    == arguments[i],
        decreases edge.weight.arguments.len() - index,
    {
        merges.push(
            MergeRelationship {
                parameter: edge.weight.arguments[index].0,
                argument: edge.weight.arguments[index].1.clone(),
            },
        );
        index += 1;
    }
    let fact = EdgeFact {
        source: edge.source,
        target: edge.target,
        branch: BranchKind::from(&edge.weight.branch_type),
        merges,
    };
    proof {
        assert(fact@.merges =~= arguments);
    }
    fact
}

/// Whether a local is given or read on one of the edges.
pub open spec fn on_edges(edges: Seq<EdgeView>, local: RcLocal) -> bool {
    exists|i: int| 0 <= i < edges.len() && on_edge(#[trigger] edges[i], local)
}

/// Whether a local is given or read on an edge.
pub open spec fn on_edge(edge: EdgeView, local: RcLocal) -> bool {
    exists|k: int|
        0 <= k < edge.arguments.len() && ((#[trigger] edge.arguments[k]).0 == local
            || edge.arguments[k].1.reads().contains(local))
}

fn add_locals(set: &mut LocalSet, locals: &Vec<RcLocal>)
    requires
        old(set).well_formed(),
    ensures
        final(set).well_formed(),
        forall|id: u64| #[trigger]
            final(set)@.contains(id) <==> old(set)@.contains(id) || locals@.contains(RcLocal { id }),
{
    let mut index: usize = 0;
    while index < locals.len()
        invariant
            index <= locals.len(),
            set.well_formed(),
            forall|id: u64| #[trigger]
                set@.contains(id) <==> old(set)@.contains(id) || locals@.take(
                    index as int,
                ).contains(RcLocal { id }),
        decreases locals.len() - index,
    {
        let ghost shorter = locals@.take(index as int);
        let ghost held = set@;
        set.insert(locals[index].id);
        index += 1;
        proof {
            let longer = locals@.take(index as int);
            assert(longer =~= shorter.push(locals@[index - 1]));
            assert forall|id: u64| #[trigger]
                set@.contains(id) <==> old(set)@.contains(id) || longer.contains(
                    RcLocal { id },
                ) by {
                if shorter.contains(RcLocal { id }) {
                    let i = choose|i: int|
                        0 <= i < shorter.len() && shorter[i] == (RcLocal { id });
                    assert(longer[i] == (RcLocal { id }));
                }
                if longer.contains(RcLocal { id }) {
                    let i = choose|i: int| 0 <= i < longer.len() && longer[i] == (RcLocal { id });
                    if i < shorter.len() {
                        assert(shorter[i] == (RcLocal { id }));
                    }
                }
                assert(longer[index - 1] == locals@[index - 1]);
                assert(held.insert(locals@[index - 1].id).contains(id) <==> held.contains(id) || id
                    == locals@[index - 1].id);
            }
        }
    }
    proof {
        assert(locals@.take(index as int) =~= locals@);
    }
}

fn add_edge_locals(set: &mut LocalSet, edge: &EdgeReference<'_>)
    requires
        old(set).well_formed(),
    ensures
        final(set).well_formed(),
        forall|id: u64| #[trigger]
            final(set)@.contains(id) <==> old(set)@.contains(id) || on_edge(edge@, RcLocal { id }),
{
    let ghost arguments = edge@.arguments;
    let mut index: usize = 0;
    while index < edge.weight.arguments.len()
        invariant
            index <= edge.weight.arguments.len(),
            arguments == edge@.arguments,
            arguments.len() == edge.weight.arguments@.len(),
            set.well_formed(),
            forall|id: u64| #[trigger]
                set@.contains(id) <==> old(set)@.contains(id) || exists|k: int|
                    0 <= k < index && ((#[trigger] arguments[k]).0 == (RcLocal { id })
                        || arguments[k].1.reads().contains(RcLocal { id })),
        decreases edge.weight.arguments.len() - index,
    {
        let ghost held = set@;
        set.insert(edge.weight.arguments[index].0.id);
        let read = edge.weight.arguments[index].1.values_read();
        add_locals(set, &read);
        proof {
            let here = index as int;
            assert(arguments[here] == (
                edge.weight.arguments@[here].0,
                edge.weight.arguments@[here].1@,
            ));
            assert forall|id: u64| #[trigger]
                set@.contains(id) <==> old(set)@.contains(id) || exists|k: int|
                    0 <= k < index + 1 && ((#[trigger] arguments[k]).0 == (RcLocal { id })
                        || arguments[k].1.reads().contains(RcLocal { id })) by {
                assert(held.insert(arguments[here].0.id).contains(id) <==> held.contains(id) || id
                    == arguments[here].0.id);
                if set@.contains(id) && !held.contains(id) {
                    assert(arguments[here].0 == (RcLocal { id }) || arguments[here].1.reads().contains(
                        RcLocal { id },
                    ));
                }
                if exists|k: int|
                    0 <= k < index + 1 && ((#[trigger] arguments[k]).0 == (RcLocal { id })
                        || arguments[k].1.reads().contains(RcLocal { id })) {
                    let k = choose|k: int|
                        0 <= k < index + 1 && ((#[trigger] arguments[k]).0 == (RcLocal { id })
                            || arguments[k].1.reads().contains(RcLocal { id }));
                    if k < here {
                        assert(held.contains(id));
                    }
                }
            }
        }
        index += 1;
    }
}

/// Derives the edge facts, and adds the locals on the edges to a set.
fn derive_edges(function: &Function, set: &mut LocalSet) -> (facts: Vec<EdgeFact>)
    requires
        function.well_formed(),
        old(set).well_formed(),
    ensures
        are_edge_facts(function@.edges, facts@),
        final(set).well_formed(),
        forall|id: u64| #[trigger]
            final(set)@.contains(id) <==> old(set)@.contains(id) || on_edges(
                function@.edges,
                RcLocal { id },
            ),
{
    let references = function.edge_references();
    let ghost all = EdgeReference::views(references@);
    let count: usize = references.len();
    let mut rest = references;
    let mut ordered: Vec<EdgeReference<'_>> = Vec::new();
    let mut index: usize = 0;
    proof {
        assert(all.take(0) =~= Seq::empty());
        assert(EdgeReference::views(ordered@) =~= Seq::empty());
    }
    while index < count
        invariant
            index <= count == all.len(),
            rest@.len() == count - index,
            forall|i: int| 0 <= i < rest@.len() ==> (#[trigger] rest@[i])@ == all[index + i],
            forall|i: int, j: int| 0 <= i < j < all.len() ==> all[i].id < all[j].id,
            set.well_formed(),
            forall|id: u64| #[trigger]
                set@.contains(id) <==> old(set)@.contains(id) || on_edges(
                    all.take(index as int),
                    RcLocal { id },
                ),
            ordered@.len() == index,
            EdgeFactView::is_ordered(EdgeReference::views(ordered@)),
            EdgeReference::views(ordered@).to_multiset() == all.take(index as int).to_multiset(),
        decreases count - index,
    {
        broadcast use vstd::seq_lib::group_to_multiset_ensures;

        let edge = rest.remove(0);
        let ghost held = set@;
        let ghost shorter = all.take(index as int);
        let ghost longer = all.take(index + 1);
        let ghost before = EdgeReference::views(ordered@);
        let ghost view = edge@;
        proof {
            assert(view == all[index as int]);
            assert(longer =~= shorter.push(view));
            assert forall|i: int| 0 <= i < ordered@.len() implies (#[trigger] ordered@[i]).id
                != edge.id by {
                assert(before.to_multiset().contains(before[i]));
                assert(shorter.contains(before[i]));
                let k = choose|k: int| 0 <= k < shorter.len() && shorter[k] == before[i];
                assert(all[k].id < all[index as int].id);
            }
        }
        add_edge_locals(set, &edge);
        insert_edge(&mut ordered, edge);
        proof {
            let place = choose|place: int|
                0 <= place <= before.len() && EdgeReference::views(ordered@)
                    == #[trigger] before.insert(place, view);
            assert(EdgeReference::views(ordered@).to_multiset() =~= longer.to_multiset());
            assert forall|id: u64| #[trigger]
                set@.contains(id) <==> old(set)@.contains(id) || on_edges(
                    longer,
                    RcLocal { id },
                ) by {
                let local = RcLocal { id };
                if on_edges(shorter, local) {
                    let i = choose|i: int|
                        0 <= i < shorter.len() && on_edge(#[trigger] shorter[i], local);
                    assert(on_edge(longer[i], local));
                }
                if on_edge(view, local) {
                    assert(on_edge(longer[index as int], local));
                }
                if on_edges(longer, local) {
                    let i = choose|i: int|
                        0 <= i < longer.len() && on_edge(#[trigger] longer[i], local);
                    if i < shorter.len() {
                        assert(on_edge(shorter[i], local));
                    }
                }
                assert(held.contains(id) <==> old(set)@.contains(id) || on_edges(shorter, local));
            }
        }
        index += 1;
    }
    let mut facts: Vec<EdgeFact> = Vec::new();
    let ghost order = EdgeReference::views(ordered@);
    let mut at: usize = 0;
    while at < ordered.len()
        invariant
            at <= ordered.len(),
            order == EdgeReference::views(ordered@),
            facts@.len() == at,
            forall|i: int| 0 <= i < at ==> (#[trigger] facts@[i])@ == EdgeFactView::of(order[i]),
        decreases ordered.len() - at,
    {
        facts.push(edge_fact(&ordered[at]));
        at += 1;
    }
    proof {
        broadcast use vstd::seq_lib::group_to_multiset_ensures;

        assert(all.take(count as int) =~= all);
        assert(order.to_multiset() == function@.edges.to_multiset());
        assert forall|id: u64| on_edges(all, RcLocal { id }) == on_edges(
            function@.edges,
            RcLocal { id },
        ) by {
            let local = RcLocal { id };
            let edges = function@.edges;
            if on_edges(all, local) {
                let i = choose|i: int| 0 <= i < all.len() && on_edge(#[trigger] all[i], local);
                assert(all.to_multiset().contains(all[i]));
                assert(edges.contains(all[i]));
                let k = choose|k: int| 0 <= k < edges.len() && edges[k] == all[i];
                assert(on_edge(edges[k], local));
            }
            if on_edges(edges, local) {
                let i = choose|i: int| 0 <= i < edges.len() && on_edge(#[trigger] edges[i], local);
                assert(edges.to_multiset().contains(edges[i]));
                assert(all.contains(edges[i]));
                let k = choose|k: int| 0 <= k < all.len() && all[k] == edges[i];
                assert(on_edge(all[k], local));
            }
        }
    }
    facts
}

/// What is known of one local.
#[derive(Debug)]
pub struct LocalFact {
    pub bindings: BindingSet,
    pub definitions: OriginSet,
    pub uses: OriginSet,
}

impl LocalFact {
    pub open spec fn view(&self) -> LocalProvenanceView {
        LocalProvenanceView {
            bindings: self.bindings@,
            definitions: self.definitions@,
            uses: self.uses@,
        }
    }

    /// The sets are in order.
    pub open spec fn well_formed(&self) -> bool {
        self.bindings.well_formed() && self.definitions.well_formed() && self.uses.well_formed()
    }
}

/// Whether a list holds the blocks of a function, the lowest first.
pub open spec fn is_node_list(cfg: CfgView, nodes: Seq<u32>) -> bool {
    &&& nodes.to_set() == cfg.blocks.dom()
    &&& forall|i: int, j: int| 0 <= i < j < nodes.len() ==> nodes[i] < nodes[j]
}

/// The effects of the statements of the blocks from `block` on, those of the
/// first from `statement` on.
pub open spec fn effects_from(cfg: CfgView, nodes: Seq<u32>, block: int, statement: int) -> Seq<
    (StatementLocation, EffectView),
>
    decreases nodes.len() - block, cfg.blocks[nodes[block]].len() - statement,
{
    if 0 <= block < nodes.len() {
        let statements = cfg.blocks[nodes[block]];
        if 0 <= statement < statements.len() {
            let location = StatementLocation {
                block: nodes[block],
                statement: statement as usize,
            };
            seq![
                (
                    location,
                    EffectView::of_statement(cfg.provenance, location, statements[statement]),
                ),
            ] + effects_from(cfg, nodes, block, statement + 1)
        } else {
            effects_from(cfg, nodes, block + 1, 0)
        }
    } else {
        Seq::empty()
    }
}

/// The origins of the statements that have any recorded, of the blocks from
/// `block` on, those of the first from `statement` on.
pub open spec fn origins_from(cfg: CfgView, nodes: Seq<u32>, block: int, statement: int) -> Seq<
    (StatementLocation, Set<OriginView>),
>
    decreases nodes.len() - block, cfg.blocks[nodes[block]].len() - statement,
{
    if 0 <= block < nodes.len() {
        let statements = cfg.blocks[nodes[block]];
        if 0 <= statement < statements.len() {
            let location = StatementLocation {
                block: nodes[block],
                statement: statement as usize,
            };
            let rest = origins_from(cfg, nodes, block, statement + 1);
            match cfg.origins_of(nodes[block], statement) {
                Some(origins) => seq![(location, origins)] + rest,
                None => rest,
            }
        } else {
            origins_from(cfg, nodes, block + 1, 0)
        }
    } else {
        Seq::empty()
    }
}

/// Whether a statement of the blocks from `block` on, of the first from
/// `statement` on, reads or writes a local.
pub open spec fn stated_from(
    cfg: CfgView,
    nodes: Seq<u32>,
    block: int,
    statement: int,
    local: RcLocal,
) -> bool
    decreases nodes.len() - block, cfg.blocks[nodes[block]].len() - statement,
{
    if 0 <= block < nodes.len() {
        let statements = cfg.blocks[nodes[block]];
        if 0 <= statement < statements.len() {
            statements[statement].locals().contains(local) || stated_from(
                cfg,
                nodes,
                block,
                statement + 1,
                local,
            )
        } else {
            stated_from(cfg, nodes, block + 1, 0, local)
        }
    } else {
        false
    }
}

/// Whether a function mentions a local: as a parameter, in a statement or on
/// an edge.
pub open spec fn mentions(cfg: CfgView, nodes: Seq<u32>, local: RcLocal) -> bool {
    ||| cfg.parameters.contains(local)
    ||| stated_from(cfg, nodes, 0, 0, local)
    ||| on_edges(cfg.edges, local)
}

/// The model of a list of effects.
pub open spec fn effect_views(effects: Seq<(StatementLocation, EffectSummary)>) -> Seq<
    (StatementLocation, EffectView),
> {
    Seq::new(effects.len(), |i: int| (effects[i].0, effects[i].1@))
}

/// The model of a list of origins.
pub open spec fn origin_views(origins: Seq<(StatementLocation, OriginSet)>) -> Seq<
    (StatementLocation, Set<OriginView>),
> {
    Seq::new(origins.len(), |i: int| (origins[i].0, origins[i].1@))
}

/// Whether the sets of a list of origins are in order.
pub open spec fn are_ordered_origins(origins: Seq<(StatementLocation, OriginSet)>) -> bool {
    forall|i: int| 0 <= i < origins.len() ==> (#[trigger] origins[i]).1.well_formed()
}

/// Whether the sets of a list of effects are in order.
pub open spec fn are_ordered_effects(effects: Seq<(StatementLocation, EffectSummary)>) -> bool {
    forall|i: int| 0 <= i < effects.len() ==> (#[trigger] effects[i]).1.well_formed()
}

/// Whether facts are what is known of every local that a function mentions,
/// in the order that the locals were created in.
pub open spec fn are_local_facts(
    cfg: CfgView,
    nodes: Seq<u32>,
    facts: Seq<(RcLocal, LocalFact)>,
) -> bool {
    &&& forall|i: int|
        0 <= i < facts.len() ==> (#[trigger] facts[i]).1.well_formed() && facts[i].1@ == cfg.known(
            facts[i].0,
        )
    &&& forall|local: RcLocal| #[trigger]
        mentions(cfg, nodes, local) <==> exists|i: int|
            0 <= i < facts.len() && (#[trigger] facts[i]).0 == local
    &&& forall|i: int, j: int| 0 <= i < j < facts.len() ==> facts[i].0.id < facts[j].0.id
}

/// What a function shows.
#[derive(Debug)]
pub struct RecoveryFacts {
    function_id: usize,
    derived: FactSet,
    locals: Vec<(RcLocal, LocalFact)>,
    statement_origins: Vec<(StatementLocation, OriginSet)>,
    edges: Vec<EdgeFact>,
    dominators: Vec<(u32, NodeSet)>,
    post_dominators: Vec<(u32, NodeSet)>,
    candidate_regions: Vec<CandidateRegion>,
    effects: Vec<(StatementLocation, EffectSummary)>,
}

/// Whether a local is in a set or mentioned by the statements from a place on
/// just where it is a parameter or mentioned by any statement.
spec fn accounts_for(
    cfg: CfgView,
    nodes: Seq<u32>,
    block: int,
    statement: int,
    locals: Set<u64>,
    id: u64,
) -> bool {
    (locals.contains(id) || stated_from(cfg, nodes, block, statement, RcLocal { id })) == (
    cfg.parameters.contains(RcLocal { id }) || stated_from(cfg, nodes, 0, 0, RcLocal { id }))
}

/// Whether a set of locals and what the statements from a place on mention make
/// up the parameters and what all statements mention.
spec fn accounts_from(
    cfg: CfgView,
    nodes: Seq<u32>,
    block: int,
    statement: int,
    locals: Set<u64>,
) -> bool {
    forall|id: u64| #[trigger] accounts_for(cfg, nodes, block, statement, locals, id)
}

proof fn lemma_account_statement(
    cfg: CfgView,
    nodes: Seq<u32>,
    block: int,
    statement: int,
    before: Set<u64>,
    after: Set<u64>,
)
    requires
        0 <= block < nodes.len(),
        0 <= statement < cfg.blocks[nodes[block]].len(),
        accounts_from(cfg, nodes, block, statement, before),
        forall|id: u64| #[trigger]
            after.contains(id) <==> before.contains(id)
                || cfg.blocks[nodes[block]][statement].locals().contains(RcLocal { id }),
    ensures
        accounts_from(cfg, nodes, block, statement + 1, after),
{
    assert forall|id: u64| #[trigger]
        accounts_for(cfg, nodes, block, statement + 1, after, id) by {
        assert(accounts_for(cfg, nodes, block, statement, before, id));
        assert(after.contains(id) <==> before.contains(id)
            || cfg.blocks[nodes[block]][statement].locals().contains(RcLocal { id }));
    }
}

proof fn lemma_account_block(
    cfg: CfgView,
    nodes: Seq<u32>,
    block: int,
    statement: int,
    locals: Set<u64>,
)
    requires
        0 <= block < nodes.len(),
        statement == cfg.blocks[nodes[block]].len(),
        accounts_from(cfg, nodes, block, statement, locals),
    ensures
        accounts_from(cfg, nodes, block + 1, 0, locals),
{
    assert forall|id: u64| #[trigger] accounts_for(cfg, nodes, block + 1, 0, locals, id) by {
        assert(accounts_for(cfg, nodes, block, statement, locals, id));
        assert(stated_from(cfg, nodes, block, statement, RcLocal { id }) == stated_from(
            cfg,
            nodes,
            block + 1,
            0,
            RcLocal { id },
        ));
    }
}

proof fn lemma_account_end(cfg: CfgView, nodes: Seq<u32>, block: int, locals: Set<u64>)
    requires
        block >= nodes.len(),
        accounts_from(cfg, nodes, block, 0, locals),
    ensures
        forall|id: u64| #[trigger]
            locals.contains(id) <==> cfg.parameters.contains(RcLocal { id }) || stated_from(
                cfg,
                nodes,
                0,
                0,
                RcLocal { id },
            ),
{
    assert forall|id: u64| #[trigger]
        locals.contains(id) <==> cfg.parameters.contains(RcLocal { id }) || stated_from(
            cfg,
            nodes,
            0,
            0,
            RcLocal { id },
        ) by {
        assert(accounts_for(cfg, nodes, block, 0, locals, id));
    }
}

struct StatementScan {
    locals: LocalSet,
    origins: Vec<(StatementLocation, OriginSet)>,
    effects: Vec<(StatementLocation, EffectSummary)>,
}

/// Scans the statements of a function.
fn scan_statements(function: &Function, nodes: &Vec<u32>) -> (scan: StatementScan)
    requires
        function.well_formed(),
        is_node_list(function@, nodes@),
    ensures
        scan.locals.well_formed(),
        forall|id: u64| #[trigger]
            scan.locals@.contains(id) <==> function@.parameters.contains(RcLocal { id })
                || stated_from(function@, nodes@, 0, 0, RcLocal { id }),
        are_ordered_origins(scan.origins@),
        are_ordered_effects(scan.effects@),
        origin_views(scan.origins@) == origins_from(function@, nodes@, 0, 0),
        effect_views(scan.effects@) == effects_from(function@, nodes@, 0, 0),
{
    let ghost cfg = function@;
    let mut locals = LocalSet::new();
    add_locals(&mut locals, function.parameters());
    let mut origins: Vec<(StatementLocation, OriginSet)> = Vec::new();
    let mut effects: Vec<(StatementLocation, EffectSummary)> = Vec::new();
    let mut at: usize = 0;
    proof {
        assert(origin_views(origins@) + origins_from(cfg, nodes@, 0, 0) =~= origins_from(
            cfg,
            nodes@,
            0,
            0,
        ));
        assert(effect_views(effects@) + effects_from(cfg, nodes@, 0, 0) =~= effects_from(
            cfg,
            nodes@,
            0,
            0,
        ));
    }
    while at < nodes.len()
        invariant
            at <= nodes.len(),
            function.well_formed(),
            cfg == function@,
            is_node_list(cfg, nodes@),
            locals.well_formed(),
            accounts_from(cfg, nodes@, at as int, 0, locals@),
            are_ordered_origins(origins@),
            are_ordered_effects(effects@),
            origin_views(origins@) + origins_from(cfg, nodes@, at as int, 0) == origins_from(
                cfg,
                nodes@,
                0,
                0,
            ),
            effect_views(effects@) + effects_from(cfg, nodes@, at as int, 0) == effects_from(
                cfg,
                nodes@,
                0,
                0,
            ),
        decreases nodes.len() - at,
    {
        let node: u32 = nodes[at];
        proof {
            assert(nodes@.to_set().contains(node));
        }
        match function.block(node) {
            Some(block) => {
                let mut index: usize = 0;
                while index < block.0.len()
                    invariant
                        index <= block.0.len(),
                        at < nodes.len(),
                        node == nodes@[at as int],
                        function.well_formed(),
                        cfg == function@,
                        cfg.blocks.dom().contains(node),
                        cfg.blocks[node] == block@,
                        locals.well_formed(),
                        accounts_from(cfg, nodes@, at as int, index as int, locals@),
                        are_ordered_origins(origins@),
                        are_ordered_effects(effects@),
                        origin_views(origins@) + origins_from(
                            cfg,
                            nodes@,
                            at as int,
                            index as int,
                        ) == origins_from(cfg, nodes@, 0, 0),
                        effect_views(effects@) + effects_from(
                            cfg,
                            nodes@,
                            at as int,
                            index as int,
                        ) == effects_from(cfg, nodes@, 0, 0),
                    decreases block.0.len() - index,
                {
                    let statement = &block.0[index];
                    let location = StatementLocation { block: node, statement: index };
                    let ghost held = locals@;
                    let ghost origins_before = origin_views(origins@);
                    let ghost effects_before = effect_views(effects@);
                    proof {
                        assert(block@[index as int] == statement@);
                    }
                    let mentioned = statement.values();
                    add_locals(&mut locals, &mentioned);
                    proof {
                        assert(mentioned@ == statement@.locals());
                        lemma_account_statement(
                            cfg,
                            nodes@,
                            at as int,
                            index as int,
                            held,
                            locals@,
                        );
                    }
                    match function.statement_origins(node, index) {
                        Some(found) => {
                            let found = found.clone();
                            let ghost view = found@;
                            origins.push((location, found));
                            proof {
                                assert(origin_views(origins@) =~= origins_before.push(
                                    (location, view),
                                ));
                                assert(origin_views(origins@) + origins_from(
                                    cfg,
                                    nodes@,
                                    at as int,
                                    index + 1,
                                ) =~= origins_before + origins_from(
                                    cfg,
                                    nodes@,
                                    at as int,
                                    index as int,
                                ));
                            }
                        },
                        None => {},
                    }
                    let summary = summarize_effects(function, location, statement);
                    let ghost view = summary@;
                    effects.push((location, summary));
                    proof {
                        assert(effect_views(effects@) =~= effects_before.push((location, view)));
                        assert(effect_views(effects@) + effects_from(
                            cfg,
                            nodes@,
                            at as int,
                            index + 1,
                        ) =~= effects_before + effects_from(
                            cfg,
                            nodes@,
                            at as int,
                            index as int,
                        ));
                    }
                    index += 1;
                }
            },
            None => {},
        }
        proof {
            lemma_account_block(
                cfg,
                nodes@,
                at as int,
                cfg.blocks[nodes@[at as int]].len() as int,
                locals@,
            );
        }
        at += 1;
    }
    proof {
        lemma_account_end(cfg, nodes@, at as int, locals@);
        assert(origin_views(origins@) + Seq::<(StatementLocation, Set<OriginView>)>::empty()
            =~= origin_views(origins@));
        assert(effect_views(effects@) + Seq::<(StatementLocation, EffectView)>::empty()
            =~= effect_views(effects@));
    }
    StatementScan { locals, origins, effects }
}

fn derive_locals(function: &Function, set: &LocalSet, nodes: Ghost<Seq<u32>>) -> (facts: Vec<
    (RcLocal, LocalFact),
>)
    requires
        function.well_formed(),
        set.well_formed(),
        forall|id: u64| #[trigger]
            set@.contains(id) <==> mentions(function@, nodes@, RcLocal { id }),
    ensures
        are_local_facts(function@, nodes@, facts@),
{
    let provenance = function.provenance();
    let ghost listed = set.listed();
    let count: usize = set.len();
    let mut facts: Vec<(RcLocal, LocalFact)> = Vec::new();
    let mut index: usize = 0;
    while index < count
        invariant
            index <= count == listed.len(),
            listed == set.listed(),
            function.well_formed(),
            provenance.well_formed(),
            provenance@ == function@.provenance,
            facts@.len() == index,
            forall|i: int|
                0 <= i < index ==> {
                    &&& (#[trigger] facts@[i]).0.id == listed[i]
                    &&& facts@[i].1.well_formed()
                    &&& facts@[i].1@ == function@.known(facts@[i].0)
                },
        decreases count - index,
    {
        let local = RcLocal { id: set.get(index) };
        let fact = LocalFact {
            bindings: provenance.bindings(local),
            definitions: provenance.origins(local),
            uses: provenance.uses(local),
        };
        proof {
            assert(fact@ =~= function@.known(local));
        }
        facts.push((local, fact));
        index += 1;
    }
    proof {
        assert forall|local: RcLocal| #[trigger]
            mentions(function@, nodes@, local) <==> exists|i: int|
                0 <= i < facts@.len() && (#[trigger] facts@[i]).0 == local by {
            let id = local.id;
            assert(local == (RcLocal { id }));
            if mentions(function@, nodes@, local) {
                assert(set@.contains(id));
                let i = choose|i: int| 0 <= i < listed.len() && listed[i] == id;
                assert(facts@[i].0 == local);
            }
            if exists|i: int| 0 <= i < facts@.len() && (#[trigger] facts@[i]).0 == local {
                let i = choose|i: int| 0 <= i < facts@.len() && (#[trigger] facts@[i]).0 == local;
                assert(listed[i] == id);
                assert(set@.contains(id));
            }
        }
        assert forall|i: int, j: int| 0 <= i < j < facts@.len() implies facts@[i].0.id
            < facts@[j].0.id by {
            assert(facts@[i].0.id == listed[i] && facts@[j].0.id == listed[j]);
        }
    }
    facts
}

impl RecoveryFacts {
    /// The loops of the function.
    pub closed spec fn regions(&self) -> Seq<CandidateRegion> {
        self.candidate_regions@
    }

    pub closed spec fn local_facts(&self) -> Seq<(RcLocal, LocalFact)> {
        self.locals@
    }

    pub closed spec fn origin_facts(&self) -> Seq<(StatementLocation, OriginSet)> {
        self.statement_origins@
    }

    pub closed spec fn edge_facts(&self) -> Seq<EdgeFact> {
        self.edges@
    }

    pub closed spec fn dominator_facts(&self) -> Seq<(u32, NodeSet)> {
        self.dominators@
    }

    pub closed spec fn post_dominator_facts(&self) -> Seq<(u32, NodeSet)> {
        self.post_dominators@
    }

    pub closed spec fn effect_facts(&self) -> Seq<(StatementLocation, EffectSummary)> {
        self.effects@
    }

    pub closed spec fn of_function(&self) -> usize {
        self.function_id
    }

    pub closed spec fn carried(&self) -> FactSet {
        self.derived
    }

    /// Whether these are the facts of a function, as far as they were asked
    /// for.
    pub open spec fn are_facts_of(&self, cfg: CfgView, nodes: Seq<u32>) -> bool {
        let arcs = EdgeView::arcs(cfg.edges);
        &&& self.of_function() == cfg.id
        &&& are_regions(arcs, cfg.blocks.dom(), self.regions())
        &&& self.carried().locals ==> are_local_facts(cfg, nodes, self.local_facts())
        &&& self.carried().statement_origins ==> are_ordered_origins(self.origin_facts())
            && origin_views(self.origin_facts()) == origins_from(cfg, nodes, 0, 0)
        &&& self.carried().effects ==> are_ordered_effects(self.effect_facts()) && effect_views(
            self.effect_facts(),
        ) == effects_from(cfg, nodes, 0, 0)
        &&& self.carried().edges ==> are_edge_facts(cfg.edges, self.edge_facts())
        &&& self.carried().dominators ==> are_dominators(
            arcs,
            cfg.blocks.dom(),
            cfg.entry,
            self.dominator_facts(),
        )
        &&& self.carried().post_dominators ==> are_post_dominators(
            cfg.edges,
            cfg.blocks.dom(),
            self.post_dominator_facts(),
        )
    }

    /// Derives every fact.
    pub fn derive(function: &Function) -> (result: Result<Self, RecoveryError>)
        requires
            function.well_formed(),
        ensures
            Self::is_derivation(function@, result),
            result matches Ok(facts) ==> facts.carried() == (FactSet {
                locals: true,
                statement_origins: true,
                edges: true,
                dominators: true,
                post_dominators: true,
                effects: true,
            }),
    {
        Self::derive_subset(function, FactSet::all())
    }

    /// Whether deriving gives the facts of a function; it fails just where the
    /// entry is not one of its blocks.
    pub open spec fn is_derivation(cfg: CfgView, result: Result<Self, RecoveryError>) -> bool {
        match result {
            Ok(facts) => {
                &&& cfg.entry matches Some(entry) ==> cfg.blocks.dom().contains(entry)
                &&& exists|nodes: Seq<u32>| #[trigger]
                    is_node_list(cfg, nodes) && facts.are_facts_of(cfg, nodes)
            },
            Err(RecoveryError::InvalidEntry { function_id, entry }) => {
                &&& function_id == cfg.id
                &&& cfg.entry == Some(entry)
                &&& !cfg.blocks.dom().contains(entry)
            },
        }
    }

    /// Derives the candidate regions and the facts asked for.
    pub fn derive_subset(function: &Function, requested: FactSet) -> (result: Result<
        Self,
        RecoveryError,
    >)
        requires
            function.well_formed(),
        ensures
            Self::is_derivation(function@, result),
            result matches Ok(facts) ==> facts.carried() == requested,
    {
        match function.entry() {
            Some(entry) => if !function.has_block(entry) {
                return Err(RecoveryError::InvalidEntry { function_id: function.id(), entry });
            },
            None => {},
        }
        // `locals` accumulates across both the statement scan and the edge
        // scan, so either consumer forces the scan that feeds it.
        let wants_statements = requested.locals || requested.statement_origins
            || requested.effects;
        let wants_edges = requested.locals || requested.edges;
        let nodes = function.nodes();
        let scan = if wants_statements {
            scan_statements(function, &nodes)
        } else {
            StatementScan { locals: LocalSet::new(), origins: Vec::new(), effects: Vec::new() }
        };
        let StatementScan { locals: set, origins, effects } = scan;
        let mut set = set;
        let edges = if wants_edges {
            derive_edges(function, &mut set)
        } else {
            Vec::new()
        };
        let locals = if requested.locals {
            derive_locals(function, &set, Ghost(nodes@))
        } else {
            Vec::new()
        };
        let dominators = if requested.dominators {
            derive_dominators(function)
        } else {
            Vec::new()
        };
        let post_dominators = if requested.post_dominators {
            derive_post_dominators(function)
        } else {
            Vec::new()
        };
        let candidate_regions = derive_candidate_regions(function);
        let facts = RecoveryFacts {
            function_id: function.id(),
            derived: requested,
            locals,
            statement_origins: origins,
            edges,
            dominators,
            post_dominators,
            candidate_regions,
            effects,
        };
        proof {
            assert(is_node_list(function@, nodes@));
            assert(facts.are_facts_of(function@, nodes@));
        }
        Ok(facts)
    }

    pub fn function_id(&self) -> (id: usize)
        ensures
            id == self.of_function(),
    {
        self.function_id
    }

    /// Which optional facts these are.
    pub fn derived(&self) -> (facts: FactSet)
        ensures
            facts == self.carried(),
    {
        self.derived
    }

    /// The loops of the function, which are always derived.
    pub fn candidate_regions(&self) -> (regions: &Vec<CandidateRegion>)
        ensures
            regions@ == self.regions(),
    {
        &self.candidate_regions
    }

    pub fn locals(&self) -> (facts: Option<&Vec<(RcLocal, LocalFact)>>)
        ensures
            match facts {
                Some(facts) => self.carried().locals && facts@ == self.local_facts(),
                None => !self.carried().locals,
            },
    {
        if self.derived.locals {
            Some(&self.locals)
        } else {
            None
        }
    }

    pub fn statement_origins(&self) -> (facts: Option<&Vec<(StatementLocation, OriginSet)>>)
        ensures
            match facts {
                Some(facts) => self.carried().statement_origins && facts@ == self.origin_facts(),
                None => !self.carried().statement_origins,
            },
    {
        if self.derived.statement_origins {
            Some(&self.statement_origins)
        } else {
            None
        }
    }

    pub fn edges(&self) -> (facts: Option<&Vec<EdgeFact>>)
        ensures
            match facts {
                Some(facts) => self.carried().edges && facts@ == self.edge_facts(),
                None => !self.carried().edges,
            },
    {
        if self.derived.edges {
            Some(&self.edges)
        } else {
            None
        }
    }

    pub fn dominators(&self) -> (facts: Option<&Vec<(u32, NodeSet)>>)
        ensures
            match facts {
                Some(facts) => self.carried().dominators && facts@ == self.dominator_facts(),
                None => !self.carried().dominators,
            },
    {
        if self.derived.dominators {
            Some(&self.dominators)
        } else {
            None
        }
    }

    pub fn post_dominators(&self) -> (facts: Option<&Vec<(u32, NodeSet)>>)
        ensures
            match facts {
                Some(facts) => self.carried().post_dominators && facts@
                    == self.post_dominator_facts(),
                None => !self.carried().post_dominators,
            },
    {
        if self.derived.post_dominators {
            Some(&self.post_dominators)
        } else {
            None
        }
    }

    pub fn effects(&self) -> (facts: Option<&Vec<(StatementLocation, EffectSummary)>>)
        ensures
            match facts {
                Some(facts) => self.carried().effects && facts@ == self.effect_facts(),
                None => !self.carried().effects,
            },
    {
        if self.derived.effects {
            Some(&self.effects)
        } else {
            None
        }
    }
}

} // verus!
