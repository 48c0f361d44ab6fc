//! Where the locals that closures hold by reference are captured.

use vstd::prelude::*;

use rustc_hash::{FxHashMap, FxHashSet};

use crate::ast::local::RcLocal;
use crate::ast::nodes;
use crate::ast::nodes::{Statement, StatementView};
use crate::cfg::block::EdgeView;
use crate::cfg::function::{CfgView, Function};
use crate::cfg::graph;
use crate::cfg::graph::{depth_first, NodeId};
use crate::cfg::listing;
use crate::cfg::ssa::capture_flow;
use crate::cfg::ssa::capture_flow::{
    find_captures, find_place, has_node, older, CaptureFlow, Flow, Site,
};
use crate::collections::{
    empty_map, empty_set, find_entry, has_member, insert_entry, insert_member,
};

verus! {

broadcast use nodes::group_views;

/// Where a capture opens: the block and the statement.
pub type OpenSite = (NodeId, usize);

/// Why the captures of a function cannot be told.
#[derive(Debug)]
pub enum UpvalueAnalysisError {
    /// Something that the analysis needs is missing.
    Resource(String),
    /// Blocks that lead to a block disagree on whether a capture is still open.
    PathDependentMerge { block: usize },
}

impl UpvalueAnalysisError {
    /// What to tell a person.
    pub fn message(&self) -> (text: String)
        ensures
            match self {
                UpvalueAnalysisError::Resource(reason) => text@
                    == "unable to reserve bounded upvalue state: "@ + reason@,
                UpvalueAnalysisError::PathDependentMerge { block } => text@
                    == "path-dependent upvalue openness at control-flow merge block "@
                    + crate::text::decimal(*block as nat),
            },
    {
        match self {
            UpvalueAnalysisError::Resource(reason) => {
                let mut text = String::from_str("unable to reserve bounded upvalue state: ");
                text.append(reason.as_str());
                text
            },
            UpvalueAnalysisError::PathDependentMerge { block } => {
                let mut text = String::from_str(
                    "path-dependent upvalue openness at control-flow merge block ",
                );
                crate::text::push_decimal(&mut text, *block as u128);
                text
            },
        }
    }
}

/// The blocks whose ends a capture reaches on some way while it is open, and
/// those whose ends it reaches on some way after it was closed.
#[verifier::ext_equal]
pub struct Reach {
    pub live: Set<u64>,
    pub detached: Set<u64>,
}

/// A group of captures of one local, in a function.
pub struct Epoch {
    pub local: u64,
    pub first: usize,
    pub sites: Seq<Site>,
    pub firsts: Seq<usize>,
    pub old: Map<u64, u64>,
}

impl Epoch {
    /// Whether a capture of the local opens a capture of the group.
    pub open spec fn opens_at(self, node: u32, t: int) -> bool {
        let place = capture_flow::place_from(self.sites, (self.local, node, t as usize), 0);
        place < self.sites.len() && self.firsts[place] == self.first
    }

    /// Whether the group is open, and whether it was closed, after a statement.
    pub open spec fn after(
        self,
        flags: (bool, bool),
        statement: StatementView,
        node: u32,
        t: int,
    ) -> (bool, bool) {
        let live = if capture_flow::is_captured(capture_flow::captures(statement), self.old, self.local) {
            self.opens_at(node, t)
        } else {
            flags.0
        };
        if capture_flow::is_among(capture_flow::closes(statement), self.local) {
            (false, flags.1 || live)
        } else {
            (live, flags.1)
        }
    }

    /// Whether the group is open, and whether it was closed, after the
    /// statements of a block from position `t` on.
    pub open spec fn after_from(
        self,
        flags: (bool, bool),
        block: Seq<StatementView>,
        t: int,
        node: u32,
    ) -> (bool, bool)
        decreases block.len() - t,
    {
        if 0 <= t < block.len() {
            self.after_from(self.after(flags, block[t], node, t), block, t + 1, node)
        } else {
            flags
        }
    }

    /// What the end of a block knows from the ends of those that lead to it.
    pub open spec fn at_end(self, cfg: CfgView, reach: Reach, node: u32) -> (bool, bool) {
        let sources = EdgeView::sources(EdgeView::entering(cfg.edges, node));
        let flags = (
            exists|i: int|
                0 <= i < sources.len() && reach.live.contains(#[trigger] sources[i] as u64),
            exists|i: int|
                0 <= i < sources.len() && reach.detached.contains(#[trigger] sources[i] as u64),
        );
        self.after_from(flags, cfg.blocks[node], 0, node)
    }

    /// What is reached with one more block on the way.
    pub open spec fn extended(self, cfg: CfgView, nodes: Seq<u32>, reach: Reach) -> Reach {
        Reach {
            live: Set::new(
                |node: u64|
                    reach.live.contains(node) || exists|i: int|
                        0 <= i < nodes.len() && #[trigger] nodes[i] == node && self.at_end(
                            cfg,
                            reach,
                            nodes[i],
                        ).0,
            ),
            detached: Set::new(
                |node: u64|
                    reach.detached.contains(node) || exists|i: int|
                        0 <= i < nodes.len() && #[trigger] nodes[i] == node && self.at_end(
                            cfg,
                            reach,
                            nodes[i],
                        ).1,
            ),
        }
    }

    /// What is reached over at most `steps` blocks.
    pub open spec fn reached(self, cfg: CfgView, nodes: Seq<u32>, steps: nat) -> Reach
        decreases steps,
    {
        if steps == 0 {
            Reach { live: Set::empty(), detached: Set::empty() }
        } else {
            self.extended(cfg, nodes, self.reached(cfg, nodes, (steps - 1) as nat))
        }
    }

    /// Whether the group reaches the end of a block on some way after it was
    /// closed.
    pub open spec fn is_detached(self, cfg: CfgView, nodes: Seq<u32>, node: u32) -> bool {
        exists|steps: nat|
            #[trigger] self.reached(cfg, nodes, steps).detached.contains(node as u64)
    }

    proof fn lemma_reached_grows(self, cfg: CfgView, nodes: Seq<u32>, low: nat, high: nat)
        requires
            low <= high,
        ensures
            self.reached(cfg, nodes, low).detached.subset_of(
                self.reached(cfg, nodes, high).detached,
            ),
        decreases high,
    {
        if low < high {
            self.lemma_reached_grows(cfg, nodes, low, (high - 1) as nat);
        }
    }

    proof fn lemma_reached_stays(self, cfg: CfgView, nodes: Seq<u32>, low: nat, high: nat)
        requires
            low <= high,
            self.extended(cfg, nodes, self.reached(cfg, nodes, low)) == self.reached(
                cfg,
                nodes,
                low,
            ),
        ensures
            self.reached(cfg, nodes, high) == self.reached(cfg, nodes, low),
        decreases high,
    {
        if low < high {
            self.lemma_reached_stays(cfg, nodes, low, (high - 1) as nat);
        }
    }
}

/// How many of the blocks from position `from` on are known at their ends.
pub open spec fn known_from(
    sources: Seq<u32>,
    exits: Map<u64, Map<u64, usize>>,
    from: int,
) -> nat
    decreases sources.len() - from,
{
    if 0 <= from < sources.len() {
        known_from(sources, exits, from + 1) + (if exits.dom().contains(sources[from] as u64) {
            1nat
        } else {
            0nat
        })
    } else {
        0
    }
}

/// Whether a capture of a local is open at the end of a block.
pub open spec fn is_open_after(
    exits: Map<u64, Map<u64, usize>>,
    node: u32,
    local: u64,
) -> bool {
    exits.dom().contains(node as u64) && exits[node as u64].dom().contains(local)
}

/// Whether blocks that lead to one disagree on a local: it is open after some
/// and not after others, or they know it by different captures.
pub open spec fn disagrees(
    sources: Seq<u32>,
    exits: Map<u64, Map<u64, usize>>,
    local: u64,
) -> bool {
    &&& known_from(sources, exits, 0) > 1
    &&& exists|i: int| 0 <= i < sources.len() && is_open_after(exits, #[trigger] sources[i], local)
    &&& exists|i: int, j: int|
        0 <= i < sources.len() && 0 <= j < sources.len() && exits.dom().contains(
            #[trigger] sources[i] as u64,
        ) && is_open_after(exits, #[trigger] sources[j], local) && (!is_open_after(
            exits,
            sources[i],
            local,
        ) || exits[sources[i] as u64][local] != exits[sources[j] as u64][local])
}

/// What the analysis of a function goes by.
pub struct Openings {
    pub cfg: CfgView,
    pub nodes: Seq<u32>,
    pub old: Map<u64, u64>,
    pub sites: Seq<Site>,
    pub flow: Flow,
}

impl Openings {
    /// The group of captures that a block knows a local by at its end.
    pub open spec fn epoch_after(self, node: u32, local: u64) -> Epoch {
        Epoch {
            local,
            first: self.flow.firsts[self.flow.exits[node as u64][local] as int],
            sites: self.sites,
            firsts: self.flow.firsts,
            old: self.old,
        }
    }

    /// Whether a local is open before a block by a group of captures that was
    /// closed on another way to it.
    pub open spec fn is_faulty(self, node: u32, local: u64) -> bool {
        let sources = EdgeView::sources(EdgeView::entering(self.cfg.edges, node));
        disagrees(sources, self.flow.exits, local) && exists|i: int, j: int|
            0 <= i < sources.len() && 0 <= j < sources.len() && is_open_after(
                self.flow.exits,
                #[trigger] sources[i],
                local,
            ) && self.flow.exits.dom().contains(#[trigger] sources[j] as u64) && self.epoch_after(
                sources[i],
                local,
            ).is_detached(self.cfg, self.nodes, sources[j])
    }

    /// The first of the blocks from position `from` on before which a local is
    /// faulty.
    pub open spec fn fault_from(self, local: u64, from: int) -> Option<u32>
        decreases self.nodes.len() - from,
    {
        if 0 <= from < self.nodes.len() {
            if self.is_faulty(self.nodes[from], local) {
                Some(self.nodes[from])
            } else {
                self.fault_from(local, from + 1)
            }
        } else {
            None
        }
    }

    /// The first fault of a local that the blocks that lead to a block disagree
    /// on, for the locals of the captures from position `from` on.
    pub open spec fn node_fault_from(self, node: u32, from: int) -> Option<u32>
        decreases self.sites.len() - from,
    {
        if 0 <= from < self.sites.len() {
            let local = self.sites[from].0;
            let sources = EdgeView::sources(EdgeView::entering(self.cfg.edges, node));
            if disagrees(sources, self.flow.exits, local) && self.fault_from(local, 0) is Some {
                self.fault_from(local, 0)
            } else {
                self.node_fault_from(node, from + 1)
            }
        } else {
            None
        }
    }

    /// The first fault, for the blocks from position `from` on.
    pub open spec fn first_fault_from(self, from: int) -> Option<u32>
        decreases self.nodes.len() - from,
    {
        if 0 <= from < self.nodes.len() {
            match self.node_fault_from(self.nodes[from], 0) {
                Some(node) => Some(node),
                None => self.first_fault_from(from + 1),
            }
        } else {
            None
        }
    }

    /// The capture that a local is open by after the first `count` statements
    /// of a block.
    pub open spec fn open_by(self, node: u32, local: u64, count: int) -> Option<usize>
        decreases count,
    {
        if count <= 0 {
            if self.flow.entries.dom().contains(node as u64)
                && self.flow.entries[node as u64].dom().contains(local) {
                Some(self.flow.entries[node as u64][local])
            } else {
                None
            }
        } else {
            let before = self.open_by(node, local, count - 1);
            let statement = self.cfg.blocks[node][count - 1];
            let place = capture_flow::place_from(
                self.sites,
                (local, node, (count - 1) as usize),
                0,
            );
            let captured = if before is None && capture_flow::is_captured(
                capture_flow::captures(statement),
                self.old,
                local,
            ) && place < self.sites.len() {
                Some(place as usize)
            } else {
                before
            };
            if capture_flow::is_among(capture_flow::closes(statement), local) {
                None
            } else {
                captured
            }
        }
    }

    /// The statement of a block after which a query looks: the one asked for,
    /// or the start of a block that has none.
    pub open spec fn looks_after(self, node: u32, statement: int) -> Option<int> {
        let length = self.cfg.blocks[node].len();
        if statement < length {
            Some(statement + 1)
        } else if length == 0 && statement == 0 {
            Some(0)
        } else {
            None
        }
    }

    /// The first of the captures that a local is open by at a statement.
    pub open spec fn location(self, node: u32, local: u64, statement: int) -> Option<OpenSite> {
        if !self.nodes.contains(node) {
            None
        } else {
            match self.looks_after(node, statement) {
                Some(count) => match self.open_by(node, local, count) {
                    Some(epoch) => {
                        let first = self.sites[self.flow.firsts[epoch as int] as int];
                        Some((first.1, first.2))
                    },
                    None => None,
                },
                None => None,
            }
        }
    }
}

/// The blocks that a function's entry reaches.
pub open spec fn reached_blocks(cfg: CfgView) -> Set<u32> {
    Set::new(
        |node: u32|
            cfg.blocks.dom().contains(node) && graph::reaches(
                EdgeView::arcs(cfg.edges),
                cfg.entry->0,
                node,
            ),
    )
}

/// What the analysis of a function goes by.
pub open spec fn openings(cfg: CfgView, old: Map<u64, u64>) -> Openings {
    let nodes = listing::listing(reached_blocks(cfg));
    Openings {
        cfg,
        nodes,
        old,
        sites: capture_flow::all_sites(cfg, nodes, old),
        flow: capture_flow::capture_flow(cfg, nodes, old),
    }
}

/// Whether every local that a function captures has an older one.
pub open spec fn has_older(cfg: CfgView, old: Map<u64, u64>) -> bool {
    forall|node: u32|
        cfg.blocks.dom().contains(node) ==> capture_flow::knows_captures(
            #[trigger] cfg.blocks[node],
            old,
        )
}

/// The captures and what is known of them name each other's locals.
spec fn is_sound(found: Openings) -> bool {
    capture_flow::is_sound_flow(found.flow, found.sites)
}

proof fn lemma_open_by(found: Openings, node: u32, local: u64, count: int)
    requires
        is_sound(found),
        found.sites.len() <= usize::MAX,
    ensures
        match found.open_by(node, local, count) {
            Some(epoch) => epoch < found.sites.len() && found.sites[epoch as int].0 == local,
            None => true,
        },
    decreases count,
{
    if count > 0 {
        lemma_open_by(found, node, local, count - 1);
        capture_flow::lemma_place(found.sites, (local, node, (count - 1) as usize), 0);
    }
}

proof fn lemma_never_open(found: Openings, node: u32, local: u64, statement: int)
    requires
        found.sites == capture_flow::all_sites(found.cfg, found.nodes, found.old),
        found.flow == capture_flow::capture_flow(found.cfg, found.nodes, found.old),
        found.sites.len() <= usize::MAX,
        !is_site_local(found.sites, found.sites.len() as int, local),
    ensures
        found.location(node, local, statement) is None,
{
    capture_flow::lemma_capture_flow(found.cfg, found.nodes, found.old);
    match found.looks_after(node, statement) {
        Some(count) => lemma_open_by(found, node, local, count),
        None => {},
    }
}

/// A local is open by captures of its own: where it was captured first, the
/// statement does capture it, in a block that the entry reaches.
pub proof fn openings_capture_their_local(
    cfg: CfgView,
    old: Map<u64, u64>,
    node: u32,
    local: u64,
    statement: int,
)
    requires
        forall|other: u32|
            cfg.blocks.dom().contains(other) ==> (#[trigger] cfg.blocks[other]).len() <= usize::MAX,
        reached_blocks(cfg).finite(),
        openings(cfg, old).sites.len() <= usize::MAX,
        openings(cfg, old).location(node, local, statement) is Some,
    ensures
        ({
            let (block, at) = openings(cfg, old).location(node, local, statement)->0;
            &&& reached_blocks(cfg).contains(block)
            &&& at < cfg.blocks[block].len()
            &&& capture_flow::is_captured(
                capture_flow::captures(cfg.blocks[block][at as int]),
                old,
                local,
            )
        }),
{
    let found = openings(cfg, old);
    capture_flow::lemma_capture_flow(cfg, found.nodes, old);
    listing::lemma_has_listing(reached_blocks(cfg));
    assert forall|i: int| 0 <= i < found.nodes.len() implies reached_blocks(cfg).contains(
        #[trigger] found.nodes[i],
    ) by {
        assert(found.nodes.to_set().contains(found.nodes[i]));
    }
    capture_flow::lemma_sites(Seq::empty(), cfg, found.nodes, 0, old);
    let count = found.looks_after(node, statement)->0;
    lemma_open_by(found, node, local, count);
    let epoch = found.open_by(node, local, count)->0;
    let first = found.sites[found.flow.firsts[epoch as int] as int];
    assert(found.sites[found.flow.firsts[epoch as int] as int].0 == local);
    assert(capture_flow::is_capture(cfg, found.nodes, old, first));
    let i = choose|i: int| 0 <= i < found.nodes.len() && found.nodes[i] == first.1;
    assert(reached_blocks(cfg).contains(found.nodes[i]));
}

/// A local that a statement closes is not open at it.
pub proof fn closed_locals_are_not_open(
    found: Openings,
    node: u32,
    local: u64,
    statement: int,
)
    requires
        0 <= statement < found.cfg.blocks[node].len(),
        capture_flow::is_among(capture_flow::closes(found.cfg.blocks[node][statement]), local),
    ensures
        found.location(node, local, statement) is None,
{
    assert(found.open_by(node, local, statement + 1) is None);
}

/// What is not open at a statement opens only where it is captured.
pub proof fn locals_open_where_they_are_captured(
    found: Openings,
    node: u32,
    local: u64,
    statement: int,
)
    requires
        0 < statement < found.cfg.blocks[node].len(),
        found.location(node, local, statement - 1) is None,
        found.location(node, local, statement) is Some,
    ensures
        capture_flow::is_captured(
            capture_flow::captures(found.cfg.blocks[node][statement]),
            found.old,
            local,
        ),
{
    assert(found.looks_after(node, statement - 1) == Some(statement));
    assert(found.open_by(node, local, statement) is None);
}

fn has_captured(locals: &Vec<RcLocal>, old: &FxHashMap<u64, u64>, local: u64) -> (result: bool)
    requires
        forall|k: int| 0 <= k < locals@.len() ==> old@.dom().contains((#[trigger] locals@[k]).id),
    ensures
        result == capture_flow::is_captured(locals@, old@, local),
{
    let mut k: usize = 0;
    while k < locals.len()
        invariant
            k <= locals@.len(),
            forall|i: int|
                0 <= i < locals@.len() ==> old@.dom().contains((#[trigger] locals@[i]).id),
            forall|i: int| 0 <= i < k ==> old@[(#[trigger] locals@[i]).id] != local,
        decreases locals.len() - k,
    {
        proof {
            assert(old@.dom().contains(locals@[k as int].id));
        }
        if older(old, locals[k]) == local {
            assert(old@[locals@[k as int].id] == local);
            return true;
        }
        k += 1;
    }
    false
}

/// Whether a statement ends the captures of a local.
fn ends_captures(statement: &Statement, local: u64) -> (result: bool)
    ensures
        result == capture_flow::is_among(capture_flow::closes(statement@), local),
{
    proof {
        nodes::statement_node(*statement);
    }
    if let Statement::Close(close) = statement {
        let mut k: usize = 0;
        while k < close.locals.len()
            invariant
                k <= close.locals@.len(),
                capture_flow::closes(statement@) == close.locals@,
                forall|i: int| 0 <= i < k ==> (#[trigger] close.locals@[i]).id != local,
            decreases close.locals.len() - k,
        {
            if close.locals[k].id == local {
                assert(close.locals@[k as int].id == local);
                return true;
            }
            k += 1;
        }
    }
    false
}

/// A group of captures of one local, under analysis.
struct Followed<'a> {
    local: u64,
    first: usize,
    flow: &'a CaptureFlow,
    old: &'a FxHashMap<u64, u64>,
}

impl<'a> Followed<'a> {
    spec fn epoch(&self) -> Epoch {
        Epoch {
            local: self.local,
            first: self.first,
            sites: self.flow.sites@,
            firsts: self.flow.firsts@,
            old: self.old@,
        }
    }

    /// Follows the group through a block.
    fn follow(&self, function: &Function, node: NodeId, live: bool, detached: bool) -> (flags: (
        bool,
        bool,
    ))
        requires
            function.well_formed(),
            self.flow.is_valid(),
            function@.blocks.dom().contains(node),
            capture_flow::knows_captures(function@.blocks[node], self.old@),
        ensures
            flags == self.epoch().after_from(
                (live, detached),
                function@.blocks[node],
                0,
                node,
            ),
    {
        let ghost views = function@.blocks[node];
        let ghost whole = self.epoch().after_from((live, detached), views, 0, node);
        let mut flags = (live, detached);
        if let Some(block) = function.block(node) {
            let mut t: usize = 0;
            while t < block.0.len()
                invariant
                    t <= block.0@.len() == views.len(),
                    views == Statement::views(block.0@),
                    self.flow.is_valid(),
                    capture_flow::knows_captures(views, self.old@),
                    whole == self.epoch().after_from(flags, views, t as int, node),
                decreases block.0.len() - t,
            {
                proof {
                    assert(views[t as int] == block.0@[t as int]@);
                }
                let locals = find_captures(&block.0[t]);
                proof {
                    assert forall|k: int| 0 <= k < locals@.len() implies self.old@.dom().contains(
                        (#[trigger] locals@[k]).id,
                    ) by {
                        assert(self.old@.dom().contains(
                            capture_flow::captures(views[t as int])[k].id,
                        ));
                    }
                }
                let mut now = flags.0;
                if has_captured(&locals, self.old, self.local) {
                    let place = find_place(&self.flow.sites, (self.local, node, t));
                    now = place < self.flow.sites.len() && self.flow.firsts[place] == self.first;
                }
                flags = if ends_captures(&block.0[t], self.local) {
                    (false, flags.1 || now)
                } else {
                    (now, flags.1)
                };
                t += 1;
            }
        }
        flags
    }

    /// What the end of a block knows from the ends of those that lead to it.
    fn follow_from(
        &self,
        function: &Function,
        node: NodeId,
        live: &FxHashSet<u64>,
        detached: &FxHashSet<u64>,
    ) -> (flags: (bool, bool))
        requires
            function.well_formed(),
            self.flow.is_valid(),
            function@.blocks.dom().contains(node),
            capture_flow::knows_captures(function@.blocks[node], self.old@),
        ensures
            flags == self.epoch().at_end(
                function@,
                (Reach { live: live@, detached: detached@ }),
                node,
            ),
    {
        let sources = function.predecessor_blocks(node);
        let mut some_live = false;
        let mut some_detached = false;
        let mut at: usize = 0;
        while at < sources.len()
            invariant
                at <= sources@.len(),
                some_live == exists|i: int|
                    0 <= i < at && live@.contains(#[trigger] sources@[i] as u64),
                some_detached == exists|i: int|
                    0 <= i < at && detached@.contains(#[trigger] sources@[i] as u64),
            decreases sources.len() - at,
        {
            if has_member(live, sources[at] as u64) {
                assert(live@.contains(sources@[at as int] as u64));
                some_live = true;
            }
            if has_member(detached, sources[at] as u64) {
                assert(detached@.contains(sources@[at as int] as u64));
                some_detached = true;
            }
            at += 1;
        }
        self.follow(function, node, some_live, some_detached)
    }

    /// What the ends of the blocks know from what is reached.
    fn follow_all(
        &self,
        function: &Function,
        nodes: &Vec<NodeId>,
        live: &FxHashSet<u64>,
        detached: &FxHashSet<u64>,
    ) -> (list: Vec<(bool, bool)>)
        requires
            function.well_formed(),
            self.flow.is_valid(),
            forall|i: int|
                0 <= i < nodes@.len() ==> function@.blocks.dom().contains(#[trigger] nodes@[i])
                    && capture_flow::knows_captures(function@.blocks[nodes@[i]], self.old@),
        ensures
            list@.len() == nodes@.len(),
            forall|i: int|
                0 <= i < nodes@.len() ==> #[trigger] list@[i] == self.epoch().at_end(
                    function@,
                    (Reach { live: live@, detached: detached@ }),
                    nodes@[i],
                ),
    {
        let mut list: Vec<(bool, bool)> = Vec::new();
        let mut at: usize = 0;
        while at < nodes.len()
            invariant
                at <= nodes@.len(),
                function.well_formed(),
                self.flow.is_valid(),
                forall|i: int|
                    0 <= i < nodes@.len() ==> function@.blocks.dom().contains(#[trigger] nodes@[i])
                        && capture_flow::knows_captures(function@.blocks[nodes@[i]], self.old@),
                list@.len() == at,
                forall|i: int|
                    0 <= i < at ==> #[trigger] list@[i] == self.epoch().at_end(
                        function@,
                        (Reach { live: live@, detached: detached@ }),
                        nodes@[i],
                    ),
            decreases nodes.len() - at,
        {
            proof {
                assert(function@.blocks.dom().contains(nodes@[at as int]));
            }
            list.push(self.follow_from(function, nodes[at], live, detached));
            at += 1;
        }
        list
    }

    /// Finds the blocks whose ends the group reaches on some way after it was
    /// closed.
    fn find_detached(&self, function: &Function, nodes: &Vec<NodeId>) -> (detached: FxHashSet<u64>)
        requires
            function.well_formed(),
            self.flow.is_valid(),
            forall|i: int|
                0 <= i < nodes@.len() ==> function@.blocks.dom().contains(#[trigger] nodes@[i])
                    && capture_flow::knows_captures(function@.blocks[nodes@[i]], self.old@),
        ensures
            forall|node: u32|
                detached@.contains(node as u64) <==> self.epoch().is_detached(
                    function@,
                    nodes@,
                    node,
                ),
    {
        let ghost epoch = self.epoch();
        let ghost cfg = function@;
        let mut live = empty_set();
        let mut detached = empty_set();
        let mut steps: Ghost<nat> = Ghost(0);
        let mut done = false;
        while !done
            invariant
                function.well_formed(),
                self.flow.is_valid(),
                cfg == function@,
                epoch == self.epoch(),
                forall|i: int|
                    0 <= i < nodes@.len() ==> function@.blocks.dom().contains(#[trigger] nodes@[i])
                        && capture_flow::knows_captures(function@.blocks[nodes@[i]], self.old@),
                epoch.reached(cfg, nodes@, steps@) == (Reach { live: live@, detached: detached@ }),
                done ==> epoch.extended(cfg, nodes@, epoch.reached(cfg, nodes@, steps@))
                    == epoch.reached(cfg, nodes@, steps@),
            decreases
                    (if done {
                        0int
                    } else {
                        1int
                    }),
                    absent_from(live@, nodes@, 0) + absent_from(detached@, nodes@, 0),
        {
            let list = self.follow_all(function, nodes, &live, &detached);
            let ghost before = Reach { live: live@, detached: detached@ };
            let ghost goal = epoch.extended(cfg, nodes@, before);
            let mut changed = false;
            let mut at: usize = 0;
            while at < nodes.len()
                invariant
                    at <= nodes@.len() == list@.len(),
                    forall|i: int|
                        0 <= i < nodes@.len() ==> #[trigger] list@[i] == epoch.at_end(
                            cfg,
                            before,
                            nodes@[i],
                        ),
                    forall|node: u64| #[trigger]
                        live@.contains(node) <==> before.live.contains(node) || exists|i: int|
                            0 <= i < at && #[trigger] nodes@[i] == node && list@[i].0,
                    forall|node: u64| #[trigger]
                        detached@.contains(node) <==> before.detached.contains(node) || exists|
                            i: int,
                        |
                            0 <= i < at && #[trigger] nodes@[i] == node && list@[i].1,
                    !changed ==> live@ =~= before.live && detached@ =~= before.detached,
                    changed ==> absent_from(live@, nodes@, 0) + absent_from(detached@, nodes@, 0)
                        < absent_from(before.live, nodes@, 0) + absent_from(
                        before.detached,
                        nodes@,
                        0,
                    ),
                    absent_from(live@, nodes@, 0) <= absent_from(before.live, nodes@, 0),
                    absent_from(detached@, nodes@, 0) <= absent_from(before.detached, nodes@, 0),
                decreases nodes.len() - at,
            {
                let node = nodes[at];
                let ghost held = live@;
                let ghost kept = detached@;
                proof {
                    assert(nodes@[at as int] == node);
                }
                if list[at].0 {
                    let fresh = insert_member(&mut live, node as u64);
                    changed = changed || fresh;
                    proof {
                        lemma_absent(held, nodes@, 0, node, at as int);
                        if !fresh {
                            assert(live@ =~= held);
                        }
                    }
                }
                if list[at].1 {
                    let fresh = insert_member(&mut detached, node as u64);
                    changed = changed || fresh;
                    proof {
                        lemma_absent(kept, nodes@, 0, node, at as int);
                        if !fresh {
                            assert(detached@ =~= kept);
                        }
                    }
                }
                proof {
                    assert forall|other: u64| #[trigger]
                        live@.contains(other) == (before.live.contains(other) || exists|i: int|
                            0 <= i < at + 1 && #[trigger] nodes@[i] == other && list@[i].0) by {
                        if held.contains(other) && !before.live.contains(other) {
                            let i = choose|i: int|
                                0 <= i < at && #[trigger] nodes@[i] == other && list@[i].0;
                            assert(0 <= i < at + 1 && nodes@[i] == other && list@[i].0);
                        }
                        if exists|i: int|
                            0 <= i < at + 1 && #[trigger] nodes@[i] == other && list@[i].0 {
                            let i = choose|i: int|
                                0 <= i < at + 1 && #[trigger] nodes@[i] == other && list@[i].0;
                            if i < at {
                                assert(held.contains(other));
                            }
                        }
                    }
                    assert forall|other: u64| #[trigger]
                        detached@.contains(other) == (before.detached.contains(other) || exists|
                            i: int,
                        |
                            0 <= i < at + 1 && #[trigger] nodes@[i] == other && list@[i].1) by {
                        if kept.contains(other) && !before.detached.contains(other) {
                            let i = choose|i: int|
                                0 <= i < at && #[trigger] nodes@[i] == other && list@[i].1;
                            assert(0 <= i < at + 1 && nodes@[i] == other && list@[i].1);
                        }
                        if exists|i: int|
                            0 <= i < at + 1 && #[trigger] nodes@[i] == other && list@[i].1 {
                            let i = choose|i: int|
                                0 <= i < at + 1 && #[trigger] nodes@[i] == other && list@[i].1;
                            if i < at {
                                assert(kept.contains(other));
                            }
                        }
                    }
                }
                at += 1;
            }
            proof {
                assert forall|node: u64| live@.contains(node) == goal.live.contains(node) by {
                    if live@.contains(node) && !before.live.contains(node) {
                        let i = choose|i: int|
                            0 <= i < nodes@.len() && #[trigger] nodes@[i] == node && list@[i].0;
                        assert(epoch.at_end(cfg, before, nodes@[i]).0);
                    }
                    if goal.live.contains(node) && !before.live.contains(node) {
                        let i = choose|i: int|
                            0 <= i < nodes@.len() && #[trigger] nodes@[i] == node && epoch.at_end(
                                cfg,
                                before,
                                nodes@[i],
                            ).0;
                        assert(list@[i].0);
                    }
                }
                assert forall|node: u64| detached@.contains(node) == goal.detached.contains(
                    node,
                ) by {
                    if detached@.contains(node) && !before.detached.contains(node) {
                        let i = choose|i: int|
                            0 <= i < nodes@.len() && #[trigger] nodes@[i] == node && list@[i].1;
                        assert(epoch.at_end(cfg, before, nodes@[i]).1);
                    }
                    if goal.detached.contains(node) && !before.detached.contains(node) {
                        let i = choose|i: int|
                            0 <= i < nodes@.len() && #[trigger] nodes@[i] == node && epoch.at_end(
                                cfg,
                                before,
                                nodes@[i],
                            ).1;
                        assert(list@[i].1);
                    }
                }
                assert(live@ =~= goal.live);
                assert(detached@ =~= goal.detached);
                if changed {
                    steps@ = steps@ + 1;
                } else {
                    assert(before =~= goal);
                }
            }
            done = !changed;
        }
        proof {
            let last = epoch.reached(cfg, nodes@, steps@);
            assert forall|node: u32|
                detached@.contains(node as u64) <==> epoch.is_detached(cfg, nodes@, node) by {
                if detached@.contains(node as u64) {
                    assert(last.detached.contains(node as u64));
                }
                if epoch.is_detached(cfg, nodes@, node) {
                    let k = choose|k: nat|
                        #[trigger] epoch.reached(cfg, nodes@, k).detached.contains(node as u64);
                    if k <= steps@ {
                        epoch.lemma_reached_grows(cfg, nodes@, k, steps@);
                    } else {
                        epoch.lemma_reached_stays(cfg, nodes@, steps@, k);
                    }
                }
            }
        }
        detached
    }
}

/// How many of the nodes from position `from` on are not in a set.
spec fn absent_from(set: Set<u64>, nodes: Seq<u32>, from: int) -> nat
    decreases nodes.len() - from,
{
    if 0 <= from < nodes.len() {
        absent_from(set, nodes, from + 1) + (if set.contains(nodes[from] as u64) {
            0nat
        } else {
            1nat
        })
    } else {
        0
    }
}

proof fn lemma_absent(set: Set<u64>, nodes: Seq<u32>, from: int, node: u32, at: int)
    requires
        0 <= from,
        at < nodes.len(),
        nodes[at] == node,
    ensures
        absent_from(set.insert(node as u64), nodes, from) <= absent_from(set, nodes, from),
        from <= at && !set.contains(node as u64) ==> absent_from(
            set.insert(node as u64),
            nodes,
            from,
        ) < absent_from(set, nodes, from),
    decreases nodes.len() - from,
{
    if from < nodes.len() {
        lemma_absent(set, nodes, from + 1, node, at);
    }
}

fn count_known(sources: &Vec<NodeId>, exits: &FxHashMap<u64, FxHashMap<u64, usize>>) -> (count: usize)
    ensures
        count == known_from(sources@, capture_flow::state_views(exits@), 0),
{
    let ghost views = capture_flow::state_views(exits@);
    let length: usize = sources.len();
    let mut count: usize = 0;
    let mut at: usize = length;
    while at > 0
        invariant
            at <= length == sources@.len(),
            views == capture_flow::state_views(exits@),
            count == known_from(sources@, views, at as int),
            count <= length - at,
        decreases at,
    {
        at -= 1;
        if find_entry(exits, sources[at] as u64).is_some() {
            count += 1;
        }
    }
    count
}

/// The capture that a block knows a local by at its end.
fn find_epoch(
    exits: &FxHashMap<u64, FxHashMap<u64, usize>>,
    node: NodeId,
    local: u64,
) -> (epoch: Option<usize>)
    ensures
        match epoch {
            Some(epoch) => is_open_after(capture_flow::state_views(exits@), node, local)
                && capture_flow::state_views(exits@)[node as u64][local] == epoch,
            None => !is_open_after(capture_flow::state_views(exits@), node, local),
        },
{
    match find_entry(exits, node as u64) {
        Some(state) => {
            proof {
                assert(capture_flow::state_views(exits@)[node as u64] == state@);
            }
            match find_entry(state, local) {
                Some(epoch) => Some(*epoch),
                None => None,
            }
        },
        None => None,
    }
}

fn disagree(
    sources: &Vec<NodeId>,
    exits: &FxHashMap<u64, FxHashMap<u64, usize>>,
    local: u64,
) -> (result: bool)
    ensures
        result == disagrees(sources@, capture_flow::state_views(exits@), local),
{
    let ghost views = capture_flow::state_views(exits@);
    if count_known(sources, exits) <= 1 {
        return false;
    }
    let mut known: Option<usize> = None;
    let mut at: usize = 0;
    let mut place: Ghost<int> = Ghost(0);
    while at < sources.len()
        invariant
            at <= sources@.len(),
            views == capture_flow::state_views(exits@),
            match known {
                Some(epoch) => 0 <= place@ < sources@.len() && is_open_after(
                    views,
                    sources@[place@],
                    local,
                ) && views[sources@[place@] as u64][local] == epoch,
                None => forall|i: int|
                    0 <= i < at ==> !is_open_after(views, #[trigger] sources@[i], local),
            },
        decreases sources.len() - at,
    {
        if known.is_none() {
            known = find_epoch(exits, sources[at], local);
            proof {
                place@ = at as int;
            }
        }
        at += 1;
    }
    let epoch = match known {
        Some(epoch) => epoch,
        None => {
            return false;
        },
    };
    let ghost first = place@;
    proof {
        assert(is_open_after(views, sources@[first], local));
    }
    let mut at: usize = 0;
    while at < sources.len()
        invariant
            at <= sources@.len(),
            views == capture_flow::state_views(exits@),
            known_from(sources@, views, 0) > 1,
            0 <= first < sources@.len(),
            is_open_after(views, sources@[first], local),
            views[sources@[first] as u64][local] == epoch,
            forall|i: int|
                0 <= i < at && views.dom().contains(#[trigger] sources@[i] as u64)
                    ==> is_open_after(views, sources@[i], local)
                    && views[sources@[i] as u64][local] == epoch,
        decreases sources.len() - at,
    {
        if find_entry(exits, sources[at] as u64).is_some() {
            match find_epoch(exits, sources[at], local) {
                Some(other) => if other != epoch {
                    proof {
                        assert(is_open_after(views, sources@[first], local));
                        assert(views.dom().contains(sources@[at as int] as u64));
                    }
                    return true;
                },
                None => {
                    proof {
                        assert(is_open_after(views, sources@[first], local));
                        assert(views.dom().contains(sources@[at as int] as u64));
                    }
                    return true;
                },
            }
        }
        at += 1;
    }
    false
}

/// What the analysis of a function goes by.
struct Analysis<'a> {
    function: &'a Function,
    nodes: Vec<NodeId>,
    old: &'a FxHashMap<u64, u64>,
    flow: CaptureFlow,
}

impl<'a> Analysis<'a> {
    spec fn found(&self) -> Openings {
        Openings {
            cfg: self.function@,
            nodes: self.nodes@,
            old: self.old@,
            sites: self.flow.sites@,
            flow: self.flow.flow(Seq::empty()),
        }
    }

    spec fn is_valid(&self) -> bool {
        &&& self.function.well_formed()
        &&& self.flow.is_valid()
        &&& forall|i: int|
            0 <= i < self.nodes@.len() ==> self.function@.blocks.dom().contains(
                #[trigger] self.nodes@[i],
            ) && capture_flow::knows_captures(self.function@.blocks[self.nodes@[i]], self.old@)
    }

    /// Whether a local is open before a block by a group of captures that was
    /// closed on another way to it.
    fn has_fault(&self, node: NodeId, local: u64) -> (result: bool)
        requires
            self.is_valid(),
        ensures
            result == self.found().is_faulty(node, local),
    {
        let sources = self.function.predecessor_blocks(node);
        let ghost exits = capture_flow::state_views(self.flow.exits@);
        if !disagree(&sources, &self.flow.exits, local) {
            return false;
        }
        let mut at: usize = 0;
        while at < sources.len()
            invariant
                at <= sources@.len(),
                self.is_valid(),
                exits == capture_flow::state_views(self.flow.exits@),
                sources@ == EdgeView::sources(EdgeView::entering(self.function@.edges, node)),
                disagrees(sources@, exits, local),
                forall|i: int, j: int|
                    0 <= i < at && 0 <= j < sources@.len() && is_open_after(
                        exits,
                        #[trigger] sources@[i],
                        local,
                    ) && exits.dom().contains(#[trigger] sources@[j] as u64)
                        ==> !self.found().epoch_after(sources@[i], local).is_detached(
                        self.function@,
                        self.nodes@,
                        sources@[j],
                    ),
            decreases sources.len() - at,
        {
            if let Some(raw) = find_epoch(&self.flow.exits, sources[at], local) {
                proof {
                    assert(capture_flow::is_within(
                        exits[sources@[at as int] as u64],
                        self.flow.sites@.len(),
                    ));
                    assert(exits[sources@[at as int] as u64][local] < self.flow.sites@.len());
                }
                let followed = Followed {
                    local,
                    first: self.flow.firsts[raw],
                    flow: &self.flow,
                    old: self.old,
                };
                let ghost epoch = self.found().epoch_after(sources@[at as int], local);
                proof {
                    assert(epoch == followed.epoch());
                }
                let detached = followed.find_detached(self.function, &self.nodes);
                let mut other: usize = 0;
                while other < sources.len()
                    invariant
                        at < sources@.len(),
                        other <= sources@.len(),
                        exits == capture_flow::state_views(self.flow.exits@),
                        sources@ == EdgeView::sources(
                            EdgeView::entering(self.function@.edges, node),
                        ),
                        disagrees(sources@, exits, local),
                        is_open_after(exits, sources@[at as int], local),
                        epoch == self.found().epoch_after(sources@[at as int], local),
                        forall|node: u32|
                            detached@.contains(node as u64) <==> epoch.is_detached(
                                self.function@,
                                self.nodes@,
                                node,
                            ),
                        forall|j: int|
                            0 <= j < other && exits.dom().contains(#[trigger] sources@[j] as u64)
                                ==> !epoch.is_detached(self.function@, self.nodes@, sources@[j]),
                    decreases sources.len() - other,
                {
                    if find_entry(&self.flow.exits, sources[other] as u64).is_some()
                        && has_member(&detached, sources[other] as u64) {
                        proof {
                            assert(is_open_after(exits, sources@[at as int], local));
                            assert(exits.dom().contains(sources@[other as int] as u64));
                            assert(epoch.is_detached(
                                self.function@,
                                self.nodes@,
                                sources@[other as int],
                            ));
                        }
                        return true;
                    }
                    other += 1;
                }
            }
            at += 1;
        }
        false
    }

    fn find_fault(&self, local: u64) -> (fault: Option<NodeId>)
        requires
            self.is_valid(),
        ensures
            fault == self.found().fault_from(local, 0),
    {
        let ghost whole = self.found().fault_from(local, 0);
        let mut at: usize = 0;
        while at < self.nodes.len()
            invariant
                at <= self.nodes@.len(),
                self.is_valid(),
                whole == self.found().fault_from(local, 0),
                whole == self.found().fault_from(local, at as int),
            decreases self.nodes.len() - at,
        {
            if self.has_fault(self.nodes[at], local) {
                return Some(self.nodes[at]);
            }
            at += 1;
        }
        None
    }

    /// The first fault of a local that the blocks that lead to a block disagree
    /// on.
    fn find_first_fault(&self) -> (fault: Option<NodeId>)
        requires
            self.is_valid(),
        ensures
            fault == self.found().first_fault_from(0),
    {
        let ghost whole = self.found().first_fault_from(0);
        let mut at: usize = 0;
        while at < self.nodes.len()
            invariant
                at <= self.nodes@.len(),
                self.is_valid(),
                whole == self.found().first_fault_from(0),
                whole == self.found().first_fault_from(at as int),
            decreases self.nodes.len() - at,
        {
            let node = self.nodes[at];
            let sources = self.function.predecessor_blocks(node);
            let ghost goal = self.found().node_fault_from(node, 0);
            let mut k: usize = 0;
            while k < self.flow.sites.len()
                invariant
                    at < self.nodes@.len(),
                    node == self.nodes@[at as int],
                    sources@ == EdgeView::sources(EdgeView::entering(self.function@.edges, node)),
                    k <= self.flow.sites@.len(),
                    self.is_valid(),
                    whole == self.found().first_fault_from(0),
                    whole == self.found().first_fault_from(at as int),
                    goal == self.found().node_fault_from(node, 0),
                    goal == self.found().node_fault_from(node, k as int),
                decreases self.flow.sites.len() - k,
            {
                let local = self.flow.sites[k].0;
                if disagree(&sources, &self.flow.exits, local) {
                    let fault = self.find_fault(local);
                    if fault.is_some() {
                        return fault;
                    }
                }
                k += 1;
            }
            at += 1;
        }
        None
    }
}

/// A run of statements at which a local is open, and where it was captured.
#[derive(Debug, Clone, Copy)]
struct OpenRange {
    local: u64,
    start: usize,
    end: usize,
    site: OpenSite,
}

/// Where the locals that closures hold by reference are open.
#[derive(Debug)]
pub struct UpvaluesOpen {
    open: FxHashMap<u64, Vec<OpenRange>>,
}

/// Whether a run holds a statement, for a local.
spec fn is_in(range: OpenRange, local: u64, statement: int) -> bool {
    range.local == local && range.start <= statement <= range.end
}

/// Whether runs tell the capture that a local is open by at each of the first
/// `count` points of a block.
spec fn tells(
    ranges: Seq<OpenRange>,
    found: Openings,
    node: u32,
    local: u64,
    count: int,
) -> bool {
    &&& forall|i: int, statement: int|
        0 <= i < ranges.len() && #[trigger] is_in(ranges[i], local, statement) ==> statement < count
            && found.location(node, local, statement) == Some(ranges[i].site)
    &&& forall|statement: int|
        0 <= statement < count && (#[trigger] found.location(node, local, statement)) is Some
            ==> exists|i: int|
            0 <= i < ranges.len() && #[trigger] is_in(ranges[i], local, statement)
}

/// How many points of a block can be asked for.
spec fn points(length: nat) -> nat {
    if length == 0 {
        1
    } else {
        length
    }
}

impl<'a> Analysis<'a> {
    /// The capture that a local is open by at the start of a block.
    fn find_entry_epoch(&self, node: NodeId, local: u64) -> (epoch: Option<usize>)
        requires
            self.is_valid(),
        ensures
            epoch == self.found().open_by(node, local, 0),
            epoch is Some ==> epoch->0 < self.flow.sites@.len(),
    {
        let ghost entries = capture_flow::state_views(self.flow.entries@);
        match find_entry(&self.flow.entries, node as u64) {
            Some(state) => {
                proof {
                    assert(entries[node as u64] == state@);
                    assert(capture_flow::is_within(
                        entries[node as u64],
                        self.flow.sites@.len(),
                    ));
                }
                match find_entry(state, local) {
                    Some(epoch) => {
                        proof {
                            assert(entries[node as u64][local] < self.flow.sites@.len());
                        }
                        Some(*epoch)
                    },
                    None => None,
                }
            },
            None => None,
        }
    }

    /// Where the group of a capture opens.
    fn find_site(&self, epoch: usize) -> (site: OpenSite)
        requires
            self.is_valid(),
            epoch < self.flow.sites@.len(),
        ensures
            ({
                let first = self.flow.sites@[self.flow.firsts@[epoch as int] as int];
                site == (first.1, first.2)
            }),
    {
        let first = self.flow.firsts[epoch];
        proof {
            assert(self.flow.firsts@[epoch as int] < self.flow.firsts@.len());
        }
        let (_, node, statement) = self.flow.sites[first];
        (node, statement)
    }

    /// Lists the runs of a block at which a local is open.
    fn list_ranges(&self, node: NodeId, local: u64) -> (ranges: Vec<OpenRange>)
        requires
            self.is_valid(),
            self.nodes@.contains(node),
        ensures
            tells(
                ranges@,
                self.found(),
                node,
                local,
                points(self.function@.blocks[node].len()) as int,
            ),
            forall|i: int| 0 <= i < ranges@.len() ==> (#[trigger] ranges@[i]).local == local,
    {
        let ghost found = self.found();
        let ghost views = self.function@.blocks[node];
        proof {
            let i = choose|i: int| 0 <= i < self.nodes@.len() && self.nodes@[i] == node;
            assert(self.function@.blocks.dom().contains(self.nodes@[i]));
        }
        let mut ranges: Vec<OpenRange> = Vec::new();
        let mut epoch = self.find_entry_epoch(node, local);
        if let Some(block) = self.function.block(node) {
            if block.0.len() == 0 {
                if let Some(opened) = epoch {
                    let site = self.find_site(opened);
                    ranges.push(OpenRange { local, start: 0, end: 0, site });
                    proof {
                        assert(found.looks_after(node, 0) == Some(0int));
                        assert(found.location(node, local, 0) == Some(site));
                        assert forall|i: int, statement: int|
                            0 <= i < ranges@.len() && #[trigger] is_in(
                                ranges@[i],
                                local,
                                statement,
                            ) implies statement < 1 && found.location(node, local, statement)
                            == Some(ranges@[i].site) by {
                            assert(statement == 0);
                        }
                        assert(is_in(ranges@[0], local, 0));
                    }
                }
                return ranges;
            }
            let mut running = false;
            let mut t: usize = 0;
            while t < block.0.len()
                invariant
                    self.is_valid(),
                    self.nodes@.contains(node),
                    found == self.found(),
                    views == self.function@.blocks[node],
                    self.function@.blocks.dom().contains(node),
                    capture_flow::knows_captures(views, self.old@),
                    views == Statement::views(block.0@),
                    t <= block.0@.len() == views.len(),
                    epoch == found.open_by(node, local, t as int),
                    epoch is Some ==> epoch->0 < self.flow.sites@.len(),
                    running ==> t > 0 && epoch is Some && ranges@.len() > 0 && ranges@.last().end
                        == t - 1 && ranges@.last().start <= t - 1 && ranges@.last().local == local && ({
                        let first = self.flow.sites@[self.flow.firsts@[epoch->0 as int] as int];
                        ranges@.last().site == (first.1, first.2)
                    }),
                    !running && t > 0 ==> epoch is None,
                    forall|i: int| 0 <= i < ranges@.len() ==> (#[trigger] ranges@[i]).local == local,
                    tells(ranges@, found, node, local, t as int),
                decreases block.0.len() - t,
            {
                let ghost held = ranges@;
                let ghost before = epoch;
                proof {
                    assert(views[t as int] == block.0@[t as int]@);
                }
                let locals = find_captures(&block.0[t]);
                proof {
                    assert forall|k: int| 0 <= k < locals@.len() implies self.old@.dom().contains(
                        (#[trigger] locals@[k]).id,
                    ) by {
                        assert(self.old@.dom().contains(
                            capture_flow::captures(views[t as int])[k].id,
                        ));
                    }
                }
                if epoch.is_none() && has_captured(&locals, self.old, local) {
                    let place = find_place(&self.flow.sites, (local, node, t));
                    if place < self.flow.sites.len() {
                        epoch = Some(place);
                    }
                }
                if ends_captures(&block.0[t], local) {
                    epoch = None;
                }
                proof {
                    assert(epoch == found.open_by(node, local, t + 1));
                    assert(found.looks_after(node, t as int) == Some(t + 1));
                }
                match epoch {
                    Some(opened) => {
                        let site = self.find_site(opened);
                        proof {
                            assert(found.location(node, local, t as int) == Some(site));
                        }
                        if running {
                            let last: usize = ranges.len() - 1;
                            let range = ranges[last];
                            ranges.set(
                                last,
                                OpenRange { local, start: range.start, end: t, site: range.site },
                            );
                            proof {
                                assert forall|i: int, statement: int|
                                    0 <= i < ranges@.len() && #[trigger] is_in(
                                        ranges@[i],
                                        local,
                                        statement,
                                    ) implies statement < t + 1 && found.location(
                                    node,
                                    local,
                                    statement,
                                ) == Some(ranges@[i].site) by {
                                    if statement < t || i < last {
                                        assert(is_in(held[i], local, statement));
                                    }
                                }
                                assert forall|statement: int|
                                    0 <= statement < t + 1 && (#[trigger] found.location(
                                        node,
                                        local,
                                        statement,
                                    )) is Some implies exists|i: int|
                                    0 <= i < ranges@.len() && #[trigger] is_in(
                                        ranges@[i],
                                        local,
                                        statement,
                                    ) by {
                                    if statement < t {
                                        let i = choose|i: int|
                                            0 <= i < held.len() && #[trigger] is_in(
                                                held[i],
                                                local,
                                                statement,
                                            );
                                        assert(is_in(ranges@[i], local, statement));
                                    } else {
                                        assert(is_in(held[last as int], local, t - 1));
                                        assert(is_in(ranges@[last as int], local, statement));
                                    }
                                }
                            }
                        } else {
                            ranges.push(OpenRange { local, start: t, end: t, site });
                            proof {
                                let last = held.len() as int;
                                assert forall|i: int, statement: int|
                                    0 <= i < ranges@.len() && #[trigger] is_in(
                                        ranges@[i],
                                        local,
                                        statement,
                                    ) implies statement < t + 1 && found.location(
                                    node,
                                    local,
                                    statement,
                                ) == Some(ranges@[i].site) by {
                                    if i < last {
                                        assert(is_in(held[i], local, statement));
                                    }
                                }
                                assert forall|statement: int|
                                    0 <= statement < t + 1 && (#[trigger] found.location(
                                        node,
                                        local,
                                        statement,
                                    )) is Some implies exists|i: int|
                                    0 <= i < ranges@.len() && #[trigger] is_in(
                                        ranges@[i],
                                        local,
                                        statement,
                                    ) by {
                                    if statement < t {
                                        let i = choose|i: int|
                                            0 <= i < held.len() && #[trigger] is_in(
                                                held[i],
                                                local,
                                                statement,
                                            );
                                        assert(is_in(ranges@[i], local, statement));
                                    } else {
                                        assert(is_in(ranges@[last], local, statement));
                                    }
                                }
                            }
                        }
                        running = true;
                    },
                    None => {
                        running = false;
                        proof {
                            assert(found.location(node, local, t as int) is None);
                        }
                    },
                }
                t += 1;
            }
        }
        ranges
    }

    /// Lists the runs of a block at which locals are open.
    fn list_block(&self, node: NodeId) -> (ranges: Vec<OpenRange>)
        requires
            self.is_valid(),
            self.nodes@.contains(node),
        ensures
            forall|local: u64|
                is_site_local(self.flow.sites@, self.flow.sites@.len() as int, local) ==> tells(
                    ranges@,
                    self.found(),
                    node,
                    local,
                    points(self.function@.blocks[node].len()) as int,
                ),
            forall|i: int|
                0 <= i < ranges@.len() ==> is_site_local(
                    self.flow.sites@,
                    self.flow.sites@.len() as int,
                    (#[trigger] ranges@[i]).local,
                ),
    {
        let ghost found = self.found();
        let ghost count = points(self.function@.blocks[node].len()) as int;
        let mut ranges: Vec<OpenRange> = Vec::new();
        let mut at: usize = 0;
        while at < self.flow.sites.len()
            invariant
                at <= self.flow.sites@.len(),
                self.is_valid(),
                self.nodes@.contains(node),
                found == self.found(),
                count == points(self.function@.blocks[node].len()),
                forall|local: u64|
                    is_site_local(self.flow.sites@, at as int, local) ==> tells(
                        ranges@,
                        found,
                        node,
                        local,
                        count,
                    ),
                forall|i: int|
                    0 <= i < ranges@.len() ==> is_site_local(
                        self.flow.sites@,
                        at as int,
                        (#[trigger] ranges@[i]).local,
                    ),
            decreases self.flow.sites.len() - at,
        {
            let local = self.flow.sites[at].0;
            let ghost held = ranges@;
            let mut more = self.list_ranges(node, local);
            let ghost added = more@;
            ranges.append(&mut more);
            proof {
                assert(ranges@ =~= held + added);
                assert forall|other: u64|
                    is_site_local(self.flow.sites@, at + 1, other) implies tells(
                    ranges@,
                    found,
                    node,
                    other,
                    count,
                ) by {
                    lemma_tells(held, added, found, node, other, local, count);
                    if other != local {
                        let i = choose|i: int|
                            0 <= i < at + 1 && (#[trigger] self.flow.sites@[i]).0 == other;
                        assert(is_site_local(self.flow.sites@, at as int, other));
                    } else if !is_site_local(self.flow.sites@, at as int, local) {
                        assert forall|i: int| 0 <= i < held.len() implies (
                        #[trigger] held[i]).local != local by {
                            assert(is_site_local(self.flow.sites@, at as int, held[i].local));
                        }
                        lemma_tells_alone(held, added, found, node, local, count);
                    }
                }
                assert forall|i: int| 0 <= i < ranges@.len() implies is_site_local(
                    self.flow.sites@,
                    at + 1,
                    (#[trigger] ranges@[i]).local,
                ) by {
                    if i < held.len() {
                        assert(is_site_local(self.flow.sites@, at as int, held[i].local));
                        let k = choose|k: int|
                            0 <= k < at && (#[trigger] self.flow.sites@[k]).0 == held[i].local;
                        assert(self.flow.sites@[k].0 == ranges@[i].local);
                    } else {
                        assert(added[i - held.len()].local == local);
                        assert(self.flow.sites@[at as int].0 == local);
                    }
                }
            }
            at += 1;
        }
        ranges
    }
}

/// Whether one of the first `count` captures is of a local.
spec fn is_site_local(sites: Seq<Site>, count: int, local: u64) -> bool {
    exists|i: int| 0 <= i < count && (#[trigger] sites[i]).0 == local
}

proof fn lemma_tells(
    held: Seq<OpenRange>,
    added: Seq<OpenRange>,
    found: Openings,
    node: u32,
    other: u64,
    local: u64,
    count: int,
)
    requires
        tells(added, found, node, local, count),
        forall|i: int| 0 <= i < added.len() ==> (#[trigger] added[i]).local == local,
    ensures
        tells(held, found, node, other, count) ==> tells(
            held + added,
            found,
            node,
            other,
            count,
        ),
{
    if tells(held, found, node, other, count) {
        let all = held + added;
        assert forall|i: int, statement: int|
            0 <= i < all.len() && #[trigger] is_in(all[i], other, statement) implies statement
            < count && found.location(node, other, statement) == Some(all[i].site) by {
            if i < held.len() {
                assert(is_in(held[i], other, statement));
            } else {
                assert(added[i - held.len()].local == local);
                assert(is_in(added[i - held.len()], local, statement));
            }
        }
        assert forall|statement: int|
            0 <= statement < count && (#[trigger] found.location(node, other, statement))
                is Some implies exists|i: int|
            0 <= i < all.len() && #[trigger] is_in(all[i], other, statement) by {
            let i = choose|i: int|
                0 <= i < held.len() && #[trigger] is_in(held[i], other, statement);
            assert(is_in(all[i], other, statement));
        }
    }
}

proof fn lemma_tells_alone(
    held: Seq<OpenRange>,
    added: Seq<OpenRange>,
    found: Openings,
    node: u32,
    local: u64,
    count: int,
)
    requires
        tells(added, found, node, local, count),
        forall|i: int| 0 <= i < held.len() ==> (#[trigger] held[i]).local != local,
    ensures
        tells(held + added, found, node, local, count),
{
    let all = held + added;
    assert forall|i: int, statement: int|
        0 <= i < all.len() && #[trigger] is_in(all[i], local, statement) implies statement < count
        && found.location(node, local, statement) == Some(all[i].site) by {
        if i < held.len() {
            assert(held[i].local != local);
        } else {
            assert(is_in(added[i - held.len()], local, statement));
        }
    }
    assert forall|statement: int|
        0 <= statement < count && (#[trigger] found.location(node, local, statement))
            is Some implies exists|i: int|
        0 <= i < all.len() && #[trigger] is_in(all[i], local, statement) by {
        let i = choose|i: int| 0 <= i < added.len() && #[trigger] is_in(added[i], local, statement);
        assert(is_in(all[i + held.len()], local, statement));
    }
}

impl UpvaluesOpen {
    /// The first capture that a local is open by at a statement.
    pub closed spec fn location(&self, node: u32, local: u64, statement: int) -> Option<OpenSite> {
        if self.open@.dom().contains(node as u64) {
            first_in(self.open@[node as u64]@, local, statement, 0)
        } else {
            None
        }
    }

    /// Finds where the locals that a function's closures hold by reference are
    /// open.
    pub fn try_new(function: &Function, old_locals: &FxHashMap<u64, u64>) -> (result: Result<
        Self,
        UpvalueAnalysisError,
    >)
        requires
            function.well_formed(),
            function@.entry is Some ==> function@.blocks.dom().contains(function@.entry->0),
            has_older(function@, old_locals@),
        ensures
            match result {
                Ok(open) => {
                    let found = openings(function@, old_locals@);
                    &&& function@.entry is Some
                    &&& found.first_fault_from(0) is None
                    &&& forall|node: u32, local: u64, statement: int|
                        0 <= statement ==> #[trigger] open.location(node, local, statement)
                            == found.location(node, local, statement)
                },
                Err(UpvalueAnalysisError::PathDependentMerge { block }) => {
                    let found = openings(function@, old_locals@);
                    &&& function@.entry is Some
                    &&& found.first_fault_from(0) is Some
                    &&& found.first_fault_from(0)->0 == block
                },
                Err(UpvalueAnalysisError::Resource(_)) => function@.entry is None,
            },
    {
        let entry = match function.entry() {
            Some(entry) => entry,
            None => {
                return Err(
                    UpvalueAnalysisError::Resource(
                        String::from_str("function has no control-flow entry"),
                    ),
                );
            },
        };
        let nodes = list_reached(function, entry);
        let flow = CaptureFlow::settle(function, &nodes, old_locals);
        let analysis = Analysis { function, nodes, old: old_locals, flow };
        let ghost found = openings(function@, old_locals@);
        proof {
            assert(analysis.found() == found);
        }
        if let Some(node) = analysis.find_first_fault() {
            return Err(UpvalueAnalysisError::PathDependentMerge { block: node as usize });
        }
        let mut open: FxHashMap<u64, Vec<OpenRange>> = empty_map();
        let mut at: usize = 0;
        while at < analysis.nodes.len()
            invariant
                at <= analysis.nodes@.len(),
                analysis.is_valid(),
                analysis.found() == found,
                forall|node: u64|
                    open@.dom().contains(node) ==> exists|i: int|
                        0 <= i < at && #[trigger] analysis.nodes@[i] == node,
                forall|i: int|
                    0 <= i < at ==> open@.dom().contains(#[trigger] analysis.nodes@[i] as u64)
                        && tells_block(
                        open@[analysis.nodes@[i] as u64]@,
                        found,
                        analysis.nodes@[i],
                    ),
            decreases analysis.nodes.len() - at,
        {
            let node = analysis.nodes[at];
            let ghost held = open@;
            proof {
                assert(analysis.nodes@[at as int] == node);
            }
            let ranges = analysis.list_block(node);
            let ghost list = ranges@;
            insert_entry(&mut open, node as u64, ranges);
            proof {
                assert(tells_block(list, found, node));
                assert forall|i: int| 0 <= i < at + 1 implies open@.dom().contains(
                    #[trigger] analysis.nodes@[i] as u64,
                ) && tells_block(
                    open@[analysis.nodes@[i] as u64]@,
                    found,
                    analysis.nodes@[i],
                ) by {
                    if analysis.nodes@[i] != node {
                        assert(i < at);
                    }
                }
                assert forall|other: u64| open@.dom().contains(other) implies exists|i: int|
                    0 <= i < at + 1 && #[trigger] analysis.nodes@[i] == other by {
                    if other == node {
                        assert(analysis.nodes@[at as int] == other);
                    } else {
                        assert(held.dom().contains(other));
                        let i = choose|i: int|
                            0 <= i < at && #[trigger] analysis.nodes@[i] == other;
                        assert(0 <= i < at + 1 && analysis.nodes@[i] == other);
                    }
                }
            }
            at += 1;
        }
        let result = UpvaluesOpen { open };
        proof {
            assert(analysis.flow.sites.len() == analysis.flow.sites@.len());
            assert forall|node: u32, local: u64, statement: int| 0 <= statement implies
                #[trigger] result.location(node, local, statement) == found.location(
                node,
                local,
                statement,
            ) by {
                if found.nodes.contains(node) {
                    let i = choose|i: int| 0 <= i < found.nodes.len() && found.nodes[i] == node;
                    assert(analysis.nodes@[i] == node);
                    let ranges = open@[node as u64]@;
                    assert(tells_block(ranges, found, node));
                    lemma_first_in(ranges, found, node, local, statement);
                } else if open@.dom().contains(node as u64) {
                    let i = choose|i: int|
                        0 <= i < analysis.nodes@.len() && #[trigger] analysis.nodes@[i]
                            == node as u64;
                    assert(found.nodes[i] == node);
                }
            }
        }
        Ok(result)
    }

    /// The first capture that a local is open by at a statement.
    pub fn opening_location(&self, node: NodeId, local: RcLocal, statement: usize) -> (location:
        Option<OpenSite>)
        ensures
            location == self.location(node, local.id, statement as int),
    {
        let ranges = match find_entry(&self.open, node as u64) {
            Some(ranges) => ranges,
            None => {
                return None;
            },
        };
        let ghost whole = first_in(ranges@, local.id, statement as int, 0);
        let mut at: usize = 0;
        while at < ranges.len()
            invariant
                at <= ranges@.len(),
                self.open@.dom().contains(node as u64),
                ranges@ == self.open@[node as u64]@,
                whole == first_in(ranges@, local.id, statement as int, 0),
                whole == first_in(ranges@, local.id, statement as int, at as int),
            decreases ranges.len() - at,
        {
            let range = ranges[at];
            if range.local == local.id && range.start <= statement && statement <= range.end {
                return Some(range.site);
            }
            at += 1;
        }
        None
    }
}

/// The capture of the first of the runs from position `from` on that holds a
/// statement.
spec fn first_in(
    ranges: Seq<OpenRange>,
    local: u64,
    statement: int,
    from: int,
) -> Option<OpenSite>
    decreases ranges.len() - from,
{
    if 0 <= from < ranges.len() {
        if is_in(ranges[from], local, statement) {
            Some(ranges[from].site)
        } else {
            first_in(ranges, local, statement, from + 1)
        }
    } else {
        None
    }
}

/// Whether runs tell the captures that locals are open by in a block.
spec fn tells_block(ranges: Seq<OpenRange>, found: Openings, node: u32) -> bool {
    &&& forall|local: u64|
        is_site_local(found.sites, found.sites.len() as int, local) ==> tells(
            ranges,
            found,
            node,
            local,
            points(found.cfg.blocks[node].len()) as int,
        )
    &&& forall|i: int|
        0 <= i < ranges.len() ==> is_site_local(
            found.sites,
            found.sites.len() as int,
            (#[trigger] ranges[i]).local,
        )
}

proof fn lemma_first_in_from(
    ranges: Seq<OpenRange>,
    local: u64,
    statement: int,
    from: int,
) -> (place: int)
    requires
        0 <= from,
    ensures
        match first_in(ranges, local, statement, from) {
            Some(site) => 0 <= place < ranges.len() && is_in(ranges[place], local, statement)
                && ranges[place].site == site,
            None => forall|i: int|
                from <= i < ranges.len() ==> !is_in(#[trigger] ranges[i], local, statement),
        },
    decreases ranges.len() - from,
{
    if from < ranges.len() {
        if is_in(ranges[from], local, statement) {
            from
        } else {
            lemma_first_in_from(ranges, local, statement, from + 1)
        }
    } else {
        0
    }
}

proof fn lemma_first_in(
    ranges: Seq<OpenRange>,
    found: Openings,
    node: u32,
    local: u64,
    statement: int,
)
    requires
        tells_block(ranges, found, node),
        0 <= statement,
        found.sites.len() <= usize::MAX,
        found.sites == capture_flow::all_sites(found.cfg, found.nodes, found.old),
        found.flow == capture_flow::capture_flow(found.cfg, found.nodes, found.old),
    ensures
        first_in(ranges, local, statement, 0) == found.location(node, local, statement),
{
    let place = lemma_first_in_from(ranges, local, statement, 0);
    let count = points(found.cfg.blocks[node].len()) as int;
    if is_site_local(found.sites, found.sites.len() as int, local) {
        assert(tells(ranges, found, node, local, count));
        if first_in(ranges, local, statement, 0) is Some {
            assert(is_in(ranges[place], local, statement));
        } else if found.location(node, local, statement) is Some {
            assert(statement < count);
        }
    } else {
        if first_in(ranges, local, statement, 0) is Some {
            assert(is_site_local(found.sites, found.sites.len() as int, ranges[place].local));
        }
        lemma_never_open(found, node, local, statement);
    }
}

/// Lists the blocks that the entry reaches, the lowest first.
fn list_reached(function: &Function, entry: NodeId) -> (nodes: Vec<NodeId>)
    requires
        function.well_formed(),
        function@.entry == Some(entry),
        function@.blocks.dom().contains(entry),
    ensures
        nodes@ == listing::listing(reached_blocks(function@)),
        forall|i: int| 0 <= i < nodes@.len() ==> function@.blocks.dom().contains(#[trigger] nodes@[i]),
{
    let walk = depth_first(function.graph(), entry);
    let all = function.nodes();
    let mut nodes: Vec<NodeId> = Vec::new();
    let ghost reached = reached_blocks(function@);
    let mut at: usize = 0;
    while at < all.len()
        invariant
            at <= all@.len(),
            all@.to_set() == function@.blocks.dom(),
            forall|i: int, j: int| 0 <= i < j < all@.len() ==> all@[i] < all@[j],
            reached == reached_blocks(function@),
            forall|node: u32| #[trigger]
                walk@.contains(node) <==> graph::reaches(
                    EdgeView::arcs(function@.edges),
                    function@.entry->0,
                    node,
                ),
            forall|i: int, j: int| 0 <= i < j < nodes@.len() ==> nodes@[i] < nodes@[j],
            forall|i: int|
                0 <= i < nodes@.len() ==> reached.contains(#[trigger] nodes@[i]) && exists|k: int|
                    0 <= k < at && all@[k] == nodes@[i],
            forall|k: int|
                0 <= k < at && reached.contains(#[trigger] all@[k]) ==> nodes@.contains(all@[k]),
        decreases all.len() - at,
    {
        let ghost held = nodes@;
        proof {
            assert(all@.to_set().contains(all@[at as int]));
        }
        if has_node(&walk, all[at]) {
            nodes.push(all[at]);
            proof {
                assert(nodes@[held.len() as int] == all@[at as int]);
                assert forall|i: int, j: int| 0 <= i < j < nodes@.len() implies nodes@[i]
                    < nodes@[j] by {
                    if j == held.len() {
                        let k = choose|k: int| 0 <= k < at && all@[k] == held[i];
                        assert(all@[k] < all@[at as int]);
                    }
                }
            }
        }
        proof {
            assert forall|k: int| 0 <= k < at + 1 && reached.contains(#[trigger] all@[k]) implies
                nodes@.contains(all@[k]) by {
                if k < at {
                    let i = choose|i: int| 0 <= i < held.len() && held[i] == all@[k];
                    assert(nodes@[i] == all@[k]);
                } else {
                    assert(nodes@[held.len() as int] == all@[k]);
                }
            }
            assert forall|i: int| 0 <= i < nodes@.len() implies reached.contains(
                #[trigger] nodes@[i],
            ) && exists|k: int| 0 <= k < at + 1 && all@[k] == nodes@[i] by {
                if i < held.len() {
                    let k = choose|k: int| 0 <= k < at && all@[k] == held[i];
                    assert(0 <= k < at + 1 && all@[k] == nodes@[i]);
                } else {
                    assert(all@[at as int] == nodes@[i]);
                }
            }
        }
        at += 1;
    }
    proof {
        assert forall|node: u32| nodes@.to_set().contains(node) == reached.contains(node) by {
            if nodes@.contains(node) {
                let i = choose|i: int| 0 <= i < nodes@.len() && nodes@[i] == node;
                assert(reached.contains(nodes@[i]));
            }
            if reached.contains(node) {
                assert(all@.to_set().contains(node));
                let k = choose|k: int| 0 <= k < all@.len() && all@[k] == node;
                assert(nodes@.contains(all@[k]));
            }
        }
        assert(nodes@.to_set() =~= reached);
        assert(listing::is_listing(nodes@, reached));
        listing::lemma_one_listing(nodes@, listing::listing(reached), reached);
    }
    nodes
}

} // verus!
