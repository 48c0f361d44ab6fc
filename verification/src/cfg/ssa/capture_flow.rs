//! Which captures of a local by reference are still open at the ends of blocks.

use vstd::prelude::*;

use rustc_hash::FxHashMap;

use crate::ast::local::RcLocal;
use crate::ast::nodes;
use crate::ast::nodes::{RValue, RValueView, Statement, StatementView, Upvalue};
use crate::cfg::block::EdgeView;
use crate::cfg::function::{CfgView, Function};
use crate::cfg::graph::NodeId;
use crate::collections::{copy_map, empty_map, find_entry, insert_entry, remove_entry};

verus! {

broadcast use nodes::group_views;

/// The locals that the upvalues from position `from` on hold by reference.
pub open spec fn held_from(upvalues: Seq<Upvalue>, from: int) -> Seq<RcLocal>
    decreases upvalues.len() - from,
{
    if 0 <= from < upvalues.len() {
        let rest = held_from(upvalues, from + 1);
        match upvalues[from] {
            Upvalue::Ref(local) => seq![local] + rest,
            Upvalue::Copy(_) => rest,
        }
    } else {
        Seq::empty()
    }
}

/// The locals that the closures among the values from position `from` on hold
/// by reference.
pub open spec fn held_by_from(values: Seq<RValueView>, from: int) -> Seq<RcLocal>
    decreases values.len() - from,
{
    if 0 <= from < values.len() {
        let rest = held_by_from(values, from + 1);
        match values[from] {
            RValueView::Closure(closure) => held_from(closure.upvalues, 0) + rest,
            _ => rest,
        }
    } else {
        Seq::empty()
    }
}

/// The locals that a statement captures by reference.
pub open spec fn captures(statement: StatementView) -> Seq<RcLocal> {
    match statement {
        StatementView::Assign(assign) => held_by_from(assign.right, 0),
        _ => Seq::empty(),
    }
}

/// The locals whose captures a statement ends.
pub open spec fn closes(statement: StatementView) -> Seq<RcLocal> {
    match statement {
        StatementView::Close(locals) => locals,
        _ => Seq::empty(),
    }
}

/// Whether every local that a block captures has an older one.
pub open spec fn knows_captures(block: Seq<StatementView>, old: Map<u64, u64>) -> bool {
    forall|t: int, k: int|
        0 <= t < block.len() && 0 <= k < captures(block[t]).len() ==> old.dom().contains(
            (#[trigger] captures(block[t])[k]).id,
        )
}

/// Whether one of some locals has the older local `local`.
pub open spec fn is_captured(locals: Seq<RcLocal>, old: Map<u64, u64>, local: u64) -> bool {
    exists|k: int| 0 <= k < locals.len() && old[(#[trigger] locals[k]).id] == local
}

/// Whether a local is one of some.
pub open spec fn is_among(locals: Seq<RcLocal>, local: u64) -> bool {
    exists|k: int| 0 <= k < locals.len() && (#[trigger] locals[k]).id == local
}

/// A capture: the local, the block and the statement.
pub type Site = (u64, u32, usize);

/// Where a capture stands in a list of captures, from position `from` on; the
/// length of the list where it does not.
pub open spec fn place_from(sites: Seq<Site>, site: Site, from: int) -> int
    decreases sites.len() - from,
{
    if 0 <= from < sites.len() {
        if sites[from] == site {
            from
        } else {
            place_from(sites, site, from + 1)
        }
    } else {
        sites.len() as int
    }
}

/// A list of captures with those of a statement from position `k` on.
pub open spec fn statement_sites(
    sites: Seq<Site>,
    locals: Seq<RcLocal>,
    k: int,
    node: u32,
    t: int,
    old: Map<u64, u64>,
) -> Seq<Site>
    decreases locals.len() - k,
{
    if 0 <= k < locals.len() {
        let site = (old[locals[k].id], node, t as usize);
        let next = if place_from(sites, site, 0) < sites.len() {
            sites
        } else {
            sites.push(site)
        };
        statement_sites(next, locals, k + 1, node, t, old)
    } else {
        sites
    }
}

/// A list of captures with those of the statements of a block from position `t`
/// on.
pub open spec fn block_sites(
    sites: Seq<Site>,
    block: Seq<StatementView>,
    t: int,
    node: u32,
    old: Map<u64, u64>,
) -> Seq<Site>
    decreases block.len() - t,
{
    if 0 <= t < block.len() {
        block_sites(
            statement_sites(sites, captures(block[t]), 0, node, t, old),
            block,
            t + 1,
            node,
            old,
        )
    } else {
        sites
    }
}

/// A list of captures with those of the blocks from position `from` on.
pub open spec fn sites_from(
    sites: Seq<Site>,
    cfg: CfgView,
    nodes: Seq<u32>,
    from: int,
    old: Map<u64, u64>,
) -> Seq<Site>
    decreases nodes.len() - from,
{
    if 0 <= from < nodes.len() {
        sites_from(
            block_sites(sites, cfg.blocks[nodes[from]], 0, nodes[from], old),
            cfg,
            nodes,
            from + 1,
            old,
        )
    } else {
        sites
    }
}

/// The groups of captures, with those of two captures made one. Each capture
/// has the first of its group.
pub open spec fn joined(firsts: Seq<usize>, a: usize, b: usize) -> Seq<usize> {
    let x = firsts[a as int];
    let y = firsts[b as int];
    let first = if x <= y {
        x
    } else {
        y
    };
    firsts.map_values(
        |other: usize|
            if other == x || other == y {
                first
            } else {
                other
            },
    )
}

/// The open captures by their local, with one more that reaches the same point.
pub open spec fn with_open(
    firsts: Seq<usize>,
    open: Map<u64, usize>,
    local: u64,
    epoch: usize,
) -> (Seq<usize>, Map<u64, usize>) {
    let first = firsts[epoch as int];
    if open.dom().contains(local) {
        let next = joined(firsts, open[local], first);
        (next, open.insert(local, next[first as int]))
    } else {
        (firsts, open.insert(local, first))
    }
}

/// The open captures with those of a state, for the locals of the captures from
/// position `from` on.
pub open spec fn with_state(
    firsts: Seq<usize>,
    open: Map<u64, usize>,
    state: Map<u64, usize>,
    sites: Seq<Site>,
    from: int,
) -> (Seq<usize>, Map<u64, usize>)
    decreases sites.len() - from,
{
    if 0 <= from < sites.len() {
        let local = sites[from].0;
        let (next, more) = if state.dom().contains(local) {
            with_open(firsts, open, local, state[local])
        } else {
            (firsts, open)
        };
        with_state(next, more, state, sites, from + 1)
    } else {
        (firsts, open)
    }
}

/// The open captures with those at the ends of the blocks from position `from`
/// on.
pub open spec fn with_states(
    firsts: Seq<usize>,
    open: Map<u64, usize>,
    sources: Seq<u32>,
    from: int,
    exits: Map<u64, Map<u64, usize>>,
    sites: Seq<Site>,
) -> (Seq<usize>, Map<u64, usize>)
    decreases sources.len() - from,
{
    if 0 <= from < sources.len() {
        let (next, more) = if exits.dom().contains(sources[from] as u64) {
            with_state(firsts, open, exits[sources[from] as u64], sites, 0)
        } else {
            (firsts, open)
        };
        with_states(next, more, sources, from + 1, exits, sites)
    } else {
        (firsts, open)
    }
}

/// The open captures after a capture of a local.
pub open spec fn with_capture(
    firsts: Seq<usize>,
    open: Map<u64, usize>,
    sites: Seq<Site>,
    site: Site,
) -> (Seq<usize>, Map<u64, usize>) {
    let place = place_from(sites, site, 0);
    if place >= sites.len() {
        (firsts, open)
    } else if open.dom().contains(site.0) {
        let next = joined(firsts, open[site.0], place as usize);
        (next, open.insert(site.0, next[place]))
    } else {
        (firsts, open.insert(site.0, place as usize))
    }
}

/// The open captures after the captures of a statement from position `k` on.
pub open spec fn with_captures(
    firsts: Seq<usize>,
    open: Map<u64, usize>,
    locals: Seq<RcLocal>,
    k: int,
    node: u32,
    t: int,
    sites: Seq<Site>,
    old: Map<u64, u64>,
) -> (Seq<usize>, Map<u64, usize>)
    decreases locals.len() - k,
{
    if 0 <= k < locals.len() {
        let (next, more) = with_capture(
            firsts,
            open,
            sites,
            (old[locals[k].id], node, t as usize),
        );
        with_captures(next, more, locals, k + 1, node, t, sites, old)
    } else {
        (firsts, open)
    }
}

/// The open captures without those of the locals from position `k` on.
pub open spec fn without(open: Map<u64, usize>, locals: Seq<RcLocal>, k: int) -> Map<u64, usize>
    decreases locals.len() - k,
{
    if 0 <= k < locals.len() {
        without(open.remove(locals[k].id), locals, k + 1)
    } else {
        open
    }
}

/// The open captures after the statements of a block from position `t` on.
pub open spec fn after_from(
    firsts: Seq<usize>,
    open: Map<u64, usize>,
    block: Seq<StatementView>,
    t: int,
    node: u32,
    sites: Seq<Site>,
    old: Map<u64, u64>,
) -> (Seq<usize>, Map<u64, usize>)
    decreases block.len() - t,
{
    if 0 <= t < block.len() {
        let (next, more) = with_captures(
            firsts,
            open,
            captures(block[t]),
            0,
            node,
            t,
            sites,
            old,
        );
        after_from(next, without(more, closes(block[t]), 0), block, t + 1, node, sites, old)
    } else {
        (firsts, open)
    }
}

/// How far the analysis is: the groups of captures, the open captures at the
/// starts and the ends of blocks, and the blocks that are to be looked at.
#[verifier::ext_equal]
pub struct Flow {
    pub firsts: Seq<usize>,
    pub entries: Map<u64, Map<u64, usize>>,
    pub exits: Map<u64, Map<u64, usize>>,
    pub work: Seq<u32>,
}

/// Whether a state has an open capture that another lacks, and all that it has.
pub open spec fn has_grown(
    state: Map<u64, usize>,
    known: Map<u64, usize>,
    sites: Seq<Site>,
) -> bool {
    &&& forall|i: int|
        0 <= i < sites.len() && known.dom().contains((#[trigger] sites[i]).0)
            ==> state.dom().contains(sites[i].0)
    &&& exists|i: int|
        0 <= i < sites.len() && state.dom().contains((#[trigger] sites[i]).0)
            && !known.dom().contains(sites[i].0)
}

/// The blocks to be looked at, with those among the nodes from position `from`
/// on that a block leads to.
pub open spec fn queued_from(
    work: Seq<u32>,
    nodes: Seq<u32>,
    from: int,
    targets: Seq<u32>,
) -> Seq<u32>
    decreases nodes.len() - from,
{
    if 0 <= from < nodes.len() {
        let next = if targets.contains(nodes[from]) && !work.contains(nodes[from]) {
            work.push(nodes[from])
        } else {
            work
        };
        queued_from(next, nodes, from + 1, targets)
    } else {
        work
    }
}

/// What is known after another look at the first block in line.
pub open spec fn stepped(
    flow: Flow,
    cfg: CfgView,
    nodes: Seq<u32>,
    sites: Seq<Site>,
    old: Map<u64, u64>,
) -> Flow {
    let node = flow.work[0];
    let rest = flow.work.skip(1);
    if !nodes.contains(node) {
        Flow { work: rest, ..flow }
    } else {
        let sources = EdgeView::sources(EdgeView::entering(cfg.edges, node));
        let (merged, incoming) = with_states(
            flow.firsts,
            Map::empty(),
            sources,
            0,
            flow.exits,
            sites,
        );
        let (firsts, outgoing) = after_from(
            merged,
            incoming,
            cfg.blocks[node],
            0,
            node,
            sites,
            old,
        );
        let entries = flow.entries.insert(node as u64, incoming);
        if !flow.exits.dom().contains(node as u64) || has_grown(
            outgoing,
            flow.exits[node as u64],
            sites,
        ) {
            Flow {
                firsts,
                entries,
                exits: flow.exits.insert(node as u64, outgoing),
                work: queued_from(
                    rest,
                    nodes,
                    0,
                    EdgeView::targets(EdgeView::leaving(cfg.edges, node)),
                ),
            }
        } else {
            Flow { firsts, entries, work: rest, ..flow }
        }
    }
}

/// How many of the captures from position `from` on have a local that a state
/// lacks.
pub open spec fn lacking_from(state: Map<u64, usize>, sites: Seq<Site>, from: int) -> nat
    decreases sites.len() - from,
{
    if 0 <= from < sites.len() {
        lacking_from(state, sites, from + 1) + (if state.dom().contains(sites[from].0) {
            0nat
        } else {
            1nat
        })
    } else {
        0
    }
}

/// How much can still come to the end of a block.
pub open spec fn lacking_at(
    exits: Map<u64, Map<u64, usize>>,
    node: u32,
    sites: Seq<Site>,
) -> nat {
    if exits.dom().contains(node as u64) {
        lacking_from(exits[node as u64], sites, 0)
    } else {
        (sites.len() + 1) as nat
    }
}

/// How much can still come to the ends of the blocks from position `from` on.
pub open spec fn missing_from(
    exits: Map<u64, Map<u64, usize>>,
    nodes: Seq<u32>,
    sites: Seq<Site>,
    from: int,
) -> nat
    decreases nodes.len() - from,
{
    if 0 <= from < nodes.len() {
        lacking_at(exits, nodes[from], sites) + missing_from(exits, nodes, sites, from + 1)
    } else {
        0
    }
}

proof fn lemma_lacking_bound(state: Map<u64, usize>, sites: Seq<Site>, from: int)
    requires
        0 <= from <= sites.len(),
    ensures
        lacking_from(state, sites, from) <= sites.len() - from,
    decreases sites.len() - from,
{
    if from < sites.len() {
        lemma_lacking_bound(state, sites, from + 1);
    }
}

proof fn lemma_lacking(
    state: Map<u64, usize>,
    known: Map<u64, usize>,
    sites: Seq<Site>,
    from: int,
)
    requires
        0 <= from <= sites.len(),
        forall|i: int|
            0 <= i < sites.len() && known.dom().contains((#[trigger] sites[i]).0)
                ==> state.dom().contains(sites[i].0),
    ensures
        lacking_from(state, sites, from) <= lacking_from(known, sites, from),
        (exists|i: int|
            from <= i < sites.len() && state.dom().contains((#[trigger] sites[i]).0)
                && !known.dom().contains(sites[i].0)) ==> lacking_from(state, sites, from)
            < lacking_from(known, sites, from),
    decreases sites.len() - from,
{
    if from < sites.len() {
        lemma_lacking(state, known, sites, from + 1);
        if exists|i: int|
            from <= i < sites.len() && state.dom().contains((#[trigger] sites[i]).0)
                && !known.dom().contains(sites[i].0) {
            let i = choose|i: int|
                from <= i < sites.len() && state.dom().contains((#[trigger] sites[i]).0)
                    && !known.dom().contains(sites[i].0);
            if i > from {
                assert(from + 1 <= i < sites.len());
            }
        }
    }
}

proof fn lemma_missing(
    after: Map<u64, Map<u64, usize>>,
    before: Map<u64, Map<u64, usize>>,
    nodes: Seq<u32>,
    sites: Seq<Site>,
    from: int,
    at: int,
)
    requires
        0 <= from <= at < nodes.len(),
        forall|node: u32| #[trigger] lacking_at(after, node, sites) <= lacking_at(
            before,
            node,
            sites,
        ),
        lacking_at(after, nodes[at], sites) < lacking_at(before, nodes[at], sites),
    ensures
        missing_from(after, nodes, sites, from) < missing_from(before, nodes, sites, from),
    decreases nodes.len() - from,
{
    if from < at {
        lemma_missing(after, before, nodes, sites, from + 1, at);
        assert(lacking_at(after, nodes[from], sites) <= lacking_at(before, nodes[from], sites));
    } else {
        lemma_missing_rest(after, before, nodes, sites, from + 1);
    }
}

proof fn lemma_missing_rest(
    after: Map<u64, Map<u64, usize>>,
    before: Map<u64, Map<u64, usize>>,
    nodes: Seq<u32>,
    sites: Seq<Site>,
    from: int,
)
    requires
        0 <= from,
        forall|node: u32| #[trigger] lacking_at(after, node, sites) <= lacking_at(
            before,
            node,
            sites,
        ),
    ensures
        missing_from(after, nodes, sites, from) <= missing_from(before, nodes, sites, from),
    decreases nodes.len() - from,
{
    if from < nodes.len() {
        lemma_missing_rest(after, before, nodes, sites, from + 1);
        assert(lacking_at(after, nodes[from], sites) <= lacking_at(before, nodes[from], sites));
    }
}

/// Every look leaves less that can still come, or fewer blocks in line.
pub proof fn lemma_stepped(
    flow: Flow,
    cfg: CfgView,
    nodes: Seq<u32>,
    sites: Seq<Site>,
    old: Map<u64, u64>,
)
    requires
        flow.work.len() > 0,
    ensures
        ({
            let next = stepped(flow, cfg, nodes, sites, old);
            ||| missing_from(next.exits, nodes, sites, 0) < missing_from(
                flow.exits,
                nodes,
                sites,
                0,
            )
            ||| missing_from(next.exits, nodes, sites, 0) == missing_from(
                flow.exits,
                nodes,
                sites,
                0,
            ) && next.work.len() < flow.work.len()
        }),
{
    let node = flow.work[0];
    let next = stepped(flow, cfg, nodes, sites, old);
    if nodes.contains(node) {
        let sources = EdgeView::sources(EdgeView::entering(cfg.edges, node));
        let (merged, incoming) = with_states(
            flow.firsts,
            Map::empty(),
            sources,
            0,
            flow.exits,
            sites,
        );
        let (firsts, outgoing) = after_from(
            merged,
            incoming,
            cfg.blocks[node],
            0,
            node,
            sites,
            old,
        );
        if !flow.exits.dom().contains(node as u64) || has_grown(
            outgoing,
            flow.exits[node as u64],
            sites,
        ) {
            lemma_lacking_bound(outgoing, sites, 0);
            if flow.exits.dom().contains(node as u64) {
                lemma_lacking(outgoing, flow.exits[node as u64], sites, 0);
            }
            assert(lacking_at(next.exits, node, sites) < lacking_at(flow.exits, node, sites));
            assert forall|other: u32| #[trigger]
                lacking_at(next.exits, other, sites) <= lacking_at(flow.exits, other, sites) by {
                if other != node {
                    assert(other as u64 != node as u64);
                }
            }
            let at = choose|at: int| 0 <= at < nodes.len() && nodes[at] == node;
            lemma_missing(next.exits, flow.exits, nodes, sites, 0, at);
        }
    }
}

/// What is known when no block is left in line.
pub open spec fn settled(
    flow: Flow,
    cfg: CfgView,
    nodes: Seq<u32>,
    sites: Seq<Site>,
    old: Map<u64, u64>,
) -> Flow
    decreases missing_from(flow.exits, nodes, sites, 0), flow.work.len(),
{
    if flow.work.len() == 0 {
        flow
    } else {
        proof {
            lemma_stepped(flow, cfg, nodes, sites, old);
        }
        settled(stepped(flow, cfg, nodes, sites, old), cfg, nodes, sites, old)
    }
}

/// What is known before the first look: every capture is a group of its own.
pub open spec fn started(nodes: Seq<u32>, sites: Seq<Site>) -> Flow {
    Flow {
        firsts: Seq::new(sites.len(), |i: int| i as usize),
        entries: Map::empty(),
        exits: Map::empty(),
        work: nodes,
    }
}

/// The captures of a function's blocks.
pub open spec fn all_sites(cfg: CfgView, nodes: Seq<u32>, old: Map<u64, u64>) -> Seq<Site> {
    sites_from(Seq::empty(), cfg, nodes, 0, old)
}

/// What the analysis of a function ends with.
pub open spec fn capture_flow(cfg: CfgView, nodes: Seq<u32>, old: Map<u64, u64>) -> Flow {
    let sites = all_sites(cfg, nodes, old);
    settled(started(nodes, sites), cfg, nodes, sites, old)
}

/// Whether the open captures of a state are captures of their locals.
pub open spec fn is_sound_state(open: Map<u64, usize>, sites: Seq<Site>) -> bool {
    forall|local: u64| #[trigger]
        open.dom().contains(local) ==> open[local] < sites.len() && sites[open[local] as int].0
            == local
}

/// Whether the open captures of states are captures of their locals.
pub open spec fn are_sound_states(
    states: Map<u64, Map<u64, usize>>,
    sites: Seq<Site>,
) -> bool {
    forall|node: u64|
        states.dom().contains(node) ==> is_sound_state(#[trigger] states[node], sites)
}

/// Whether every group of captures is of one local, and is named after its
/// first.
pub open spec fn are_sound_groups(firsts: Seq<usize>, sites: Seq<Site>) -> bool {
    &&& firsts.len() == sites.len()
    &&& forall|i: int|
        0 <= i < firsts.len() ==> (#[trigger] firsts[i]) <= i && sites[firsts[i] as int].0
            == sites[i].0
}

/// Whether what is known names captures of the right locals.
pub open spec fn is_sound_flow(flow: Flow, sites: Seq<Site>) -> bool {
    &&& are_sound_groups(flow.firsts, sites)
    &&& are_sound_states(flow.entries, sites)
    &&& are_sound_states(flow.exits, sites)
}

pub proof fn lemma_place(sites: Seq<Site>, site: Site, from: int)
    requires
        0 <= from,
    ensures
        from <= sites.len() ==> from <= place_from(sites, site, from) <= sites.len(),
        place_from(sites, site, from) < sites.len() ==> 0 <= place_from(sites, site, from)
            && sites[place_from(sites, site, from)] == site,
    decreases sites.len() - from,
{
    if from < sites.len() {
        if sites[from] != site {
            lemma_place(sites, site, from + 1);
        }
    }
}

proof fn lemma_joined(firsts: Seq<usize>, sites: Seq<Site>, a: usize, b: usize)
    requires
        are_sound_groups(firsts, sites),
        a < sites.len(),
        b < sites.len(),
        sites[a as int].0 == sites[b as int].0,
    ensures
        are_sound_groups(joined(firsts, a, b), sites),
{
    let next = joined(firsts, a, b);
    assert forall|i: int| 0 <= i < next.len() implies (#[trigger] next[i]) <= i
        && sites[next[i] as int].0 == sites[i].0 by {
        assert(firsts[i] <= i);
        assert(firsts[a as int] <= a);
        assert(firsts[b as int] <= b);
    }
}

proof fn lemma_with_state(
    firsts: Seq<usize>,
    open: Map<u64, usize>,
    state: Map<u64, usize>,
    sites: Seq<Site>,
    from: int,
)
    requires
        0 <= from,
        are_sound_groups(firsts, sites),
        is_sound_state(open, sites),
        is_sound_state(state, sites),
    ensures
        are_sound_groups(with_state(firsts, open, state, sites, from).0, sites),
        is_sound_state(with_state(firsts, open, state, sites, from).1, sites),
    decreases sites.len() - from,
{
    if from < sites.len() {
        let local = sites[from].0;
        let (next, more) = if state.dom().contains(local) {
            with_open(firsts, open, local, state[local])
        } else {
            (firsts, open)
        };
        if state.dom().contains(local) {
            let first = firsts[state[local] as int];
            assert(first <= state[local] && sites[first as int].0 == local);
            if open.dom().contains(local) {
                lemma_joined(firsts, sites, open[local], first);
                assert(next[first as int] <= first && sites[next[first as int] as int].0 == local);
            }
        }
        assert(is_sound_state(more, sites));
        lemma_with_state(next, more, state, sites, from + 1);
    }
}

proof fn lemma_with_states(
    firsts: Seq<usize>,
    open: Map<u64, usize>,
    sources: Seq<u32>,
    from: int,
    exits: Map<u64, Map<u64, usize>>,
    sites: Seq<Site>,
)
    requires
        0 <= from,
        are_sound_groups(firsts, sites),
        is_sound_state(open, sites),
        are_sound_states(exits, sites),
    ensures
        are_sound_groups(with_states(firsts, open, sources, from, exits, sites).0, sites),
        is_sound_state(with_states(firsts, open, sources, from, exits, sites).1, sites),
    decreases sources.len() - from,
{
    if from < sources.len() {
        let node = sources[from] as u64;
        if exits.dom().contains(node) {
            lemma_with_state(firsts, open, exits[node], sites, 0);
            let (next, more) = with_state(firsts, open, exits[node], sites, 0);
            lemma_with_states(next, more, sources, from + 1, exits, sites);
        } else {
            lemma_with_states(firsts, open, sources, from + 1, exits, sites);
        }
    }
}

proof fn lemma_with_captures(
    firsts: Seq<usize>,
    open: Map<u64, usize>,
    locals: Seq<RcLocal>,
    k: int,
    node: u32,
    t: int,
    sites: Seq<Site>,
    old: Map<u64, u64>,
)
    requires
        sites.len() <= usize::MAX,
        0 <= k,
        are_sound_groups(firsts, sites),
        is_sound_state(open, sites),
    ensures
        are_sound_groups(with_captures(firsts, open, locals, k, node, t, sites, old).0, sites),
        is_sound_state(with_captures(firsts, open, locals, k, node, t, sites, old).1, sites),
    decreases locals.len() - k,
{
    if k < locals.len() {
        let site = (old[locals[k].id], node, t as usize);
        let place = place_from(sites, site, 0);
        lemma_place(sites, site, 0);
        let (next, more) = with_capture(firsts, open, sites, site);
        if place < sites.len() {
            if open.dom().contains(site.0) {
                lemma_joined(firsts, sites, open[site.0], place as usize);
                assert(next[place] <= place && sites[next[place] as int].0 == site.0);
            }
        }
        assert(is_sound_state(more, sites));
        lemma_with_captures(next, more, locals, k + 1, node, t, sites, old);
    }
}

proof fn lemma_without(
    open: Map<u64, usize>,
    locals: Seq<RcLocal>,
    k: int,
    sites: Seq<Site>,
)
    requires
        0 <= k,
        is_sound_state(open, sites),
    ensures
        is_sound_state(without(open, locals, k), sites),
    decreases locals.len() - k,
{
    if k < locals.len() {
        assert(is_sound_state(open.remove(locals[k].id), sites));
        lemma_without(open.remove(locals[k].id), locals, k + 1, sites);
    }
}

proof fn lemma_after(
    firsts: Seq<usize>,
    open: Map<u64, usize>,
    block: Seq<StatementView>,
    t: int,
    node: u32,
    sites: Seq<Site>,
    old: Map<u64, u64>,
)
    requires
        sites.len() <= usize::MAX,
        0 <= t,
        are_sound_groups(firsts, sites),
        is_sound_state(open, sites),
    ensures
        are_sound_groups(after_from(firsts, open, block, t, node, sites, old).0, sites),
        is_sound_state(after_from(firsts, open, block, t, node, sites, old).1, sites),
    decreases block.len() - t,
{
    if t < block.len() {
        let locals = captures(block[t]);
        lemma_with_captures(firsts, open, locals, 0, node, t, sites, old);
        let (next, more) = with_captures(firsts, open, locals, 0, node, t, sites, old);
        lemma_without(more, closes(block[t]), 0, sites);
        lemma_after(next, without(more, closes(block[t]), 0), block, t + 1, node, sites, old);
    }
}

proof fn lemma_sound_step(
    flow: Flow,
    cfg: CfgView,
    nodes: Seq<u32>,
    sites: Seq<Site>,
    old: Map<u64, u64>,
)
    requires
        sites.len() <= usize::MAX,
        is_sound_flow(flow, sites),
    ensures
        is_sound_flow(stepped(flow, cfg, nodes, sites, old), sites),
{
    let node = flow.work[0];
    if nodes.contains(node) {
        let sources = EdgeView::sources(EdgeView::entering(cfg.edges, node));
        lemma_with_states(flow.firsts, Map::empty(), sources, 0, flow.exits, sites);
        let (merged, incoming) = with_states(
            flow.firsts,
            Map::empty(),
            sources,
            0,
            flow.exits,
            sites,
        );
        lemma_after(merged, incoming, cfg.blocks[node], 0, node, sites, old);
    }
}

proof fn lemma_sound_settled(
    flow: Flow,
    cfg: CfgView,
    nodes: Seq<u32>,
    sites: Seq<Site>,
    old: Map<u64, u64>,
)
    requires
        sites.len() <= usize::MAX,
        is_sound_flow(flow, sites),
    ensures
        is_sound_flow(settled(flow, cfg, nodes, sites, old), sites),
    decreases missing_from(flow.exits, nodes, sites, 0), flow.work.len(),
{
    if flow.work.len() > 0 {
        lemma_stepped(flow, cfg, nodes, sites, old);
        lemma_sound_step(flow, cfg, nodes, sites, old);
        lemma_sound_settled(stepped(flow, cfg, nodes, sites, old), cfg, nodes, sites, old);
    }
}

/// What the analysis ends with names captures of the right locals.
pub proof fn lemma_capture_flow(cfg: CfgView, nodes: Seq<u32>, old: Map<u64, u64>)
    requires
        all_sites(cfg, nodes, old).len() <= usize::MAX,
    ensures
        is_sound_flow(capture_flow(cfg, nodes, old), all_sites(cfg, nodes, old)),
{
    let sites = all_sites(cfg, nodes, old);
    let start = started(nodes, sites);
    assert(is_sound_flow(start, sites));
    lemma_sound_settled(start, cfg, nodes, sites, old);
}

/// Whether a capture is one of a statement of a block.
pub open spec fn is_capture(
    cfg: CfgView,
    nodes: Seq<u32>,
    old: Map<u64, u64>,
    site: Site,
) -> bool {
    &&& nodes.contains(site.1)
    &&& site.2 < cfg.blocks[site.1].len()
    &&& is_captured(captures(cfg.blocks[site.1][site.2 as int]), old, site.0)
}

/// Whether captures are ones of statements of some blocks.
pub open spec fn are_captures(
    cfg: CfgView,
    nodes: Seq<u32>,
    old: Map<u64, u64>,
    sites: Seq<Site>,
) -> bool {
    forall|i: int| 0 <= i < sites.len() ==> is_capture(cfg, nodes, old, #[trigger] sites[i])
}

proof fn lemma_statement_sites(
    sites: Seq<Site>,
    cfg: CfgView,
    nodes: Seq<u32>,
    k: int,
    node: u32,
    t: int,
    old: Map<u64, u64>,
)
    requires
        0 <= k,
        nodes.contains(node),
        0 <= t < cfg.blocks[node].len() <= usize::MAX,
        are_captures(cfg, nodes, old, sites),
    ensures
        are_captures(
            cfg,
            nodes,
            old,
            statement_sites(sites, captures(cfg.blocks[node][t]), k, node, t, old),
        ),
    decreases captures(cfg.blocks[node][t]).len() - k,
{
    let locals = captures(cfg.blocks[node][t]);
    if k < locals.len() {
        let site = (old[locals[k].id], node, t as usize);
        let next = if place_from(sites, site, 0) < sites.len() {
            sites
        } else {
            sites.push(site)
        };
        assert(is_captured(locals, old, site.0));
        assert(is_capture(cfg, nodes, old, site));
        lemma_statement_sites(next, cfg, nodes, k + 1, node, t, old);
    }
}

proof fn lemma_block_sites(
    sites: Seq<Site>,
    cfg: CfgView,
    nodes: Seq<u32>,
    t: int,
    node: u32,
    old: Map<u64, u64>,
)
    requires
        0 <= t,
        nodes.contains(node),
        cfg.blocks[node].len() <= usize::MAX,
        are_captures(cfg, nodes, old, sites),
    ensures
        are_captures(cfg, nodes, old, block_sites(sites, cfg.blocks[node], t, node, old)),
    decreases cfg.blocks[node].len() - t,
{
    if t < cfg.blocks[node].len() {
        lemma_statement_sites(sites, cfg, nodes, 0, node, t, old);
        lemma_block_sites(
            statement_sites(sites, captures(cfg.blocks[node][t]), 0, node, t, old),
            cfg,
            nodes,
            t + 1,
            node,
            old,
        );
    }
}

/// Every capture that is listed is one of a statement.
pub proof fn lemma_sites(
    sites: Seq<Site>,
    cfg: CfgView,
    nodes: Seq<u32>,
    from: int,
    old: Map<u64, u64>,
)
    requires
        0 <= from,
        forall|i: int|
            0 <= i < nodes.len() ==> cfg.blocks[#[trigger] nodes[i]].len() <= usize::MAX,
        are_captures(cfg, nodes, old, sites),
    ensures
        are_captures(cfg, nodes, old, sites_from(sites, cfg, nodes, from, old)),
    decreases nodes.len() - from,
{
    if from < nodes.len() {
        let node = nodes[from];
        assert(nodes.contains(node));
        lemma_block_sites(sites, cfg, nodes, 0, node, old);
        let next = block_sites(sites, cfg.blocks[node], 0, node, old);
        lemma_sites(next, cfg, nodes, from + 1, old);
    }
}

/// The states of a map as models.
pub open spec fn state_views(states: Map<u64, FxHashMap<u64, usize>>) -> Map<
    u64,
    Map<u64, usize>,
> {
    Map::new(|node: u64| states.dom().contains(node), |node: u64| states[node]@)
}

/// Whether the captures that a state names are on a list of some length.
pub open spec fn is_within(open: Map<u64, usize>, count: nat) -> bool {
    forall|local: u64| open.dom().contains(local) ==> (#[trigger] open[local]) < count
}

/// Whether the first of every capture's group is on the list.
pub open spec fn are_firsts(firsts: Seq<usize>) -> bool {
    forall|i: int| 0 <= i < firsts.len() ==> (#[trigger] firsts[i]) < firsts.len()
}

/// Whether the captures that states name are on a list of some length.
pub open spec fn are_within(states: Map<u64, Map<u64, usize>>, count: nat) -> bool {
    forall|node: u64|
        states.dom().contains(node) ==> is_within(#[trigger] states[node], count)
}

/// The locals that a statement captures by reference.
pub(crate) fn find_captures(statement: &Statement) -> (locals: Vec<RcLocal>)
    ensures
        locals@ == captures(statement@),
{
    let mut locals: Vec<RcLocal> = Vec::new();
    if let Some(assign) = statement.as_assign() {
        proof {
            nodes::assign_node(*assign);
        }
        let ghost views = assign@.right;
        let mut at: usize = 0;
        while at < assign.right.len()
            invariant
                at <= assign.right@.len() == views.len(),
                views == RValue::views(assign.right@),
                locals@ + held_by_from(views, at as int) =~= held_by_from(views, 0),
            decreases assign.right.len() - at,
        {
            proof {
                assert(views[at as int] == assign.right@[at as int]@);
                nodes::rvalue_node(assign.right@[at as int]);
            }
            let ghost held = locals@;
            if let RValue::Closure(closure) = &assign.right[at] {
                let upvalues = &closure.upvalues;
                let mut k: usize = 0;
                while k < upvalues.len()
                    invariant
                        k <= upvalues@.len(),
                        locals@ + held_from(upvalues@, k as int) =~= held + held_from(
                            upvalues@,
                            0,
                        ),
                    decreases upvalues.len() - k,
                {
                    if let Upvalue::Ref(local) = upvalues[k] {
                        locals.push(local);
                    }
                    k += 1;
                }
                proof {
                    assert(locals@ =~= held + held_from(upvalues@, 0));
                }
            }
            at += 1;
        }
        proof {
            assert(locals@ =~= held_by_from(views, 0));
        }
    }
    locals
}

/// Where a capture stands in a list of captures.
pub(crate) fn find_place(sites: &Vec<Site>, site: Site) -> (place: usize)
    ensures
        place == place_from(sites@, site, 0),
        place <= sites@.len(),
{
    let ghost whole = place_from(sites@, site, 0);
    let mut at: usize = 0;
    while at < sites.len()
        invariant
            at <= sites@.len(),
            whole == place_from(sites@, site, 0),
            whole == place_from(sites@, site, at as int),
        decreases sites.len() - at,
    {
        let (local, node, t) = sites[at];
        if local == site.0 && node == site.1 && t == site.2 {
            return at;
        }
        at += 1;
    }
    at
}

/// The older local of one.
pub(crate) fn older(old: &FxHashMap<u64, u64>, local: RcLocal) -> (id: u64)
    requires
        old@.dom().contains(local.id),
    ensures
        id == old@[local.id],
{
    match find_entry(old, local.id) {
        Some(id) => *id,
        None => local.id,
    }
}

/// Lists the captures of some blocks.
pub(crate) fn collect_sites(function: &Function, nodes: &Vec<NodeId>, old: &FxHashMap<u64, u64>) -> (sites:
    Vec<Site>)
    requires
        function.well_formed(),
        forall|i: int|
            0 <= i < nodes@.len() ==> function@.blocks.dom().contains(#[trigger] nodes@[i])
                && knows_captures(function@.blocks[nodes@[i]], old@),
    ensures
        sites@ == all_sites(function@, nodes@, old@),
{
    let ghost whole = all_sites(function@, nodes@, old@);
    let mut sites: Vec<Site> = Vec::new();
    let mut at: usize = 0;
    while at < nodes.len()
        invariant
            at <= nodes@.len(),
            function.well_formed(),
            forall|i: int|
                0 <= i < nodes@.len() ==> function@.blocks.dom().contains(#[trigger] nodes@[i])
                    && knows_captures(function@.blocks[nodes@[i]], old@),
            whole == sites_from(sites@, function@, nodes@, at as int, old@),
        decreases nodes.len() - at,
    {
        let node = nodes[at];
        proof {
            assert(function@.blocks.dom().contains(nodes@[at as int]));
        }
        if let Some(block) = function.block(node) {
            let ghost views = block@;
            let ghost goal = block_sites(sites@, views, 0, node, old@);
            let mut t: usize = 0;
            while t < block.0.len()
                invariant
                    t <= block.0@.len() == views.len(),
                    views == Statement::views(block.0@),
                    knows_captures(views, old@),
                    goal == block_sites(sites@, views, t as int, node, old@),
                decreases block.0.len() - t,
            {
                proof {
                    assert(views[t as int] == block.0@[t as int]@);
                }
                let locals = find_captures(&block.0[t]);
                let ghost next = statement_sites(sites@, locals@, 0, node, t as int, old@);
                let mut k: usize = 0;
                while k < locals.len()
                    invariant
                        k <= locals@.len(),
                        0 <= t < views.len(),
                        locals@ == captures(views[t as int]),
                        knows_captures(views, old@),
                        next == statement_sites(sites@, locals@, k as int, node, t as int, old@),
                    decreases locals.len() - k,
                {
                    proof {
                        assert(old@.dom().contains(captures(views[t as int])[k as int].id));
                    }
                    let site = (older(old, locals[k]), node, t);
                    if find_place(&sites, site) >= sites.len() {
                        sites.push(site);
                    }
                    k += 1;
                }
                t += 1;
            }
        }
        at += 1;
    }
    sites
}

/// Makes the groups of two captures one, and gives the first of it.
fn join(firsts: &mut Vec<usize>, a: usize, b: usize) -> (first: usize)
    requires
        are_firsts(old(firsts)@),
        a < old(firsts)@.len(),
        b < old(firsts)@.len(),
    ensures
        final(firsts)@ == joined(old(firsts)@, a, b),
        first == joined(old(firsts)@, a, b)[b as int],
        first < old(firsts)@.len(),
        are_firsts(final(firsts)@),
        final(firsts)@.len() == old(firsts)@.len(),
{
    let ghost start = firsts@;
    let goal: Ghost<Seq<usize>> = Ghost(joined(start, a, b));
    let x = firsts[a];
    let y = firsts[b];
    let first = if x <= y {
        x
    } else {
        y
    };
    let count: usize = firsts.len();
    let mut at: usize = 0;
    while at < count
        invariant
            at <= count == firsts@.len() == start.len(),
            goal@ == joined(start, a, b),
            x == start[a as int],
            y == start[b as int],
            a < start.len(),
            b < start.len(),
            first == (if x <= y {
                x
            } else {
                y
            }),
            forall|i: int| 0 <= i < at ==> firsts@[i] == #[trigger] goal@[i],
            forall|i: int| at <= i < count ==> #[trigger] firsts@[i] == start[i],
        decreases count - at,
    {
        if firsts[at] == x || firsts[at] == y {
            firsts.set(at, first);
        }
        at += 1;
    }
    proof {
        assert(firsts@ =~= goal@);
        assert forall|i: int| 0 <= i < firsts@.len() implies (#[trigger] firsts@[i])
            < firsts@.len() by {
            assert(start[i] < start.len());
            assert(start[a as int] < start.len());
            assert(start[b as int] < start.len());
        }
        assert(goal@[b as int] == first);
        assert(start[a as int] < start.len());
        assert(start[b as int] < start.len());
    }
    first
}

/// Merges the open captures of a state into others.
fn merge_state(
    firsts: &mut Vec<usize>,
    open: &mut FxHashMap<u64, usize>,
    state: &FxHashMap<u64, usize>,
    sites: &Vec<Site>,
)
    requires
        are_firsts(old(firsts)@),
        is_within(old(open)@, old(firsts)@.len()),
        is_within(state@, old(firsts)@.len()),
    ensures
        (final(firsts)@, final(open)@) == with_state(
            old(firsts)@,
            old(open)@,
            state@,
            sites@,
            0,
        ),
        are_firsts(final(firsts)@),
        final(firsts)@.len() == old(firsts)@.len(),
        is_within(final(open)@, final(firsts)@.len()),
{
    let ghost whole = with_state(firsts@, open@, state@, sites@, 0);
    let mut at: usize = 0;
    while at < sites.len()
        invariant
            at <= sites@.len(),
            are_firsts(firsts@),
            firsts@.len() == old(firsts)@.len(),
            is_within(open@, firsts@.len()),
            is_within(state@, firsts@.len()),
            whole == with_state(firsts@, open@, state@, sites@, at as int),
        decreases sites.len() - at,
    {
        let local = sites[at].0;
        let found = match find_entry(state, local) {
            Some(epoch) => Some(*epoch),
            None => None,
        };
        if let Some(epoch) = found {
            proof {
                assert(state@[local] < firsts@.len());
            }
            let first = firsts[epoch];
            proof {
                assert(firsts@[epoch as int] < firsts@.len());
            }
            let previous = match find_entry(open, local) {
                Some(previous) => Some(*previous),
                None => None,
            };
            let put = match previous {
                Some(previous) => {
                    proof {
                        assert(open@[local] < firsts@.len());
                    }
                    join(firsts, previous, first)
                },
                None => first,
            };
            insert_entry(open, local, put);
        }
        at += 1;
    }
}

/// Merges the open captures at the ends of the blocks that lead to a node.
fn merge_predecessors(
    function: &Function,
    node: NodeId,
    exits: &FxHashMap<u64, FxHashMap<u64, usize>>,
    firsts: &mut Vec<usize>,
    sites: &Vec<Site>,
) -> (incoming: FxHashMap<u64, usize>)
    requires
        function.well_formed(),
        are_firsts(old(firsts)@),
        are_within(state_views(exits@), old(firsts)@.len()),
    ensures
        (final(firsts)@, incoming@) == with_states(
            old(firsts)@,
            Map::empty(),
            EdgeView::sources(EdgeView::entering(function@.edges, node)),
            0,
            state_views(exits@),
            sites@,
        ),
        are_firsts(final(firsts)@),
        final(firsts)@.len() == old(firsts)@.len(),
        is_within(incoming@, final(firsts)@.len()),
{
    let sources = function.predecessor_blocks(node);
    let ghost views = state_views(exits@);
    let ghost whole = with_states(firsts@, Map::empty(), sources@, 0, views, sites@);
    let mut incoming: FxHashMap<u64, usize> = empty_map();
    proof {
        assert(incoming@ =~= Map::empty());
    }
    let mut at: usize = 0;
    while at < sources.len()
        invariant
            at <= sources@.len(),
            views == state_views(exits@),
            are_firsts(firsts@),
            firsts@.len() == old(firsts)@.len(),
            are_within(views, firsts@.len()),
            is_within(incoming@, firsts@.len()),
            whole == with_states(firsts@, incoming@, sources@, at as int, views, sites@),
        decreases sources.len() - at,
    {
        if let Some(state) = find_entry(exits, sources[at] as u64) {
            proof {
                assert(views[sources@[at as int] as u64] == state@);
                assert(is_within(views[sources@[at as int] as u64], firsts@.len()));
            }
            merge_state(firsts, &mut incoming, state, sites);
        }
        at += 1;
    }
    incoming
}

/// Follows the captures and the ends of captures of a block.
fn transfer_block(
    function: &Function,
    node: NodeId,
    old_locals: &FxHashMap<u64, u64>,
    sites: &Vec<Site>,
    firsts: &mut Vec<usize>,
    state: &mut FxHashMap<u64, usize>,
)
    requires
        function.well_formed(),
        function@.blocks.dom().contains(node),
        knows_captures(function@.blocks[node], old_locals@),
        are_firsts(old(firsts)@),
        old(firsts)@.len() == sites@.len(),
        is_within(old(state)@, old(firsts)@.len()),
    ensures
        (final(firsts)@, final(state)@) == after_from(
            old(firsts)@,
            old(state)@,
            function@.blocks[node],
            0,
            node,
            sites@,
            old_locals@,
        ),
        are_firsts(final(firsts)@),
        final(firsts)@.len() == old(firsts)@.len(),
        is_within(final(state)@, final(firsts)@.len()),
{
    if let Some(block) = function.block(node) {
        let ghost views = block@;
        let ghost whole = after_from(firsts@, state@, views, 0, node, sites@, old_locals@);
        let mut t: usize = 0;
        while t < block.0.len()
            invariant
                t <= block.0@.len() == views.len(),
                views == Statement::views(block.0@),
                knows_captures(views, old_locals@),
                are_firsts(firsts@),
                firsts@.len() == sites@.len(),
                is_within(state@, firsts@.len()),
                whole == after_from(
                    firsts@,
                    state@,
                    views,
                    t as int,
                    node,
                    sites@,
                    old_locals@,
                ),
            decreases block.0.len() - t,
        {
            proof {
                assert(views[t as int] == block.0@[t as int]@);
                nodes::statement_node(block.0@[t as int]);
            }
            let locals = find_captures(&block.0[t]);
            open_captures(&locals, node, t, old_locals, sites, firsts, state, Ghost(views));
            if let Statement::Close(close) = &block.0[t] {
                let ghost goal = without(state@, close.locals@, 0);
                let mut k: usize = 0;
                while k < close.locals.len()
                    invariant
                        k <= close.locals@.len(),
                        goal == without(state@, close.locals@, k as int),
                        is_within(state@, firsts@.len()),
                    decreases close.locals.len() - k,
                {
                    let _ = remove_entry(state, close.locals[k].id);
                    k += 1;
                }
            }
            t += 1;
        }
    }
}

fn open_captures(
    locals: &Vec<RcLocal>,
    node: NodeId,
    t: usize,
    old_locals: &FxHashMap<u64, u64>,
    sites: &Vec<Site>,
    firsts: &mut Vec<usize>,
    state: &mut FxHashMap<u64, usize>,
    Ghost(block): Ghost<Seq<StatementView>>,
)
    requires
        t < block.len(),
        locals@ == captures(block[t as int]),
        knows_captures(block, old_locals@),
        are_firsts(old(firsts)@),
        old(firsts)@.len() == sites@.len(),
        is_within(old(state)@, old(firsts)@.len()),
    ensures
        (final(firsts)@, final(state)@) == with_captures(
            old(firsts)@,
            old(state)@,
            locals@,
            0,
            node,
            t as int,
            sites@,
            old_locals@,
        ),
        are_firsts(final(firsts)@),
        final(firsts)@.len() == old(firsts)@.len(),
        is_within(final(state)@, final(firsts)@.len()),
{
    let ghost whole = with_captures(
        firsts@,
        state@,
        locals@,
        0,
        node,
        t as int,
        sites@,
        old_locals@,
    );
    let mut k: usize = 0;
    while k < locals.len()
        invariant
            k <= locals@.len(),
            t < block.len(),
            locals@ == captures(block[t as int]),
            knows_captures(block, old_locals@),
            are_firsts(firsts@),
            firsts@.len() == sites@.len() == old(firsts)@.len(),
            is_within(state@, firsts@.len()),
            whole == with_captures(
                firsts@,
                state@,
                locals@,
                k as int,
                node,
                t as int,
                sites@,
                old_locals@,
            ),
        decreases locals.len() - k,
    {
        proof {
            assert(old_locals@.dom().contains(captures(block[t as int])[k as int].id));
        }
        let local = older(old_locals, locals[k]);
        let place = find_place(sites, (local, node, t));
        if place < sites.len() {
            let active = match find_entry(state, local) {
                Some(active) => Some(*active),
                None => None,
            };
            let put = match active {
                Some(active) => {
                    proof {
                        assert(state@[local] < firsts@.len());
                    }
                    join(firsts, active, place)
                },
                None => place,
            };
            insert_entry(state, local, put);
        }
        k += 1;
    }
}

fn grows(
    state: &FxHashMap<u64, usize>,
    known: &FxHashMap<u64, usize>,
    sites: &Vec<Site>,
) -> (result: bool)
    ensures
        result == has_grown(state@, known@, sites@),
{
    let mut more = false;
    let mut at: usize = 0;
    while at < sites.len()
        invariant
            at <= sites@.len(),
            forall|i: int|
                0 <= i < at && known@.dom().contains((#[trigger] sites@[i]).0)
                    ==> state@.dom().contains(sites@[i].0),
            more == exists|i: int|
                0 <= i < at && state@.dom().contains((#[trigger] sites@[i]).0)
                    && !known@.dom().contains(sites@[i].0),
        decreases sites.len() - at,
    {
        let local = sites[at].0;
        let here = find_entry(state, local).is_some();
        let there = find_entry(known, local).is_some();
        if there && !here {
            proof {
                assert(known@.dom().contains(sites@[at as int].0));
            }
            return false;
        }
        if here && !there {
            more = true;
            proof {
                assert(state@.dom().contains(sites@[at as int].0));
            }
        }
        at += 1;
    }
    more
}

/// Whether a node is on a list.
pub(crate) fn has_node(nodes: &Vec<NodeId>, node: NodeId) -> (result: bool)
    ensures
        result == nodes@.contains(node),
{
    let mut at: usize = 0;
    while at < nodes.len()
        invariant
            at <= nodes@.len(),
            forall|i: int| 0 <= i < at ==> nodes@[i] != node,
        decreases nodes.len() - at,
    {
        if nodes[at] == node {
            assert(nodes@[at as int] == node);
            return true;
        }
        at += 1;
    }
    false
}

/// The state of the analysis.
pub(crate) struct CaptureFlow {
    pub sites: Vec<Site>,
    pub firsts: Vec<usize>,
    pub entries: FxHashMap<u64, FxHashMap<u64, usize>>,
    pub exits: FxHashMap<u64, FxHashMap<u64, usize>>,
}

impl CaptureFlow {
    pub(crate) open spec fn flow(&self, work: Seq<u32>) -> Flow {
        Flow {
            firsts: self.firsts@,
            entries: state_views(self.entries@),
            exits: state_views(self.exits@),
            work,
        }
    }

    /// Whether everything that the state names is on the list of captures.
    pub(crate) open spec fn is_valid(&self) -> bool {
        &&& self.firsts@.len() == self.sites@.len()
        &&& are_firsts(self.firsts@)
        &&& are_within(state_views(self.exits@), self.sites@.len())
        &&& are_within(state_views(self.entries@), self.sites@.len())
    }

    fn step(
        &mut self,
        function: &Function,
        nodes: &Vec<NodeId>,
        old_locals: &FxHashMap<u64, u64>,
        work: Vec<NodeId>,
    ) -> (rest: Vec<NodeId>)
        requires
            function.well_formed(),
            forall|i: int|
                0 <= i < nodes@.len() ==> function@.blocks.dom().contains(#[trigger] nodes@[i])
                    && knows_captures(function@.blocks[nodes@[i]], old_locals@),
            old(self).is_valid(),
            work@.len() > 0,
        ensures
            final(self).is_valid(),
            final(self).sites@ == old(self).sites@,
            final(self).flow(rest@) == stepped(
                old(self).flow(work@),
                function@,
                nodes@,
                old(self).sites@,
                old_locals@,
            ),
    {
        let ghost start = self.flow(work@);
        let mut rest = work;
        let node = rest.remove(0);
        proof {
            assert(rest@ =~= work@.skip(1));
            assert(node == work@[0]);
        }
        if !has_node(nodes, node) {
            return rest;
        }
        proof {
            let i = choose|i: int| 0 <= i < nodes@.len() && nodes@[i] == node;
            assert(function@.blocks.dom().contains(nodes@[i]));
        }
        let incoming = merge_predecessors(
            function,
            node,
            &self.exits,
            &mut self.firsts,
            &self.sites,
        );
        let mut outgoing = copy_map(&incoming);
        transfer_block(
            function,
            node,
            old_locals,
            &self.sites,
            &mut self.firsts,
            &mut outgoing,
        );
        let ghost entered = incoming@;
        let ghost left = outgoing@;
        insert_entry(&mut self.entries, node as u64, incoming);
        proof {
            assert(state_views(self.entries@) =~= start.entries.insert(node as u64, entered));
        }
        let changed = match find_entry(&self.exits, node as u64) {
            Some(known) => {
                proof {
                    assert(start.exits[node as u64] == known@);
                }
                grows(&outgoing, known, &self.sites)
            },
            None => true,
        };
        if changed {
            insert_entry(&mut self.exits, node as u64, outgoing);
            proof {
                assert(state_views(self.exits@) =~= start.exits.insert(node as u64, left));
            }
            let targets = function.successor_blocks(node);
            let ghost goal = queued_from(rest@, nodes@, 0, targets@);
            let mut at: usize = 0;
            while at < nodes.len()
                invariant
                    at <= nodes@.len(),
                    goal == queued_from(rest@, nodes@, at as int, targets@),
                decreases nodes.len() - at,
            {
                if has_node(&targets, nodes[at]) && !has_node(&rest, nodes[at]) {
                    rest.push(nodes[at]);
                }
                at += 1;
            }
        }
        rest
    }

    /// Follows the captures of a function's blocks until nothing more comes.
    pub(crate) fn settle(
        function: &Function,
        nodes: &Vec<NodeId>,
        old_locals: &FxHashMap<u64, u64>,
    ) -> (flow: Self)
        requires
            function.well_formed(),
            forall|i: int|
                0 <= i < nodes@.len() ==> function@.blocks.dom().contains(#[trigger] nodes@[i])
                    && knows_captures(function@.blocks[nodes@[i]], old_locals@),
        ensures
            flow.is_valid(),
            flow.sites@ == all_sites(function@, nodes@, old_locals@),
            flow.flow(Seq::empty()) == capture_flow(function@, nodes@, old_locals@),
    {
        let sites = collect_sites(function, nodes, old_locals);
        let ghost list = sites@;
        let mut firsts: Vec<usize> = Vec::new();
        let mut at: usize = 0;
        while at < sites.len()
            invariant
                at <= sites@.len(),
                firsts@.len() == at,
                forall|i: int| 0 <= i < at ==> #[trigger] firsts@[i] == i,
            decreases sites.len() - at,
        {
            firsts.push(at);
            at += 1;
        }
        let mut flow = CaptureFlow { sites, firsts, entries: empty_map(), exits: empty_map() };
        let mut work: Vec<NodeId> = Vec::new();
        let mut at: usize = 0;
        while at < nodes.len()
            invariant
                at <= nodes@.len(),
                work@ =~= nodes@.take(at as int),
            decreases nodes.len() - at,
        {
            work.push(nodes[at]);
            at += 1;
        }
        proof {
            assert(work@ =~= nodes@);
            assert(flow.firsts@ =~= Seq::new(list.len(), |i: int| i as usize));
            assert(state_views(flow.entries@) =~= Map::empty());
            assert(state_views(flow.exits@) =~= Map::empty());
            assert(flow.flow(work@) =~= started(nodes@, list));
        }
        let ghost whole = capture_flow(function@, nodes@, old_locals@);
        while work.len() > 0
            invariant
                function.well_formed(),
                forall|i: int|
                    0 <= i < nodes@.len() ==> function@.blocks.dom().contains(#[trigger] nodes@[i])
                        && knows_captures(function@.blocks[nodes@[i]], old_locals@),
                flow.is_valid(),
                flow.sites@ == list,
                whole == settled(flow.flow(work@), function@, nodes@, list, old_locals@),
            decreases missing_from(state_views(flow.exits@), nodes@, list, 0), work@.len(),
        {
            proof {
                lemma_stepped(flow.flow(work@), function@, nodes@, list, old_locals@);
            }
            work = flow.step(function, nodes, old_locals, work);
        }
        proof {
            assert(work@ =~= Seq::empty());
        }
        flow
    }
}

} // verus!
