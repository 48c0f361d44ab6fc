//! Taking out the blocks that never run.

use vstd::prelude::*;

use crate::ast::nodes;
use crate::cfg::block::EdgeView;
use crate::cfg::function::{CfgView, Function};
use crate::cfg::graph;
use crate::cfg::graph::NodeId;
use crate::cfg::ssa::capture_flow::has_node;

verus! {

broadcast use nodes::group_views;

/// The edges that join blocks of a set.
pub open spec fn kept_edges(edges: Seq<EdgeView>, kept: Set<u32>) -> Seq<EdgeView>
    decreases edges.len(),
{
    if edges.len() == 0 {
        edges
    } else if kept.contains(edges.last().source) && kept.contains(edges.last().target) {
        kept_edges(edges.drop_last(), kept).push(edges.last())
    } else {
        kept_edges(edges.drop_last(), kept)
    }
}

/// A function with the blocks of a set only.
pub open spec fn pruned(cfg: CfgView, kept: Set<u32>) -> CfgView {
    CfgView {
        blocks: cfg.blocks.restrict(kept),
        edges: kept_edges(cfg.edges, kept),
        origins: Map::new(
            |node: u64|
                cfg.origins.dom().contains(node) && !exists|n: u32|
                    #[trigger] cfg.blocks.dom().contains(n) && !kept.contains(n) && n == node,
            |node: u64| cfg.origins[node],
        ),
        ..cfg
    }
}

proof fn lemma_avoiding_kept(edges: Seq<EdgeView>, kept: Set<u32>, node: u32)
    ensures
        EdgeView::avoiding(kept_edges(edges, kept), node) == kept_edges(edges, kept.remove(node)),
    decreases edges.len(),
{
    if edges.len() > 0 {
        lemma_avoiding_kept(edges.drop_last(), kept, node);
        if kept.contains(edges.last().source) && kept.contains(edges.last().target) {
            let whole = kept_edges(edges, kept);
            assert(whole.drop_last() =~= kept_edges(edges.drop_last(), kept));
        }
    }
}

proof fn lemma_kept_all(edges: Seq<EdgeView>, kept: Set<u32>)
    requires
        forall|i: int|
            0 <= i < edges.len() ==> kept.contains((#[trigger] edges[i]).source) && kept.contains(
                edges[i].target,
            ),
    ensures
        kept_edges(edges, kept) == edges,
    decreases edges.len(),
{
    if edges.len() > 0 {
        let front = edges.drop_last();
        assert forall|i: int| 0 <= i < front.len() implies kept.contains(
            (#[trigger] front[i]).source,
        ) && kept.contains(front[i].target) by {
            assert(front[i] == edges[i]);
        }
        lemma_kept_all(front, kept);
        assert(edges[edges.len() - 1] == edges.last());
        assert(front.push(edges.last()) =~= edges);
    }
}

/// An edge is kept exactly when it joins blocks of the set.
pub proof fn lemma_kept_member(edges: Seq<EdgeView>, kept: Set<u32>, edge: EdgeView)
    ensures
        kept_edges(edges, kept).contains(edge) <==> edges.contains(edge) && kept.contains(
            edge.source,
        ) && kept.contains(edge.target),
    decreases edges.len(),
{
    if edges.len() > 0 {
        let front = edges.drop_last();
        lemma_kept_member(front, kept, edge);
        let whole = kept_edges(edges, kept);
        let rest = kept_edges(front, kept);
        assert(edges[edges.len() - 1] == edges.last());
        if front.contains(edge) {
            let i = choose|i: int| 0 <= i < front.len() && front[i] == edge;
            assert(edges[i] == edge);
        }
        if edges.contains(edge) && edge != edges.last() {
            let i = choose|i: int| 0 <= i < edges.len() && edges[i] == edge;
            assert(front[i] == edge);
        }
        if rest.contains(edge) {
            let i = choose|i: int| 0 <= i < rest.len() && rest[i] == edge;
            assert(whole[i] == edge);
        }
        if whole.contains(edge) {
            let i = choose|i: int| 0 <= i < whole.len() && whole[i] == edge;
            if i < rest.len() {
                assert(rest[i] == edge);
            }
        }
        if kept.contains(edges.last().source) && kept.contains(edges.last().target) {
            assert(whole[rest.len() as int] == edges.last());
        }
    }
}

proof fn lemma_kept_arcs(edges: Seq<EdgeView>, kept: Set<u32>, a: u32, b: u32)
    ensures
        EdgeView::arcs(kept_edges(edges, kept)).contains((a, b)) <==> EdgeView::arcs(
            edges,
        ).contains((a, b)) && kept.contains(a) && kept.contains(b),
{
    let less = kept_edges(edges, kept);
    if EdgeView::arcs(less).contains((a, b)) {
        let i = choose|i: int|
            0 <= i < less.len() && (#[trigger] less[i]).source == a && less[i].target == b;
        lemma_kept_member(edges, kept, less[i]);
        assert(less.contains(less[i]));
        let k = choose|k: int| 0 <= k < edges.len() && edges[k] == less[i];
        assert(edges[k].source == a && edges[k].target == b);
    }
    if EdgeView::arcs(edges).contains((a, b)) && kept.contains(a) && kept.contains(b) {
        let k = choose|k: int|
            0 <= k < edges.len() && (#[trigger] edges[k]).source == a && edges[k].target == b;
        lemma_kept_member(edges, kept, edges[k]);
        assert(edges.contains(edges[k]));
        let i = choose|i: int| 0 <= i < less.len() && less[i] == edges[k];
        assert(less[i].source == a && less[i].target == b);
    }
}

proof fn lemma_reach_further(arcs: Set<(u32, u32)>, from: u32, to: u32, next: u32)
    requires
        graph::reaches(arcs, from, to),
        arcs.contains((to, next)),
    ensures
        graph::reaches(arcs, from, next),
{
    let path = choose|path: Seq<u32>| graph::leads(arcs, from, to, path);
    let longer = path.push(next);
    assert forall|i: int| 0 <= i < longer.len() - 1 implies #[trigger] graph::follows(
        arcs,
        longer,
        i,
    ) by {
        if i < path.len() - 1 {
            assert(graph::follows(arcs, path, i));
        }
    }
    assert(graph::leads(arcs, from, next, longer));
}

proof fn lemma_walk_reached(
    arcs: Set<(u32, u32)>,
    less: Set<(u32, u32)>,
    entry: u32,
    walk: Seq<u32>,
    j: int,
)
    requires
        graph::is_walk(arcs, entry, walk),
        forall|a: u32, b: u32|
            arcs.contains((a, b)) && walk.contains(a) && walk.contains(b)
                ==> #[trigger] less.contains((a, b)),
        0 <= j < walk.len(),
    ensures
        graph::reaches(less, entry, walk[j]),
    decreases j,
{
    if j == 0 {
        let path = seq![entry];
        assert(graph::leads(less, entry, entry, path));
    } else {
        assert(graph::follows_earlier(arcs, walk, j));
        let i = choose|i: int| 0 <= i < j && arcs.contains((#[trigger] walk[i], walk[j]));
        lemma_walk_reached(arcs, less, entry, walk, i);
        assert(walk.contains(walk[i]) && walk.contains(walk[j]));
        assert(less.contains((walk[i], walk[j])));
        lemma_reach_further(less, entry, walk[i], walk[j]);
    }
}

/// Taking out what a walk does not reach leaves the walk as it is.
pub proof fn lemma_pruned_walk(edges: Seq<EdgeView>, entry: u32, walk: Seq<u32>)
    requires
        graph::is_walk(EdgeView::arcs(edges), entry, walk),
    ensures
        graph::is_walk(EdgeView::arcs(kept_edges(edges, walk.to_set())), entry, walk),
{
    let arcs = EdgeView::arcs(edges);
    let less = EdgeView::arcs(kept_edges(edges, walk.to_set()));
    assert forall|a: u32, b: u32|
        arcs.contains((a, b)) && walk.contains(a) && walk.contains(b) implies
        #[trigger] less.contains((a, b)) by {
        lemma_kept_arcs(edges, walk.to_set(), a, b);
    }
    assert forall|node: u32| #[trigger] walk.contains(node) <==> graph::reaches(
        less,
        entry,
        node,
    ) by {
        if walk.contains(node) {
            let j = choose|j: int| 0 <= j < walk.len() && walk[j] == node;
            lemma_walk_reached(arcs, less, entry, walk, j);
        }
        if graph::reaches(less, entry, node) {
            let path = choose|path: Seq<u32>| graph::leads(less, entry, node, path);
            assert forall|i: int| 0 <= i < path.len() - 1 implies #[trigger] graph::follows(
                arcs,
                path,
                i,
            ) by {
                assert(graph::follows(less, path, i));
                lemma_kept_arcs(edges, walk.to_set(), path[i], path[i + 1]);
            }
            assert(graph::leads(arcs, entry, node, path));
            assert(graph::reaches(arcs, entry, node));
        }
    }
    assert forall|j: int| 0 < j < walk.len() implies #[trigger] graph::follows_earlier(
        less,
        walk,
        j,
    ) by {
        assert(graph::follows_earlier(arcs, walk, j));
        let i = choose|i: int| 0 <= i < j && arcs.contains((#[trigger] walk[i], walk[j]));
        assert(walk.contains(walk[i]) && walk.contains(walk[j]));
        assert(less.contains((walk[i], walk[j])));
    }
}

/// Takes out the blocks that are not on a list.
pub(crate) fn prune(function: &mut Function, walk: &Vec<NodeId>)
    requires
        old(function).well_formed(),
        walk@.to_set().subset_of(old(function)@.blocks.dom()),
    ensures
        final(function).well_formed(),
        final(function)@ == pruned(old(function)@, walk@.to_set()),
{
    let ghost cfg = function@;
    let nodes = function.nodes();
    let ghost mut kept = cfg.blocks.dom();
    proof {
        function.edges_join_blocks();
        lemma_kept_all(cfg.edges, kept);
        assert(pruned(cfg, kept).blocks =~= cfg.blocks);
        assert(pruned(cfg, kept).origins =~= cfg.origins);
        assert(pruned(cfg, kept) =~= cfg);
    }
    let mut at: usize = 0;
    while at < nodes.len()
        invariant
            at <= nodes@.len(),
            function.well_formed(),
            nodes@.to_set() == cfg.blocks.dom(),
            forall|i: int, j: int| 0 <= i < j < nodes@.len() ==> nodes@[i] < nodes@[j],
            function@ == pruned(cfg, kept),
            forall|n: u32| #[trigger]
                kept.contains(n) <==> cfg.blocks.dom().contains(n) && (walk@.contains(n)
                    || exists|i: int| at <= i < nodes@.len() && nodes@[i] == n),
        decreases nodes.len() - at,
    {
        let node = nodes[at];
        let ghost held = kept;
        proof {
            assert(nodes@.to_set().contains(node));
        }
        if !has_node(walk, node) {
            let _ = function.remove_block(node);
            proof {
                kept = held.remove(node);
                lemma_avoiding_kept(cfg.edges, held, node);
                assert(cfg.blocks.restrict(held).remove(node) =~= cfg.blocks.restrict(kept));
                let before = pruned(cfg, held).origins.remove(node as u64);
                let after = pruned(cfg, kept).origins;
                assert forall|key: u64| before.dom().contains(key) == after.dom().contains(
                    key,
                ) by {
                    if exists|n: u32|
                        #[trigger] cfg.blocks.dom().contains(n) && !kept.contains(n) && n
                            == key {
                        let n = choose|n: u32|
                            #[trigger] cfg.blocks.dom().contains(n) && !kept.contains(n) && n
                                == key;
                        if n != node {
                            assert(cfg.blocks.dom().contains(n) && !held.contains(n));
                        }
                    }
                    if exists|n: u32|
                        #[trigger] cfg.blocks.dom().contains(n) && !held.contains(n) && n
                            == key {
                        let n = choose|n: u32|
                            #[trigger] cfg.blocks.dom().contains(n) && !held.contains(n) && n
                                == key;
                        assert(cfg.blocks.dom().contains(n) && !kept.contains(n));
                    }
                    assert(cfg.blocks.dom().contains(node) && !kept.contains(node));
                }
                assert(before =~= after);
                assert(function@ =~= pruned(cfg, kept));
            }
        }
        proof {
            assert forall|n: u32| #[trigger]
                kept.contains(n) <==> cfg.blocks.dom().contains(n) && (walk@.contains(n)
                    || exists|i: int| at + 1 <= i < nodes@.len() && nodes@[i] == n) by {
                if exists|i: int| at <= i < nodes@.len() && nodes@[i] == n {
                    let i = choose|i: int| at <= i < nodes@.len() && nodes@[i] == n;
                    if i > at {
                        assert(at + 1 <= i < nodes@.len() && nodes@[i] == n);
                    }
                }
                if exists|i: int| at + 1 <= i < nodes@.len() && nodes@[i] == n {
                    let i = choose|i: int| at + 1 <= i < nodes@.len() && nodes@[i] == n;
                    assert(nodes@[at as int] < nodes@[i]);
                    assert(at <= i < nodes@.len() && nodes@[i] == n);
                }
            }
        }
        at += 1;
    }
    proof {
        assert(kept =~= walk@.to_set());
    }
}

} // verus!
