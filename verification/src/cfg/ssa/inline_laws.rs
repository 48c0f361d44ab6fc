//! What it means that inlining changed nothing.

use vstd::prelude::*;

use crate::ast::local::RcLocal;
use crate::ast::nodes;
use crate::ast::nodes::{RValueView, StatementView};
use crate::cfg::block::EdgeView;
use crate::cfg::function::CfgView;
use crate::cfg::listing;
use crate::cfg::ssa::substitution;
use crate::cfg::ssa::substitution::InlineContext;
use crate::cfg::ssa::table_folding;

verus! {

broadcast use nodes::group_views;

proof fn lemma_inlined_same(
    block: Seq<StatementView>,
    at: int,
    context: InlineContext,
    changed: bool,
)
    ensures
        changed ==> substitution::inlined_from(block, at, context, changed).1,
        !substitution::inlined_from(block, at, context, changed).1 ==> substitution::inlined_from(
            block,
            at,
            context,
            changed,
        ).0 == block,
    decreases block.len() - at,
{
    if 0 <= at < block.len() {
        let live = context.singles_from(block[at].reads(), 0);
        let (next, any) = substitution::inlined_into(block, at, live, context);
        substitution::lemma_inlined_into(block, at, live, context);
        lemma_inlined_same(next, at + 1, context, changed || any);
    }
}

proof fn lemma_arguments_same(
    block: Seq<StatementView>,
    arguments: Seq<(RcLocal, RValueView)>,
    at: int,
    context: InlineContext,
    changed: bool,
)
    ensures
        ({
            let made = substitution::arguments_inlined(block, arguments, at, context, changed);
            &&& changed ==> made.2
            &&& !made.2 ==> made.0 == block && made.1 == arguments
        }),
    decreases arguments.len() - at,
{
    if 0 <= at < arguments.len() {
        let live = context.singles_from(arguments[at].1.reads(), 0);
        let (next, value, any) = substitution::argument_inlined(
            block,
            arguments[at].1,
            live,
            context,
        );
        let given = arguments.update(at, (arguments[at].0, value));
        lemma_arguments_same(next, given, at + 1, context, changed || any);
        if !any {
            assert(given =~= arguments);
        }
    }
}

/// A function whose edges have numbers of their own.
spec fn is_numbered(cfg: CfgView) -> bool {
    forall|i: int, j: int|
        0 <= i < j < cfg.edges.len() ==> (#[trigger] cfg.edges[i]).id != (
        #[trigger] cfg.edges[j]).id
}

proof fn lemma_edges_same(
    cfg: CfgView,
    node: u32,
    leaving: Seq<EdgeView>,
    at: int,
    context: InlineContext,
    changed: bool,
)
    requires
        is_numbered(cfg),
        cfg.blocks.dom().contains(node),
        forall|i: int| 0 <= i < leaving.len() ==> cfg.edges.contains(#[trigger] leaving[i]),
    ensures
        ({
            let made = crate::cfg::ssa::inline::edges_inlined(
                cfg,
                node,
                leaving,
                at,
                context,
                changed,
            );
            &&& changed ==> made.1
            &&& !made.1 ==> made.0 == cfg
        }),
    decreases leaving.len() - at,
{
    if 0 <= at < leaving.len() {
        let (block, arguments, any) = substitution::arguments_inlined(
            cfg.blocks[node],
            leaving[at].arguments,
            0,
            context,
            changed,
        );
        lemma_arguments_same(cfg.blocks[node], leaving[at].arguments, 0, context, changed);
        let next = crate::cfg::ssa::inline::with_block(cfg, node, block);
        let edges = crate::cfg::ssa::inline::with_arguments(cfg.edges, leaving[at].id, arguments);
        let after = CfgView { edges, ..next };
        if !any {
            assert(cfg.blocks.insert(node, block) =~= cfg.blocks);
            assert forall|i: int| 0 <= i < cfg.edges.len() implies edges[i] == cfg.edges[i] by {
                if cfg.edges[i].id == leaving[at].id {
                    assert(cfg.edges.contains(leaving[at]));
                    let j = choose|j: int|
                        0 <= j < cfg.edges.len() && cfg.edges[j] == leaving[at];
                    if i < j {
                        assert(cfg.edges[i].id != cfg.edges[j].id);
                    } else if j < i {
                        assert(cfg.edges[j].id != cfg.edges[i].id);
                    }
                }
            }
            assert(edges =~= cfg.edges);
            assert(after =~= cfg);
            lemma_edges_same(after, node, leaving, at + 1, context, any);
        } else {
            lemma_edges_told(after, node, leaving, at + 1, context);
        }
    }
}

/// Once something changed, that is told.
proof fn lemma_edges_told(
    cfg: CfgView,
    node: u32,
    leaving: Seq<EdgeView>,
    at: int,
    context: InlineContext,
)
    ensures
        crate::cfg::ssa::inline::edges_inlined(cfg, node, leaving, at, context, true).1,
    decreases leaving.len() - at,
{
    if 0 <= at < leaving.len() {
        let (block, arguments, any) = substitution::arguments_inlined(
            cfg.blocks[node],
            leaving[at].arguments,
            0,
            context,
            true,
        );
        lemma_arguments_same(cfg.blocks[node], leaving[at].arguments, 0, context, true);
        let next = crate::cfg::ssa::inline::with_block(cfg, node, block);
        let edges = crate::cfg::ssa::inline::with_arguments(cfg.edges, leaving[at].id, arguments);
        lemma_edges_told(CfgView { edges, ..next }, node, leaving, at + 1, context);
    }
}

proof fn lemma_node_told(cfg: CfgView, nodes: Seq<u32>, from: int, context: InlineContext)
    ensures
        crate::cfg::ssa::inline::nodes_inlined(cfg, nodes, from, context, true).1,
    decreases nodes.len() - from,
{
    if 0 <= from < nodes.len() {
        let node = nodes[from];
        let (block, any) = substitution::inlined_from(cfg.blocks[node], 0, context, true);
        lemma_inlined_same(cfg.blocks[node], 0, context, true);
        lemma_edges_told(
            crate::cfg::ssa::inline::with_block(cfg, node, block),
            node,
            EdgeView::leaving(cfg.edges, node),
            0,
            context,
        );
        let (next, told) = crate::cfg::ssa::inline::node_inlined(cfg, node, context, true);
        lemma_node_told(next, nodes, from + 1, context);
    }
}

proof fn lemma_nodes_same(cfg: CfgView, nodes: Seq<u32>, from: int, context: InlineContext)
    requires
        is_numbered(cfg),
        0 <= from,
        forall|i: int| 0 <= i < nodes.len() ==> cfg.blocks.dom().contains(#[trigger] nodes[i]),
    ensures
        !crate::cfg::ssa::inline::nodes_inlined(cfg, nodes, from, context, false).1
            ==> crate::cfg::ssa::inline::nodes_inlined(cfg, nodes, from, context, false).0 == cfg,
    decreases nodes.len() - from,
{
    if from < nodes.len() {
        let node = nodes[from];
        let leaving = EdgeView::leaving(cfg.edges, node);
        let (block, any) = substitution::inlined_from(cfg.blocks[node], 0, context, false);
        lemma_inlined_same(cfg.blocks[node], 0, context, false);
        let middle = crate::cfg::ssa::inline::with_block(cfg, node, block);
        let (next, told) = crate::cfg::ssa::inline::node_inlined(cfg, node, context, false);
        if any {
            lemma_edges_told(middle, node, leaving, 0, context);
        } else {
            assert(cfg.blocks.insert(node, block) =~= cfg.blocks);
            assert(middle =~= cfg);
            assert forall|i: int| 0 <= i < leaving.len() implies cfg.edges.contains(
                #[trigger] leaving[i],
            ) by {
                EdgeView::leaving_edges(cfg.edges, node, leaving[i]);
                assert(leaving.contains(leaving[i]));
            }
            lemma_edges_same(cfg, node, leaving, 0, context, false);
        }
        if told {
            lemma_node_told(next, nodes, from + 1, context);
        } else {
            lemma_nodes_same(cfg, nodes, from + 1, context);
        }
    }
}

proof fn lemma_spent_same(
    block: Seq<StatementView>,
    at: int,
    context: InlineContext,
    changed: bool,
)
    ensures
        ({
            let made = crate::cfg::ssa::inline::spent_from(block, at, context, changed);
            &&& changed ==> made.1
            &&& !made.1 ==> made.0 == block
        }),
    decreases block.len() - at,
{
    if 0 <= at < block.len() {
        match crate::cfg::ssa::inline::spent(block[at], context) {
            Some(left) => lemma_spent_same(block.update(at, left), at + 1, context, true),
            None => lemma_spent_same(block, at + 1, context, changed),
        }
    }
}

proof fn lemma_nodes_spent_same(
    cfg: CfgView,
    nodes: Seq<u32>,
    from: int,
    context: InlineContext,
    changed: bool,
)
    requires
        0 <= from,
        forall|i: int| 0 <= i < nodes.len() ==> cfg.blocks.dom().contains(#[trigger] nodes[i]),
    ensures
        ({
            let made = crate::cfg::ssa::inline::nodes_spent(cfg, nodes, from, context, changed);
            &&& cfg.blocks.dom().subset_of(made.0.blocks.dom())
            &&& changed ==> made.1
            &&& !made.1 ==> made.0 == cfg
        }),
    decreases nodes.len() - from,
{
    if from < nodes.len() {
        let node = nodes[from];
        let (block, any) = crate::cfg::ssa::inline::spent_from(
            cfg.blocks[node],
            0,
            context,
            changed,
        );
        lemma_spent_same(cfg.blocks[node], 0, context, changed);
        let next = crate::cfg::ssa::inline::with_block(cfg, node, block);
        assert forall|i: int| 0 <= i < nodes.len() implies next.blocks.dom().contains(
            #[trigger] nodes[i],
        ) by {}
        lemma_nodes_spent_same(next, nodes, from + 1, context, any);
        if !any {
            assert(cfg.blocks.insert(node, block) =~= cfg.blocks);
            assert(next =~= cfg);
        }
    }
}

proof fn lemma_absorbed_same(
    block: Seq<StatementView>,
    at: int,
    object: RcLocal,
    observable: Set<u64>,
    folded: nat,
)
    ensures
        ({
            let made = table_folding::absorbed(block, at, object, observable, folded);
            &&& made.1 >= folded
            &&& made.1 == folded ==> made.0 == block
        }),
    decreases block.len(),
{
    if 0 <= at && at + 1 < block.len() {
        match (
            table_folding::field_write(block[at + 1], object),
            table_folding::table_assign(block[at]),
        ) {
            (Some((key, value)), Some((_, fields))) => {
                if !table_folding::is_observed(observable, object, key, value) {
                    lemma_absorbed_same(
                        block.update(
                            at,
                            table_folding::with_fields(
                                block[at],
                                fields.push((Some(key), value)),
                            ),
                        ).remove(at + 1),
                        at,
                        object,
                        observable,
                        folded + 1,
                    );
                }
            },
            _ => {},
        }
    }
}

proof fn lemma_fields_same(
    block: Seq<StatementView>,
    at: int,
    observable: Set<u64>,
    folded: nat,
)
    ensures
        ({
            let made = table_folding::fields_folded(block, at, observable, folded);
            &&& made.1 >= folded
            &&& made.1 == folded ==> made.0 == block
        }),
    decreases block.len() - at,
{
    if 0 <= at < block.len() {
        let (next, count) = match table_folding::table_assign(block[at]) {
            Some((object, fields)) => if table_folding::has_open_tail(fields) {
                (block, folded)
            } else {
                table_folding::absorbed(block, at, object, observable, folded)
            },
            None => (block, folded),
        };
        match table_folding::table_assign(block[at]) {
            Some((object, fields)) => {
                table_folding::lemma_absorbed(block, at, object, observable, folded);
                lemma_absorbed_same(block, at, object, observable, folded);
            },
            None => {},
        }
        lemma_fields_same(next, at + 1, observable, count);
    }
}

proof fn lemma_batches_same(
    block: Seq<StatementView>,
    at: int,
    usages: Map<u64, usize>,
    folded: nat,
)
    ensures
        ({
            let made = table_folding::batches_folded(block, at, usages, folded);
            &&& made.2 >= folded
            &&& made.2 == folded ==> made.0 == block && made.1 == usages
        }),
    decreases block.len() - at,
{
    if 0 <= at < block.len() {
        match table_folding::batch_folded(block, at, usages) {
            Some((next, fewer)) => {
                table_folding::lemma_batch_folded(block, at, usages);
                lemma_batches_same(next, at + 1, fewer, folded + 1);
            },
            None => lemma_batches_same(block, at + 1, usages, folded),
        }
    }
}

/// Statements without empty ones have no more to lose.
proof fn lemma_retained_twice(block: Seq<StatementView>, from: int)
    requires
        0 <= from,
    ensures
        forall|i: int|
            0 <= i < crate::cfg::ssa::inline::retained_from(block, from).len() ==> !(
            #[trigger] crate::cfg::ssa::inline::retained_from(block, from)[i] is Empty),
    decreases block.len() - from,
{
    if from < block.len() {
        lemma_retained_twice(block, from + 1);
    }
}

proof fn lemma_retained_all(block: Seq<StatementView>, from: int)
    requires
        0 <= from <= block.len(),
        forall|i: int| 0 <= i < block.len() ==> !(#[trigger] block[i] is Empty),
    ensures
        crate::cfg::ssa::inline::retained_from(block, from) == block.skip(from),
    decreases block.len() - from,
{
    if from < block.len() {
        lemma_retained_all(block, from + 1);
        assert(seq![block[from]] + block.skip(from + 1) =~= block.skip(from));
    } else {
        assert(block.skip(from) =~= Seq::empty());
    }
}

/// Blocks without their empty statements, for the nodes from position `from` on.
spec fn is_thinned(after: CfgView, cfg: CfgView, nodes: Seq<u32>, from: int) -> bool {
    &&& after == (CfgView { blocks: after.blocks, ..cfg })
    &&& after.blocks.dom() == cfg.blocks.dom()
    &&& forall|i: int|
        from <= i < nodes.len() ==> after.blocks[#[trigger] nodes[i]]
            == crate::cfg::ssa::inline::retained_from(cfg.blocks[nodes[i]], 0)
    &&& forall|node: u32|
        (forall|i: int| from <= i < nodes.len() ==> nodes[i] != node)
            ==> #[trigger] after.blocks[node] == cfg.blocks[node]
}

proof fn lemma_nodes_folded_same(
    cfg: CfgView,
    nodes: Seq<u32>,
    from: int,
    usages: Map<u64, usize>,
    observable: Set<u64>,
    changed: bool,
)
    requires
        0 <= from,
        nodes.no_duplicates(),
        forall|i: int| 0 <= i < nodes.len() ==> cfg.blocks.dom().contains(#[trigger] nodes[i]),
    ensures
        ({
            let made = crate::cfg::ssa::inline::nodes_folded(
                cfg,
                nodes,
                from,
                usages,
                observable,
                changed,
            );
            &&& changed ==> made.2
            &&& !made.2 ==> is_thinned(made.0, cfg, nodes, from)
        }),
    decreases nodes.len() - from,
{
    if from < nodes.len() {
        let node = nodes[from];
        let thin = crate::cfg::ssa::inline::retained_from(cfg.blocks[node], 0);
        let (block, fewer, count) = crate::cfg::ssa::inline::block_folded(
            cfg.blocks[node],
            usages,
            observable,
        );
        lemma_fields_same(thin, 0, observable, 0);
        let (first, some) = table_folding::fields_folded(thin, 0, observable, 0);
        lemma_batches_same(first, 0, usages, 0);
        let next = crate::cfg::ssa::inline::with_block(cfg, node, block);
        assert forall|i: int| 0 <= i < nodes.len() implies next.blocks.dom().contains(
            #[trigger] nodes[i],
        ) by {}
        lemma_nodes_folded_same(next, nodes, from + 1, fewer, observable, changed || count > 0);
        let made = crate::cfg::ssa::inline::nodes_folded(
            cfg,
            nodes,
            from,
            usages,
            observable,
            changed,
        );
        if !made.2 {
            assert(block == thin);
            assert forall|i: int| from <= i < nodes.len() implies made.0.blocks[
                #[trigger] nodes[i]] == crate::cfg::ssa::inline::retained_from(
                cfg.blocks[nodes[i]],
                0,
            ) by {
                if i == from {
                    assert forall|j: int| from + 1 <= j < nodes.len() implies nodes[j] != node by {
                        assert(nodes[j] != nodes[from]);
                    }
                } else {
                    assert(nodes[i] != nodes[from]);
                }
            }
            assert forall|other: u32|
                (forall|i: int| from <= i < nodes.len() ==> nodes[i] != other) implies
                #[trigger] made.0.blocks[other] == cfg.blocks[other] by {
                assert(nodes[from] != other);
            }
            assert(made.0.blocks.dom() =~= cfg.blocks.dom());
        }
    } else {
        assert(cfg =~= (CfgView { blocks: cfg.blocks, ..cfg }));
    }
}

proof fn lemma_nodes_thin(cfg: CfgView, nodes: Seq<u32>, from: int)
    requires
        0 <= from,
        forall|i: int|
            from <= i < nodes.len() ==> cfg.blocks.dom().contains(#[trigger] nodes[i])
                && crate::cfg::ssa::inline::retained_from(cfg.blocks[nodes[i]], 0)
                == cfg.blocks[nodes[i]],
    ensures
        crate::cfg::ssa::inline::nodes_retained(cfg, nodes, from) == cfg,
    decreases nodes.len() - from,
{
    if from < nodes.len() {
        let node = nodes[from];
        assert(cfg.blocks.insert(node, cfg.blocks[node]) =~= cfg.blocks);
        let next = crate::cfg::ssa::inline::with_block(cfg, node, cfg.blocks[node]);
        assert(next =~= cfg);
        lemma_nodes_thin(cfg, nodes, from + 1);
    }
}

proof fn lemma_rounds_told(
    cfg: CfgView,
    nodes: Seq<u32>,
    context: InlineContext,
    observable: Set<u64>,
)
    ensures
        crate::cfg::ssa::inline::rounds(cfg, nodes, context, observable, true).1,
    decreases crate::cfg::ssa::inline::total_from(cfg, nodes, 0),
{
    let (next, fewer, taken, gone) = crate::cfg::ssa::inline::round(
        cfg,
        nodes,
        context,
        observable,
    );
    if gone {
        crate::cfg::ssa::inline::lemma_round(cfg, nodes, context, observable);
        lemma_rounds_told(
            next,
            nodes,
            InlineContext { usages: fewer, ..context },
            observable,
        );
    }
}

/// Where inlining tells of no change, every block is as it was but for empty
/// statements, and so is everything else.
pub proof fn no_change_leaves_the_function(
    cfg: CfgView,
    groups: Map<u64, usize>,
    entries: Seq<(u64, u64)>,
)
    requires
        cfg.blocks.dom().finite(),
        forall|i: int, j: int|
            0 <= i < j < cfg.edges.len() ==> (#[trigger] cfg.edges[i]).id != (
            #[trigger] cfg.edges[j]).id,
        !crate::cfg::ssa::inline::inlined_function(cfg, groups, entries).1,
    ensures
        ({
            let after = crate::cfg::ssa::inline::inlined_function(cfg, groups, entries).0;
            &&& after == (CfgView { blocks: after.blocks, ..cfg })
            &&& after.blocks.dom() == cfg.blocks.dom()
            &&& forall|node: u32|
                cfg.blocks.dom().contains(node) ==> #[trigger] after.blocks[node]
                    == crate::cfg::ssa::inline::retained_from(cfg.blocks[node], 0)
        }),
{
    let nodes = listing::listing(cfg.blocks.dom());
    listing::lemma_has_listing(cfg.blocks.dom());
    let reads = crate::cfg::ssa::inline::node_reads_from(cfg, nodes, 0);
    let context = InlineContext {
        usages: crate::cfg::ssa::inline::occurrences(reads, reads.len() as int),
        groups,
        upvalues: crate::cfg::ssa::inline::keys_of(entries),
    };
    let observable = crate::cfg::ssa::inline::observable_locals(entries, groups);
    assert forall|i: int| 0 <= i < nodes.len() implies cfg.blocks.dom().contains(
        #[trigger] nodes[i],
    ) by {
        assert(nodes.to_set().contains(nodes[i]));
    }
    assert(nodes.no_duplicates());
    let (next, fewer, taken, gone) = crate::cfg::ssa::inline::round(
        cfg,
        nodes,
        context,
        observable,
    );
    if gone {
        crate::cfg::ssa::inline::lemma_round(cfg, nodes, context, observable);
        lemma_rounds_told(
            next,
            nodes,
            InlineContext { usages: fewer, ..context },
            observable,
        );
    }
    lemma_nodes_same(cfg, nodes, 0, context);
    lemma_nodes_spent_same(cfg, nodes, 0, context, false);
    let (second, unread) = crate::cfg::ssa::inline::nodes_spent(cfg, nodes, 0, context, false);
    assert forall|i: int| 0 <= i < nodes.len() implies second.blocks.dom().contains(
        #[trigger] nodes[i],
    ) by {
        assert(cfg.blocks.dom().contains(nodes[i]));
    }
    lemma_nodes_folded_same(second, nodes, 0, context.usages, observable, unread);
    assert(is_thinned(next, cfg, nodes, 0));
    assert forall|i: int| 0 <= i < nodes.len() implies next.blocks.dom().contains(
        #[trigger] nodes[i],
    ) && crate::cfg::ssa::inline::retained_from(next.blocks[nodes[i]], 0)
        == next.blocks[nodes[i]] by {
        let thin = next.blocks[nodes[i]];
        lemma_retained_twice(cfg.blocks[nodes[i]], 0);
        lemma_retained_all(thin, 0);
        assert(thin.skip(0) =~= thin);
    }
    lemma_nodes_thin(next, nodes, 0);
    assert forall|node: u32| cfg.blocks.dom().contains(node) implies #[trigger] next.blocks[node]
        == crate::cfg::ssa::inline::retained_from(cfg.blocks[node], 0) by {
        assert(nodes.to_set().contains(node));
        let i = choose|i: int| 0 <= i < nodes.len() && nodes[i] == node;
        assert(nodes[i] == node);
    }
}

} // verus!
