//! Taking values to where they are read, and dropping what is left unread.

use vstd::prelude::*;

use rustc_hash::{FxHashMap, FxHashSet};

use crate::ast::local::RcLocal;
use crate::ast::nodes;
use crate::ast::nodes::{
    Block, Empty, LValueView, RValue, RValueView, Select, SelectView, Statement, StatementView,
};
use crate::cfg::block::{BlockEdge, EdgeView};
use crate::cfg::function::{CfgView, EdgeReference, Function};
use crate::cfg::graph::NodeId;
use crate::cfg::listing;
use crate::cfg::ssa::substitution;
use crate::cfg::ssa::substitution::{InlineContext, Inliner};
use crate::cfg::ssa::table_folding;
use crate::cfg::ssa::table_folding::{fold_set_lists, fold_table_fields};
use crate::collections::{
    empty_map, empty_set, entry_keys, find_entry, has_member, insert_entry, insert_member,
    list_entries, OrderedMap,
};

verus! {

broadcast use nodes::group_views;

/// Edges with other arguments for the one with a number.
pub open spec fn with_arguments(
    edges: Seq<EdgeView>,
    id: u32,
    arguments: Seq<(RcLocal, RValueView)>,
) -> Seq<EdgeView> {
    edges.map_values(
        |edge: EdgeView|
            if edge.id == id {
                EdgeView { arguments, ..edge }
            } else {
                edge
            },
    )
}

/// A function with another block for a node.
pub open spec fn with_block(cfg: CfgView, node: u32, block: Seq<StatementView>) -> CfgView {
    CfgView { blocks: cfg.blocks.insert(node, block), ..cfg }
}

/// A function with the values of the arguments of a node's edges taken from its
/// block; and whether any was.
pub open spec fn edges_inlined(
    cfg: CfgView,
    node: u32,
    leaving: Seq<EdgeView>,
    at: int,
    context: InlineContext,
    changed: bool,
) -> (CfgView, bool)
    decreases leaving.len() - at,
{
    if 0 <= at < leaving.len() {
        let (block, arguments, any) = substitution::arguments_inlined(
            cfg.blocks[node],
            leaving[at].arguments,
            0,
            context,
            changed,
        );
        let next = with_block(cfg, node, block);
        edges_inlined(
            CfgView { edges: with_arguments(cfg.edges, leaving[at].id, arguments), ..next },
            node,
            leaving,
            at + 1,
            context,
            any,
        )
    } else {
        (cfg, changed)
    }
}

/// A function with the values of a node's block and edges taken from the block.
pub open spec fn node_inlined(
    cfg: CfgView,
    node: u32,
    context: InlineContext,
    changed: bool,
) -> (CfgView, bool) {
    let (block, any) = substitution::inlined_from(cfg.blocks[node], 0, context, changed);
    edges_inlined(
        with_block(cfg, node, block),
        node,
        EdgeView::leaving(cfg.edges, node),
        0,
        context,
        any,
    )
}

/// A function with the values of the nodes from position `from` on taken from
/// their blocks.
pub open spec fn nodes_inlined(
    cfg: CfgView,
    nodes: Seq<u32>,
    from: int,
    context: InlineContext,
    changed: bool,
) -> (CfgView, bool)
    decreases nodes.len() - from,
{
    if 0 <= from < nodes.len() {
        let (next, any) = node_inlined(cfg, nodes[from], context, changed);
        nodes_inlined(next, nodes, from + 1, context, any)
    } else {
        (cfg, changed)
    }
}

/// Whether nothing reads a local, and nothing holds it by reference.
pub open spec fn is_unread(context: InlineContext, local: RcLocal) -> bool {
    !context.upvalues.contains(local.id) && (!context.usages.dom().contains(local.id)
        || context.usages[local.id] == 0)
}

/// What is left of an assignment to a local that nothing reads: its call, or
/// nothing. `None` where the assignment stays.
pub open spec fn spent(statement: StatementView, context: InlineContext) -> Option<StatementView> {
    match statement {
        StatementView::Assign(assign) => if assign.left.len() == 1 && assign.right.len() == 1 {
            match assign.left[0] {
                LValueView::Local(local) => if !is_unread(context, local) {
                    None
                } else if !assign.right[0].has_side_effects() {
                    Some(StatementView::Empty)
                } else {
                    match assign.right[0] {
                        RValueView::Call(call) => Some(StatementView::Call(call)),
                        RValueView::MethodCall(call) => Some(StatementView::MethodCall(call)),
                        RValueView::Select(SelectView::Call(call)) => Some(
                            StatementView::Call(call),
                        ),
                        RValueView::Select(SelectView::MethodCall(call)) => Some(
                            StatementView::MethodCall(call),
                        ),
                        _ => None,
                    }
                },
                _ => None,
            }
        } else {
            None
        },
        _ => None,
    }
}

/// A block without the assignments from position `at` on to locals that nothing
/// reads.
pub open spec fn spent_from(
    block: Seq<StatementView>,
    at: int,
    context: InlineContext,
    changed: bool,
) -> (Seq<StatementView>, bool)
    decreases block.len() - at,
{
    if 0 <= at < block.len() {
        match spent(block[at], context) {
            Some(left) => spent_from(block.update(at, left), at + 1, context, true),
            None => spent_from(block, at + 1, context, changed),
        }
    } else {
        (block, changed)
    }
}

/// A function without the assignments in the nodes from position `from` on to
/// locals that nothing reads.
pub open spec fn nodes_spent(
    cfg: CfgView,
    nodes: Seq<u32>,
    from: int,
    context: InlineContext,
    changed: bool,
) -> (CfgView, bool)
    decreases nodes.len() - from,
{
    if 0 <= from < nodes.len() {
        let (block, any) = spent_from(cfg.blocks[nodes[from]], 0, context, changed);
        nodes_spent(with_block(cfg, nodes[from], block), nodes, from + 1, context, any)
    } else {
        (cfg, changed)
    }
}

/// The statements from position `from` on that are not empty.
pub open spec fn retained_from(block: Seq<StatementView>, from: int) -> Seq<StatementView>
    decreases block.len() - from,
{
    if 0 <= from < block.len() {
        let rest = retained_from(block, from + 1);
        if block[from] is Empty {
            rest
        } else {
            seq![block[from]] + rest
        }
    } else {
        Seq::empty()
    }
}

/// A block without its empty statements, and with what is stored in fresh
/// tables in their constructors; the count of reads then; and how much was
/// stored.
pub open spec fn block_folded(
    block: Seq<StatementView>,
    usages: Map<u64, usize>,
    observable: Set<u64>,
) -> (Seq<StatementView>, Map<u64, usize>, nat) {
    let (first, some) = table_folding::fields_folded(
        retained_from(block, 0),
        0,
        observable,
        0,
    );
    let (second, fewer, more) = table_folding::batches_folded(first, 0, usages, 0);
    (second, fewer, some + more)
}

/// A function with the blocks of the nodes from position `from` on folded.
pub open spec fn nodes_folded(
    cfg: CfgView,
    nodes: Seq<u32>,
    from: int,
    usages: Map<u64, usize>,
    observable: Set<u64>,
    changed: bool,
) -> (CfgView, Map<u64, usize>, bool)
    decreases nodes.len() - from,
{
    if 0 <= from < nodes.len() {
        let (block, fewer, count) = block_folded(cfg.blocks[nodes[from]], usages, observable);
        nodes_folded(
            with_block(cfg, nodes[from], block),
            nodes,
            from + 1,
            fewer,
            observable,
            changed || count > 0,
        )
    } else {
        (cfg, usages, changed)
    }
}

/// A function with the empty statements of the nodes from position `from` on
/// taken out.
pub open spec fn nodes_retained(cfg: CfgView, nodes: Seq<u32>, from: int) -> CfgView
    decreases nodes.len() - from,
{
    if 0 <= from < nodes.len() {
        nodes_retained(
            with_block(cfg, nodes[from], retained_from(cfg.blocks[nodes[from]], 0)),
            nodes,
            from + 1,
        )
    } else {
        cfg
    }
}

/// What one round leaves: the function, the count of reads, whether a value was
/// taken, and whether a statement went.
pub open spec fn round(
    cfg: CfgView,
    nodes: Seq<u32>,
    context: InlineContext,
    observable: Set<u64>,
) -> (CfgView, Map<u64, usize>, bool, bool) {
    let (first, taken) = nodes_inlined(cfg, nodes, 0, context, false);
    let (second, unread) = nodes_spent(first, nodes, 0, context, false);
    let (third, fewer, gone) = nodes_folded(
        second,
        nodes,
        0,
        context.usages,
        observable,
        unread,
    );
    (third, fewer, taken, gone)
}

/// What rounds leave until no statement goes in one; and whether any changed
/// the function.
pub open spec fn rounds(
    cfg: CfgView,
    nodes: Seq<u32>,
    context: InlineContext,
    observable: Set<u64>,
    changed: bool,
) -> (CfgView, bool)
    decreases total_from(cfg, nodes, 0),
{
    let (next, fewer, taken, gone) = round(cfg, nodes, context, observable);
    if gone {
        proof {
            lemma_round(cfg, nodes, context, observable);
        }
        rounds(next, nodes, InlineContext { usages: fewer, ..context }, observable, true)
    } else {
        (next, changed || taken)
    }
}

/// How much is left to do in the nodes from position `from` on.
pub open spec fn total_from(cfg: CfgView, nodes: Seq<u32>, from: int) -> nat
    decreases nodes.len() - from,
{
    if 0 <= from < nodes.len() {
        substitution::weight_from(cfg.blocks[nodes[from]], 0) + total_from(cfg, nodes, from + 1)
    } else {
        0
    }
}

/// How much is left to do in a node.
spec fn node_weight(cfg: CfgView, node: u32) -> nat {
    substitution::weight_from(cfg.blocks[node], 0)
}

/// Whether no node of a function has more left to do than in another.
spec fn is_no_heavier(after: CfgView, before: CfgView) -> bool {
    forall|node: u32| #[trigger] node_weight(after, node) <= node_weight(before, node)
}

/// Whether one of the nodes from position `from` on has less left to do.
spec fn is_lighter(after: CfgView, before: CfgView, nodes: Seq<u32>, from: int) -> bool {
    exists|i: int|
        from <= i < nodes.len() && #[trigger] node_weight(after, nodes[i]) < node_weight(
            before,
            nodes[i],
        )
}

proof fn lemma_total(after: CfgView, before: CfgView, nodes: Seq<u32>, from: int)
    requires
        0 <= from,
        is_no_heavier(after, before),
    ensures
        total_from(after, nodes, from) <= total_from(before, nodes, from),
        is_lighter(after, before, nodes, from) ==> total_from(after, nodes, from) < total_from(
            before,
            nodes,
            from,
        ),
    decreases nodes.len() - from,
{
    if from < nodes.len() {
        lemma_total(after, before, nodes, from + 1);
        assert(node_weight(after, nodes[from]) <= node_weight(before, nodes[from]));
        if is_lighter(after, before, nodes, from) {
            let i = choose|i: int|
                from <= i < nodes.len() && #[trigger] node_weight(after, nodes[i]) < node_weight(
                    before,
                    nodes[i],
                );
            if i > from {
                assert(is_lighter(after, before, nodes, from + 1));
            }
        }
    }
}

proof fn lemma_edges_inlined(
    cfg: CfgView,
    node: u32,
    leaving: Seq<EdgeView>,
    at: int,
    context: InlineContext,
    changed: bool,
)
    requires
        0 <= at,
    ensures
        is_no_heavier(edges_inlined(cfg, node, leaving, at, context, changed).0, cfg),
    decreases leaving.len() - at,
{
    if at < leaving.len() {
        let (block, arguments, any) = substitution::arguments_inlined(
            cfg.blocks[node],
            leaving[at].arguments,
            0,
            context,
            changed,
        );
        substitution::lemma_arguments_inlined(
            cfg.blocks[node],
            leaving[at].arguments,
            0,
            context,
            changed,
        );
        let next = with_block(cfg, node, block);
        let both = CfgView {
            edges: with_arguments(cfg.edges, leaving[at].id, arguments),
            ..next
        };
        assert(is_no_heavier(both, cfg));
        lemma_edges_inlined(both, node, leaving, at + 1, context, any);
        let last = edges_inlined(both, node, leaving, at + 1, context, any).0;
        assert forall|n: u32| #[trigger] node_weight(last, n) <= node_weight(cfg, n) by {
            assert(node_weight(last, n) <= node_weight(both, n));
            assert(node_weight(both, n) <= node_weight(cfg, n));
        }
    }
}

proof fn lemma_nodes_inlined(
    cfg: CfgView,
    nodes: Seq<u32>,
    from: int,
    context: InlineContext,
    changed: bool,
)
    requires
        0 <= from,
    ensures
        is_no_heavier(nodes_inlined(cfg, nodes, from, context, changed).0, cfg),
    decreases nodes.len() - from,
{
    if from < nodes.len() {
        let node = nodes[from];
        let (block, some) = substitution::inlined_from(cfg.blocks[node], 0, context, changed);
        substitution::lemma_inlined_from(cfg.blocks[node], 0, context, changed);
        let first = with_block(cfg, node, block);
        assert(is_no_heavier(first, cfg));
        lemma_edges_inlined(
            first,
            node,
            EdgeView::leaving(cfg.edges, node),
            0,
            context,
            some,
        );
        let (next, any) = node_inlined(cfg, node, context, changed);
        lemma_nodes_inlined(next, nodes, from + 1, context, any);
        let last = nodes_inlined(next, nodes, from + 1, context, any).0;
        assert forall|n: u32| #[trigger] node_weight(last, n) <= node_weight(cfg, n) by {
            assert(node_weight(last, n) <= node_weight(next, n));
            assert(node_weight(next, n) <= node_weight(first, n));
            assert(node_weight(first, n) <= node_weight(cfg, n));
        }
    }
}

proof fn lemma_spent_from(
    block: Seq<StatementView>,
    at: int,
    context: InlineContext,
    changed: bool,
)
    requires
        0 <= at,
    ensures
        ({
            let (after, any) = spent_from(block, at, context, changed);
            substitution::weight_from(after, 0) + (if any && !changed {
                1nat
            } else {
                0nat
            }) <= substitution::weight_from(block, 0)
        }),
        changed ==> spent_from(block, at, context, changed).1,
    decreases block.len() - at,
{
    if at < block.len() {
        match spent(block[at], context) {
            Some(left) => {
                substitution::lemma_weight_update(block, 0, at, left);
                lemma_spent_from(block.update(at, left), at + 1, context, true);
            },
            None => lemma_spent_from(block, at + 1, context, changed),
        }
    }
}

proof fn lemma_nodes_spent(
    cfg: CfgView,
    nodes: Seq<u32>,
    from: int,
    context: InlineContext,
    changed: bool,
)
    requires
        0 <= from,
    ensures
        is_no_heavier(nodes_spent(cfg, nodes, from, context, changed).0, cfg),
        nodes_spent(cfg, nodes, from, context, changed).1 && !changed ==> is_lighter(
            nodes_spent(cfg, nodes, from, context, changed).0,
            cfg,
            nodes,
            from,
        ),
    decreases nodes.len() - from,
{
    if from < nodes.len() {
        let node = nodes[from];
        let (block, any) = spent_from(cfg.blocks[node], 0, context, changed);
        lemma_spent_from(cfg.blocks[node], 0, context, changed);
        let next = with_block(cfg, node, block);
        assert(is_no_heavier(next, cfg));
        lemma_nodes_spent(next, nodes, from + 1, context, any);
        let (last, all) = nodes_spent(next, nodes, from + 1, context, any);
        assert forall|n: u32| #[trigger] node_weight(last, n) <= node_weight(cfg, n) by {
            assert(node_weight(last, n) <= node_weight(next, n));
            assert(node_weight(next, n) <= node_weight(cfg, n));
        }
        if all && !changed {
            if any {
                assert(node_weight(next, nodes[from]) < node_weight(cfg, nodes[from]));
                assert(node_weight(last, nodes[from]) <= node_weight(next, nodes[from]));
            } else {
                let i = choose|i: int|
                    from + 1 <= i < nodes.len() && #[trigger] node_weight(last, nodes[i])
                        < node_weight(next, nodes[i]);
                assert(node_weight(next, nodes[i]) <= node_weight(cfg, nodes[i]));
            }
        }
    }
}

proof fn lemma_weight_concat(a: Seq<StatementView>, b: Seq<StatementView>, from: int)
    requires
        0 <= from <= a.len(),
    ensures
        substitution::weight_from(a + b, from) == substitution::weight_from(a, from)
            + substitution::weight_from(b, 0),
    decreases a.len() - from,
{
    if from < a.len() {
        lemma_weight_concat(a, b, from + 1);
    } else {
        lemma_weight_suffix(a, b, 0);
    }
}

proof fn lemma_weight_suffix(a: Seq<StatementView>, b: Seq<StatementView>, from: int)
    requires
        0 <= from <= b.len(),
    ensures
        substitution::weight_from(a + b, a.len() + from) == substitution::weight_from(b, from),
    decreases b.len() - from,
{
    if from < b.len() {
        lemma_weight_suffix(a, b, from + 1);
        assert((a + b)[a.len() + from] == b[from]);
    }
}

proof fn lemma_retained(block: Seq<StatementView>, from: int)
    requires
        0 <= from,
    ensures
        substitution::weight_from(retained_from(block, from), 0) == substitution::weight_from(
            block,
            from,
        ),
    decreases block.len() - from,
{
    if from < block.len() {
        lemma_retained(block, from + 1);
        if !(block[from] is Empty) {
            let one = seq![block[from]];
            lemma_weight_concat(one, retained_from(block, from + 1), 0);
            assert(substitution::weight_from(one, 1) == 0);
            assert(substitution::weight_from(one, 0) == substitution::weight(block[from]));
        }
    }
}

proof fn lemma_block_folded(
    block: Seq<StatementView>,
    usages: Map<u64, usize>,
    observable: Set<u64>,
)
    ensures
        ({
            let (after, _, count) = block_folded(block, usages, observable);
            substitution::weight_from(after, 0) + count <= substitution::weight_from(block, 0)
        }),
{
    lemma_retained(block, 0);
    let (first, some) = table_folding::fields_folded(
        retained_from(block, 0),
        0,
        observable,
        0,
    );
    table_folding::lemma_fields_folded(retained_from(block, 0), 0, observable, 0);
    table_folding::lemma_batches_folded(first, 0, usages, 0);
}

proof fn lemma_nodes_folded(
    cfg: CfgView,
    nodes: Seq<u32>,
    from: int,
    usages: Map<u64, usize>,
    observable: Set<u64>,
    changed: bool,
)
    requires
        0 <= from,
    ensures
        is_no_heavier(nodes_folded(cfg, nodes, from, usages, observable, changed).0, cfg),
        nodes_folded(cfg, nodes, from, usages, observable, changed).2 && !changed ==> is_lighter(
            nodes_folded(cfg, nodes, from, usages, observable, changed).0,
            cfg,
            nodes,
            from,
        ),
    decreases nodes.len() - from,
{
    if from < nodes.len() {
        let node = nodes[from];
        let (block, fewer, count) = block_folded(cfg.blocks[node], usages, observable);
        lemma_block_folded(cfg.blocks[node], usages, observable);
        let any = changed || count > 0;
        let next = with_block(cfg, node, block);
        assert(is_no_heavier(next, cfg));
        lemma_nodes_folded(next, nodes, from + 1, fewer, observable, any);
        let (last, _, all) = nodes_folded(next, nodes, from + 1, fewer, observable, any);
        assert forall|n: u32| #[trigger] node_weight(last, n) <= node_weight(cfg, n) by {
            assert(node_weight(last, n) <= node_weight(next, n));
            assert(node_weight(next, n) <= node_weight(cfg, n));
        }
        if all && !changed {
            if any {
                assert(node_weight(next, nodes[from]) < node_weight(cfg, nodes[from]));
                assert(node_weight(last, nodes[from]) <= node_weight(next, nodes[from]));
            } else {
                let i = choose|i: int|
                    from + 1 <= i < nodes.len() && #[trigger] node_weight(last, nodes[i])
                        < node_weight(next, nodes[i]);
                assert(node_weight(next, nodes[i]) <= node_weight(cfg, nodes[i]));
            }
        }
    }
}

/// A round in which a statement goes leaves less to do.
pub proof fn lemma_round(
    cfg: CfgView,
    nodes: Seq<u32>,
    context: InlineContext,
    observable: Set<u64>,
)
    ensures
        round(cfg, nodes, context, observable).3 ==> total_from(
            round(cfg, nodes, context, observable).0,
            nodes,
            0,
        ) < total_from(cfg, nodes, 0),
{
    let (first, taken) = nodes_inlined(cfg, nodes, 0, context, false);
    let (second, unread) = nodes_spent(first, nodes, 0, context, false);
    let (third, fewer, gone) = nodes_folded(
        second,
        nodes,
        0,
        context.usages,
        observable,
        unread,
    );
    lemma_nodes_inlined(cfg, nodes, 0, context, false);
    lemma_nodes_spent(first, nodes, 0, context, false);
    lemma_nodes_folded(second, nodes, 0, context.usages, observable, unread);
    lemma_total(first, cfg, nodes, 0);
    lemma_total(second, first, nodes, 0);
    lemma_total(third, second, nodes, 0);
}

/// The locals that the nodes from position `from` on read.
pub open spec fn node_reads_from(cfg: CfgView, nodes: Seq<u32>, from: int) -> Seq<RcLocal>
    decreases nodes.len() - from,
{
    if 0 <= from < nodes.len() {
        (StatementView::reads_from(cfg.blocks[nodes[from]], 0) + EdgeView::reads_from(
            EdgeView::leaving(cfg.edges, nodes[from]),
            0,
        )) + node_reads_from(cfg, nodes, from + 1)
    } else {
        Seq::empty()
    }
}

/// How often each of the first `count` of some locals occurs among them.
pub open spec fn occurrences(locals: Seq<RcLocal>, count: int) -> Map<u64, usize>
    decreases count,
{
    if 0 < count <= locals.len() {
        let held = occurrences(locals, count - 1);
        let id = locals[count - 1].id;
        held.insert(
            id,
            ((if held.dom().contains(id) {
                held[id] as int
            } else {
                0
            }) + 1) as usize,
        )
    } else {
        Map::empty()
    }
}

/// Whether a local is held by reference, or stands for one that is.
pub open spec fn is_shared(entries: Seq<(u64, u64)>, id: u64) -> bool {
    exists|i: int|
        0 <= i < entries.len() && ((#[trigger] entries[i]).0 == id || entries[i].1 == id)
}

/// Whether a group holds a local that is held by reference.
pub open spec fn is_shared_group(
    entries: Seq<(u64, u64)>,
    groups: Map<u64, usize>,
    group: usize,
) -> bool {
    exists|id: u64|
        #[trigger] is_shared(entries, id) && groups.dom().contains(id) && groups[id] == group
}

/// The locals whose value code elsewhere can observe.
pub open spec fn observable_locals(
    entries: Seq<(u64, u64)>,
    groups: Map<u64, usize>,
) -> Set<u64> {
    Set::new(
        |id: u64|
            is_shared(entries, id) || (groups.dom().contains(id) && is_shared_group(
                entries,
                groups,
                groups[id],
            )),
    )
}

/// The locals that are held by reference.
pub open spec fn keys_of(entries: Seq<(u64, u64)>) -> Set<u64> {
    Set::new(|id: u64| crate::collections::has_key(entries, id))
}

/// A function with the values that are read once taken to where they are read,
/// and whether that changed it.
pub open spec fn inlined_function(
    cfg: CfgView,
    groups: Map<u64, usize>,
    entries: Seq<(u64, u64)>,
) -> (CfgView, bool) {
    let nodes = listing::listing(cfg.blocks.dom());
    let reads = node_reads_from(cfg, nodes, 0);
    let context = InlineContext {
        usages: occurrences(reads, reads.len() as int),
        groups,
        upvalues: keys_of(entries),
    };
    let (last, any) = rounds(cfg, nodes, context, observable_locals(entries, groups), false);
    (nodes_retained(last, nodes, 0), any)
}

proof fn lemma_with_arguments(
    edges: Seq<EdgeView>,
    at: int,
    arguments: Seq<(RcLocal, RValueView)>,
)
    requires
        0 <= at < edges.len(),
        forall|i: int, j: int|
            0 <= i < j < edges.len() ==> (#[trigger] edges[i]).id != (#[trigger] edges[j]).id,
    ensures
        with_arguments(edges, edges[at].id, arguments) == edges.update(
            at,
            EdgeView { arguments, ..edges[at] },
        ),
{
    let changed = with_arguments(edges, edges[at].id, arguments);
    let updated = edges.update(at, EdgeView { arguments, ..edges[at] });
    assert forall|i: int| 0 <= i < edges.len() implies changed[i] == updated[i] by {
        if i < at {
            assert(edges[i].id != edges[at].id);
        } else if i > at {
            assert(edges[at].id != edges[i].id);
        }
    }
    assert(changed =~= updated);
}

/// The models of numbered arguments.
spec fn listed(list: Seq<(u32, Vec<(RcLocal, RValue)>)>, edges: Seq<EdgeView>) -> bool {
    &&& list.len() == edges.len()
    &&& forall|i: int|
        0 <= i < list.len() ==> (#[trigger] list[i]).0 == edges[i].id
            && BlockEdge::argument_views(list[i].1@) == edges[i].arguments
}

/// Copies the arguments of the edges that leave a node.
fn copy_leaving(function: &Function, node: NodeId) -> (list: Vec<(u32, Vec<(RcLocal, RValue)>)>)
    requires
        function.well_formed(),
    ensures
        listed(list@, EdgeView::leaving(function@.edges, node)),
{
    let edges = function.edges(node);
    let ghost views = EdgeReference::views(edges@);
    let mut list: Vec<(u32, Vec<(RcLocal, RValue)>)> = Vec::new();
    let mut index: usize = 0;
    while index < edges.len()
        invariant
            index <= edges.len(),
            views == EdgeReference::views(edges@),
            list@.len() == index,
            forall|i: int|
                0 <= i < index ==> (#[trigger] list@[i]).0 == views[i].id
                    && BlockEdge::argument_views(list@[i].1@) == views[i].arguments,
        decreases edges.len() - index,
    {
        proof {
            assert(views[index as int] == edges@[index as int]@);
        }
        let copy = edges[index].weight.clone();
        list.push((edges[index].id, copy.arguments));
        index += 1;
    }
    list
}

/// The statements of a node, taken out.
pub(crate) fn take_statements(function: &mut Function, node: NodeId) -> (statements: Vec<Statement>)
    requires
        old(function).well_formed(),
        old(function)@.blocks.dom().contains(node),
    ensures
        final(function).well_formed(),
        Statement::views(statements@) == old(function)@.blocks[node],
        final(function)@ == with_block(old(function)@, node, Seq::empty()),
{
    let block = function.replace_block(node, Block(Vec::new()));
    proof {
        assert(Statement::views(Seq::<Statement>::empty()) =~= Seq::empty());
        assert(function@ =~= with_block(old(function)@, node, Seq::empty()));
    }
    block.0
}

/// Puts the statements of a node back.
pub(crate) fn put_statements(function: &mut Function, node: NodeId, statements: Vec<Statement>)
    requires
        old(function).well_formed(),
        old(function)@.blocks.dom().contains(node),
    ensures
        final(function).well_formed(),
        final(function)@ == with_block(old(function)@, node, Statement::views(statements@)),
{
    let _ = function.replace_block(node, Block(statements));
}

/// Taking a node's statements out and putting others back.
pub proof fn lemma_put_back(cfg: CfgView, node: u32, block: Seq<StatementView>)
    requires
        cfg.blocks.dom().contains(node),
    ensures
        with_block(with_block(cfg, node, Seq::empty()), node, block) == with_block(
            cfg,
            node,
            block,
        ),
{
    assert(cfg.blocks.insert(node, Seq::empty()).insert(node, block) =~= cfg.blocks.insert(
        node,
        block,
    ));
}

impl<'a> Inliner<'a> {
    /// Takes the values of a node's statements and arguments from its block.
    fn inline_node(&self, function: &mut Function, node: NodeId, changed: bool) -> (any: bool)
        requires
            old(function).well_formed(),
            old(function)@.blocks.dom().contains(node),
        ensures
            final(function).well_formed(),
            (final(function)@, any) == node_inlined(old(function)@, node, self@, changed),
            final(function)@.blocks.dom() == old(function)@.blocks.dom(),
    {
        let ghost start = function@;
        let ghost leaving = EdgeView::leaving(start.edges, node);
        let list = copy_leaving(function, node);
        let statements = take_statements(function, node);
        let (statements, some) = self.inline_statements(statements, changed);
        let ghost block = Statement::views(statements@);
        let mut any = some;
        put_statements(function, node, statements);
        proof {
            lemma_put_back(start, node, block);
            assert(function@.blocks.dom() =~= start.blocks.dom());
            assert forall|i: int| 0 <= i < leaving.len() implies exists|k: int|
                0 <= k < function@.edges.len() && (#[trigger] function@.edges[k]).id == (
                #[trigger] leaving[i]).id by {
                EdgeView::leaving_edges(start.edges, node, leaving[i]);
                assert(leaving.contains(leaving[i]));
                let k = choose|k: int| 0 <= k < start.edges.len() && start.edges[k] == leaving[i];
                assert(function@.edges[k].id == leaving[i].id);
            }
        }
        let ghost whole = edges_inlined(function@, node, leaving, 0, self@, any);
        let mut rest = list;
        let ghost count = rest@.len();
        let mut at: Ghost<int> = Ghost(0);
        while rest.len() > 0
            invariant
                function.well_formed(),
                function@.blocks.dom() == start.blocks.dom(),
                start.blocks.dom().contains(node),
                0 <= at@ <= leaving.len(),
                rest@.len() == leaving.len() - at@,
                forall|i: int|
                    0 <= i < rest@.len() ==> (#[trigger] rest@[i]).0 == leaving[at@ + i].id
                        && BlockEdge::argument_views(rest@[i].1@) == leaving[at@ + i].arguments,
                whole == edges_inlined(function@, node, leaving, at@, self@, any),
                forall|i: int|
                    0 <= i < leaving.len() ==> exists|k: int|
                        0 <= k < function@.edges.len() && (#[trigger] function@.edges[k]).id == (
                        #[trigger] leaving[i]).id,
            decreases rest@.len(),
        {
            let ghost held = function@;
            let (id, arguments) = rest.remove(0);
            proof {
                assert(id == leaving[at@].id);
            }
            let statements = take_statements(function, node);
            let (statements, arguments, more) = self.inline_arguments(statements, arguments, any);
            let ghost block = Statement::views(statements@);
            let ghost values = BlockEdge::argument_views(arguments@);
            put_statements(function, node, statements);
            proof {
                lemma_put_back(held, node, block);
                function.edges_join_blocks();
                let k = choose|k: int|
                    0 <= k < held.edges.len() && (#[trigger] held.edges[k]).id == leaving[at@].id;
                assert(function@.edges[k].id == id);
                lemma_with_arguments(function@.edges, k, values);
            }
            function.set_arguments(id, arguments);
            proof {
                assert(function@.edges == with_arguments(held.edges, id, values));
                assert(function@.blocks.dom() =~= start.blocks.dom());
                assert forall|i: int| 0 <= i < leaving.len() implies exists|k: int|
                    0 <= k < function@.edges.len() && (#[trigger] function@.edges[k]).id == (
                    #[trigger] leaving[i]).id by {
                    let k = choose|k: int|
                        0 <= k < held.edges.len() && (#[trigger] held.edges[k]).id
                            == leaving[i].id;
                    assert(function@.edges[k].id == leaving[i].id);
                }
                at@ = at@ + 1;
            }
            any = more;
        }
        any
    }
}

fn spend(statement: &Statement, inliner: &Inliner) -> (left: Option<Statement>)
    ensures
        match left {
            Some(left) => spent(statement@, inliner@) == Some(left@),
            None => spent(statement@, inliner@) is None,
        },
{
    let assign = match statement.as_assign() {
        Some(assign) => assign,
        None => {
            return None;
        },
    };
    proof {
        nodes::assign_node(*assign);
    }
    if assign.left.len() != 1 || assign.right.len() != 1 {
        return None;
    }
    proof {
        assert(assign@.left[0] == assign.left@[0]@);
        assert(assign@.right[0] == assign.right@[0]@);
        nodes::rvalue_node(assign.right@[0]);
    }
    let local = match assign.left[0].as_local() {
        Some(local) => local,
        None => {
            return None;
        },
    };
    let read = match find_entry(&inliner.usages, local.id) {
        Some(count) => *count != 0,
        None => false,
    };
    if read || has_member(&inliner.upvalues, local.id) {
        return None;
    }
    if !assign.right[0].has_side_effects() {
        let left = Statement::Empty(Empty {  });
        proof {
            nodes::statement_node(left);
        }
        return Some(left);
    }
    let left = match &assign.right[0] {
        RValue::Call(call) => Statement::Call(call.clone()),
        RValue::MethodCall(call) => Statement::MethodCall(call.clone()),
        RValue::Select(Select::Call(call)) => Statement::Call(call.clone()),
        RValue::Select(Select::MethodCall(call)) => Statement::MethodCall(call.clone()),
        _ => {
            return None;
        },
    };
    proof {
        nodes::statement_node(left);
    }
    Some(left)
}

fn spend_statements(block: Vec<Statement>, inliner: &Inliner, changed: bool) -> (result: (
    Vec<Statement>,
    bool,
))
    ensures
        (Statement::views(result.0@), result.1) == spent_from(
            Statement::views(block@),
            0,
            inliner@,
            changed,
        ),
{
    let ghost whole = spent_from(Statement::views(block@), 0, inliner@, changed);
    let count: usize = block.len();
    let mut rest = block;
    let mut any = changed;
    let mut at: usize = 0;
    while at < count
        invariant
            at <= count == rest@.len(),
            whole == spent_from(Statement::views(rest@), at as int, inliner@, any),
        decreases count - at,
    {
        let ghost views = Statement::views(rest@);
        proof {
            assert(views[at as int] == rest@[at as int]@);
        }
        if let Some(left) = spend(&rest[at], inliner) {
            let ghost put = left@;
            rest.set(at, left);
            proof {
                assert(Statement::views(rest@) =~= views.update(at as int, put));
            }
            any = true;
        }
        at += 1;
    }
    (rest, any)
}

pub(crate) fn retain_statements(block: Vec<Statement>) -> (kept: Vec<Statement>)
    ensures
        Statement::views(kept@) == retained_from(Statement::views(block@), 0),
{
    let ghost views = Statement::views(block@);
    let ghost whole = retained_from(views, 0);
    let count: usize = block.len();
    let mut rest = block;
    let mut kept: Vec<Statement> = Vec::new();
    let mut at: usize = 0;
    proof {
        assert(Statement::views(kept@) + whole =~= whole);
    }
    while at < count
        invariant
            at <= count == views.len(),
            rest@.len() == count - at,
            Statement::views(rest@) =~= views.skip(at as int),
            whole == Statement::views(kept@) + retained_from(views, at as int),
        decreases count - at,
    {
        let ghost before = Statement::views(rest@);
        let ghost held = Statement::views(kept@);
        let statement = rest.remove(0);
        proof {
            assert(before[0] == views[at as int]);
            assert(Statement::views(rest@) =~= before.skip(1));
            assert(before.skip(1) =~= views.skip(at + 1));
            nodes::statement_node(statement);
        }
        let ghost put = statement@;
        match statement {
            Statement::Empty(_) => {},
            other => {
                kept.push(other);
                proof {
                    assert(Statement::views(kept@) =~= held.push(put));
                    assert(held + (seq![put] + retained_from(views, at + 1)) =~= held.push(put)
                        + retained_from(views, at + 1));
                }
            },
        }
        at += 1;
    }
    proof {
        assert(Statement::views(kept@) + Seq::<StatementView>::empty() =~= Statement::views(kept@));
    }
    kept
}

impl<'a> Inliner<'a> {
    fn inline_nodes(&self, function: &mut Function, nodes: &Vec<NodeId>) -> (any: bool)
        requires
            old(function).well_formed(),
            nodes@.to_set() == old(function)@.blocks.dom(),
        ensures
            final(function).well_formed(),
            (final(function)@, any) == nodes_inlined(old(function)@, nodes@, 0, self@, false),
            final(function)@.blocks.dom() == old(function)@.blocks.dom(),
    {
        let ghost whole = nodes_inlined(function@, nodes@, 0, self@, false);
        let mut any = false;
        let mut at: usize = 0;
        while at < nodes.len()
            invariant
                at <= nodes@.len(),
                function.well_formed(),
                function@.blocks.dom() == old(function)@.blocks.dom(),
                nodes@.to_set() == old(function)@.blocks.dom(),
                whole == nodes_inlined(function@, nodes@, at as int, self@, any),
            decreases nodes.len() - at,
        {
            proof {
                assert(nodes@.to_set().contains(nodes@[at as int]));
            }
            any = self.inline_node(function, nodes[at], any);
            at += 1;
        }
        any
    }

    fn spend_nodes(&self, function: &mut Function, nodes: &Vec<NodeId>) -> (any: bool)
        requires
            old(function).well_formed(),
            nodes@.to_set() == old(function)@.blocks.dom(),
        ensures
            final(function).well_formed(),
            (final(function)@, any) == nodes_spent(old(function)@, nodes@, 0, self@, false),
            final(function)@.blocks.dom() == old(function)@.blocks.dom(),
    {
        let ghost whole = nodes_spent(function@, nodes@, 0, self@, false);
        let mut any = false;
        let mut at: usize = 0;
        while at < nodes.len()
            invariant
                at <= nodes@.len(),
                function.well_formed(),
                function@.blocks.dom() == old(function)@.blocks.dom(),
                nodes@.to_set() == old(function)@.blocks.dom(),
                whole == nodes_spent(function@, nodes@, at as int, self@, any),
            decreases nodes.len() - at,
        {
            let ghost held = function@;
            proof {
                assert(nodes@.to_set().contains(nodes@[at as int]));
            }
            let statements = take_statements(function, nodes[at]);
            let (statements, more) = spend_statements(statements, self, any);
            let ghost block = Statement::views(statements@);
            put_statements(function, nodes[at], statements);
            proof {
                lemma_put_back(held, nodes@[at as int], block);
                assert(function@.blocks.dom() =~= held.blocks.dom());
            }
            any = more;
            at += 1;
        }
        any
    }

    fn fold_nodes(
        &mut self,
        function: &mut Function,
        nodes: &Vec<NodeId>,
        observable: &FxHashSet<u64>,
        changed: bool,
    ) -> (any: bool)
        requires
            old(function).well_formed(),
            nodes@.to_set() == old(function)@.blocks.dom(),
        ensures
            final(function).well_formed(),
            (final(function)@, final(self)@.usages, any) == nodes_folded(
                old(function)@,
                nodes@,
                0,
                old(self)@.usages,
                observable@,
                changed,
            ),
            final(self)@.groups == old(self)@.groups,
            final(self)@.upvalues == old(self)@.upvalues,
            final(function)@.blocks.dom() == old(function)@.blocks.dom(),
    {
        let ghost whole = nodes_folded(
            function@,
            nodes@,
            0,
            self@.usages,
            observable@,
            changed,
        );
        let mut any = changed;
        let mut at: usize = 0;
        while at < nodes.len()
            invariant
                at <= nodes@.len(),
                function.well_formed(),
                function@.blocks.dom() == old(function)@.blocks.dom(),
                nodes@.to_set() == old(function)@.blocks.dom(),
                self@.groups == old(self)@.groups,
                self@.upvalues == old(self)@.upvalues,
                whole == nodes_folded(
                    function@,
                    nodes@,
                    at as int,
                    self@.usages,
                    observable@,
                    any,
                ),
            decreases nodes.len() - at,
        {
            let ghost held = function@;
            proof {
                assert(nodes@.to_set().contains(nodes@[at as int]));
            }
            let statements = take_statements(function, nodes[at]);
            let statements = retain_statements(statements);
            let (statements, some) = fold_table_fields(statements, observable);
            let (statements, more) = fold_set_lists(statements, &mut self.usages);
            let ghost block = Statement::views(statements@);
            put_statements(function, nodes[at], statements);
            proof {
                lemma_put_back(held, nodes@[at as int], block);
                assert(function@.blocks.dom() =~= held.blocks.dom());
            }
            any = any || some > 0 || more > 0;
            at += 1;
        }
        any
    }
}

fn retain_nodes(function: &mut Function, nodes: &Vec<NodeId>)
    requires
        old(function).well_formed(),
        nodes@.to_set() == old(function)@.blocks.dom(),
    ensures
        final(function).well_formed(),
        final(function)@ == nodes_retained(old(function)@, nodes@, 0),
{
    let ghost whole = nodes_retained(function@, nodes@, 0);
    let mut at: usize = 0;
    while at < nodes.len()
        invariant
            at <= nodes@.len(),
            function.well_formed(),
            function@.blocks.dom() == old(function)@.blocks.dom(),
            nodes@.to_set() == old(function)@.blocks.dom(),
            whole == nodes_retained(function@, nodes@, at as int),
        decreases nodes.len() - at,
    {
        let ghost held = function@;
        proof {
            assert(nodes@.to_set().contains(nodes@[at as int]));
        }
        let statements = take_statements(function, nodes[at]);
        let statements = retain_statements(statements);
        let ghost block = Statement::views(statements@);
        put_statements(function, nodes[at], statements);
        proof {
            lemma_put_back(held, nodes@[at as int], block);
            assert(function@.blocks.dom() =~= held.blocks.dom());
        }
        at += 1;
    }
}

/// Counts how often each local is read.
fn count_reads(function: &Function, nodes: &Vec<NodeId>) -> (usages: FxHashMap<u64, usize>)
    requires
        function.well_formed(),
        nodes@.to_set() == function@.blocks.dom(),
    ensures
        ({
            let reads = node_reads_from(function@, nodes@, 0);
            usages@ == occurrences(reads, reads.len() as int)
        }),
{
    let ghost whole = node_reads_from(function@, nodes@, 0);
    let mut reads: Vec<RcLocal> = Vec::new();
    let mut at: usize = 0;
    while at < nodes.len()
        invariant
            at <= nodes@.len(),
            function.well_formed(),
            nodes@.to_set() == function@.blocks.dom(),
            reads@ + node_reads_from(function@, nodes@, at as int) =~= whole,
        decreases nodes.len() - at,
    {
        proof {
            assert(nodes@.to_set().contains(nodes@[at as int]));
        }
        let mut more = function.values_read(nodes[at]);
        reads.append(&mut more);
        at += 1;
    }
    proof {
        assert(reads@ =~= whole);
    }
    let mut usages: FxHashMap<u64, usize> = empty_map();
    let mut index: usize = 0;
    proof {
        assert(usages@ =~= occurrences(reads@, 0));
    }
    while index < reads.len()
        invariant
            index <= reads@.len(),
            usages@ == occurrences(reads@, index as int),
            forall|id: u64| usages@.dom().contains(id) ==> (#[trigger] usages@[id]) <= index,
        decreases reads.len() - index,
    {
        let id: u64 = reads[index].id;
        let count: usize = match find_entry(&usages, id) {
            Some(count) => *count,
            None => 0,
        };
        insert_entry(&mut usages, id, count + 1);
        index += 1;
    }
    usages
}

/// The locals that are held by reference.
fn collect_keys(entries: &Vec<(u64, u64)>) -> (keys: FxHashSet<u64>)
    ensures
        keys@ == keys_of(entries@),
{
    let mut keys = empty_set();
    let mut index: usize = 0;
    while index < entries.len()
        invariant
            index <= entries@.len(),
            forall|id: u64|
                keys@.contains(id) <==> crate::collections::has_key(
                    entries@.take(index as int),
                    id,
                ),
        decreases entries.len() - index,
    {
        let _ = insert_member(&mut keys, entries[index].0);
        proof {
            let now = entries@.take(index + 1);
            let held = entries@.take(index as int);
            assert forall|id: u64|
                keys@.contains(id) == crate::collections::has_key(now, id) by {
                if crate::collections::has_key(held, id) {
                    let i = choose|i: int| 0 <= i < held.len() && (#[trigger] held[i]).0 == id;
                    assert(now[i].0 == id);
                }
                if crate::collections::has_key(now, id) {
                    let i = choose|i: int| 0 <= i < now.len() && (#[trigger] now[i]).0 == id;
                    if i < index {
                        assert(held[i].0 == id);
                    }
                }
                assert(now[index as int] == entries@[index as int]);
            }
        }
        index += 1;
    }
    proof {
        assert(entries@.take(entries@.len() as int) =~= entries@);
        assert(keys@ =~= keys_of(entries@));
    }
    keys
}

/// The locals that are held by reference, with those that stand for them.
fn collect_shared(entries: &Vec<(u64, u64)>) -> (shared: FxHashSet<u64>)
    ensures
        forall|id: u64| shared@.contains(id) <==> is_shared(entries@, id),
{
    let mut shared = empty_set();
    let mut index: usize = 0;
    while index < entries.len()
        invariant
            index <= entries@.len(),
            forall|id: u64| shared@.contains(id) <==> is_shared(entries@.take(index as int), id),
        decreases entries.len() - index,
    {
        let _ = insert_member(&mut shared, entries[index].0);
        let _ = insert_member(&mut shared, entries[index].1);
        proof {
            let now = entries@.take(index + 1);
            let held = entries@.take(index as int);
            assert forall|id: u64| shared@.contains(id) == is_shared(now, id) by {
                if is_shared(held, id) {
                    let i = choose|i: int|
                        0 <= i < held.len() && ((#[trigger] held[i]).0 == id || held[i].1 == id);
                    assert(now[i].0 == id || now[i].1 == id);
                }
                if is_shared(now, id) {
                    let i = choose|i: int|
                        0 <= i < now.len() && ((#[trigger] now[i]).0 == id || now[i].1 == id);
                    if i < index {
                        assert(held[i].0 == id || held[i].1 == id);
                    }
                }
                assert(now[index as int] == entries@[index as int]);
            }
        }
        index += 1;
    }
    proof {
        assert(entries@.take(entries@.len() as int) =~= entries@);
    }
    shared
}

/// Collects the locals whose value code elsewhere can observe.
fn collect_observable(entries: &Vec<(u64, u64)>, local_to_group: &FxHashMap<u64, usize>) -> (observable:
    FxHashSet<u64>)
    ensures
        observable@ == observable_locals(entries@, local_to_group@),
{
    let shared = collect_shared(entries);
    let keys = entry_keys(local_to_group);
    let mut groups = empty_set();
    let mut index: usize = 0;
    while index < keys.len()
        invariant
            index <= keys@.len(),
            keys@.to_set() == local_to_group@.dom(),
            forall|id: u64| shared@.contains(id) <==> is_shared(entries@, id),
            forall|group: u64| #[trigger]
                groups@.contains(group) ==> exists|id: u64| #[trigger]
                    is_shared(entries@, id) && local_to_group@.dom().contains(id)
                        && local_to_group@[id] == group,
            forall|i: int|
                0 <= i < index && is_shared(entries@, #[trigger] keys@[i]) ==> groups@.contains(
                    local_to_group@[keys@[i]] as u64,
                ),
        decreases keys.len() - index,
    {
        let id: u64 = keys[index];
        proof {
            assert(keys@.to_set().contains(id));
        }
        if has_member(&shared, id) {
            if let Some(group) = find_entry(local_to_group, id) {
                let _ = insert_member(&mut groups, *group as u64);
                proof {
                    assert(is_shared(entries@, id));
                }
            }
        }
        index += 1;
    }
    let mut observable = shared;
    let mut index: usize = 0;
    let ghost all = observable_locals(entries@, local_to_group@);
    proof {
        assert forall|group: usize|
            groups@.contains(group as u64) == is_shared_group(
                entries@,
                local_to_group@,
                group,
            ) by {
            if is_shared_group(entries@, local_to_group@, group) {
                let id = choose|id: u64|
                    #[trigger] is_shared(entries@, id) && local_to_group@.dom().contains(id)
                        && local_to_group@[id] == group;
                assert(keys@.to_set().contains(id));
                let i = choose|i: int| 0 <= i < keys@.len() && keys@[i] == id;
                assert(is_shared(entries@, keys@[i]));
            }
        }
    }
    while index < keys.len()
        invariant
            index <= keys@.len(),
            keys@.to_set() == local_to_group@.dom(),
            all == observable_locals(entries@, local_to_group@),
            forall|group: usize|
                groups@.contains(group as u64) == is_shared_group(
                    entries@,
                    local_to_group@,
                    group,
                ),
            forall|id: u64| is_shared(entries@, id) ==> observable@.contains(id),
            forall|id: u64| observable@.contains(id) ==> all.contains(id),
            forall|i: int|
                0 <= i < index && all.contains(#[trigger] keys@[i]) ==> observable@.contains(
                    keys@[i],
                ),
        decreases keys.len() - index,
    {
        let id: u64 = keys[index];
        proof {
            assert(keys@.to_set().contains(id));
        }
        if let Some(group) = find_entry(local_to_group, id) {
            if has_member(&groups, *group as u64) {
                let _ = insert_member(&mut observable, id);
            }
        }
        index += 1;
    }
    proof {
        assert forall|id: u64| all.contains(id) implies observable@.contains(id) by {
            if !is_shared(entries@, id) {
                assert(keys@.to_set().contains(id));
                let i = choose|i: int| 0 <= i < keys@.len() && keys@[i] == id;
                assert(all.contains(keys@[i]));
            }
        }
        assert(observable@ =~= all);
    }
    observable
}

/// Takes the values that are read once to where they are read, drops
/// assignments to locals that nothing reads, and moves what is stored in fresh
/// tables into their constructors. Gives whether the function changed.
pub fn inline(
    function: &mut Function,
    local_to_group: &FxHashMap<u64, usize>,
    upvalue_to_group: &OrderedMap,
) -> (changed: bool)
    requires
        old(function).well_formed(),
    ensures
        final(function).well_formed(),
        (final(function)@, changed) == inlined_function(
            old(function)@,
            local_to_group@,
            crate::collections::ordered_entries(*upvalue_to_group),
        ),
{
    let entries = list_entries(upvalue_to_group);
    let nodes = function.nodes();
    proof {
        let all = function@.blocks.dom();
        assert(listing::is_listing(nodes@, all));
        listing::lemma_one_listing(nodes@, listing::listing(all), all);
    }
    let observable = collect_observable(&entries, local_to_group);
    let usages = count_reads(function, &nodes);
    let upvalues = collect_keys(&entries);
    let mut inliner = Inliner { local_to_group, upvalues, usages };
    let ghost whole = rounds(function@, nodes@, inliner@, observable@, false);
    let mut any = false;
    let mut done = false;
    while !done
        invariant
            function.well_formed(),
            function@.blocks.dom() == old(function)@.blocks.dom(),
            nodes@.to_set() == old(function)@.blocks.dom(),
            !done ==> whole == rounds(function@, nodes@, inliner@, observable@, any),
            done ==> whole == (function@, any),
        decreases
                (if done {
                    0int
                } else {
                    1int
                }),
                total_from(function@, nodes@, 0),
    {
        let ghost held = function@;
        let ghost context = inliner@;
        proof {
            lemma_round(held, nodes@, context, observable@);
        }
        let taken = inliner.inline_nodes(function, &nodes);
        let unread = inliner.spend_nodes(function, &nodes);
        let gone = inliner.fold_nodes(function, &nodes, &observable, unread);
        proof {
            assert(round(held, nodes@, context, observable@) == (
                function@,
                inliner@.usages,
                taken,
                gone,
            ));
            assert(inliner@ == (InlineContext { usages: inliner@.usages, ..context }));
        }
        if gone {
            any = true;
        } else {
            any = any || taken;
            done = true;
        }
    }
    retain_nodes(function, &nodes);
    any
}

} // verus!
