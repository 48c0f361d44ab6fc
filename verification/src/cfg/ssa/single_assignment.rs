//! Every local of a constructed function is defined by one statement.

use vstd::prelude::*;

use crate::ast::local::RcLocal;
use crate::ast::nodes;
use crate::ast::nodes::{LValueView, StatementView};
use crate::ast::rewrite;
use crate::cfg::block::EdgeView;
use crate::cfg::function::CfgView;
use crate::cfg::listing;
use crate::cfg::ssa::construct;
use crate::cfg::ssa::copies;
use crate::cfg::ssa::local_map;
use crate::cfg::ssa::numbering;
use crate::cfg::ssa::numbering::{Frame, Numbering, Origin};
use crate::cfg::ssa::params;
use crate::cfg::ssa::value_order;

verus! {

broadcast use nodes::group_views;

/// Whether a statement of a block writes a local at a position.
pub open spec fn is_write(
    blocks: Map<u32, Seq<StatementView>>,
    n: u32,
    t: int,
    k: int,
    id: u64,
) -> bool {
    &&& blocks.dom().contains(n)
    &&& 0 <= t < blocks[n].len()
    &&& 0 <= k < blocks[n][t].writes().len()
    &&& blocks[n][t].writes()[k].id == id
}

/// Whether no local is written at two places.
pub open spec fn writes_once(blocks: Map<u32, Seq<StatementView>>) -> bool {
    forall|n: u32, t: int, k: int, m: u32, s: int, j: int, id: u64| #[trigger]
        is_write(blocks, n, t, k, id) && #[trigger] is_write(blocks, m, s, j, id) ==> n == m && t
            == s && k == j
}

/// Whether no local is written at two places, all of those that are written are
/// among some, and a map renames none of them.
spec fn is_single(
    blocks: Map<u32, Seq<StatementView>>,
    defined: Set<u64>,
    map: Map<u64, u64>,
) -> bool {
    &&& writes_once(blocks)
    &&& forall|n: u32, t: int, k: int, id: u64| #[trigger]
        is_write(blocks, n, t, k, id) ==> defined.contains(id) && !map.dom().contains(id)
    &&& map.dom().subset_of(defined)
}

/// Whether a list holds some statements of another, in order.
spec fn is_thinned(
    less: Seq<StatementView>,
    block: Seq<StatementView>,
    places: Seq<int>,
) -> bool {
    &&& less.len() == places.len()
    &&& forall|i: int|
        0 <= i < places.len() ==> 0 <= #[trigger] places[i] < block.len() && less[i]
            == block[places[i]]
    &&& forall|i: int, j: int|
        0 <= i < j < places.len() ==> #[trigger] places[i] < #[trigger] places[j]
}

proof fn lemma_unclosed_places(block: Seq<StatementView>, from: int) -> (places: Seq<int>)
    requires
        0 <= from,
    ensures
        is_thinned(copies::unclosed_from(block, from), block, places),
        forall|i: int| 0 <= i < places.len() ==> from <= #[trigger] places[i],
    decreases block.len() - from,
{
    if from < block.len() {
        let rest = lemma_unclosed_places(block, from + 1);
        if block[from] is Close {
            rest
        } else {
            seq![from] + rest
        }
    } else {
        Seq::empty()
    }
}

proof fn lemma_retained_places(block: Seq<StatementView>, from: int) -> (places: Seq<int>)
    requires
        0 <= from,
    ensures
        is_thinned(copies::filled_from(block, from), block, places),
        forall|i: int| 0 <= i < places.len() ==> from <= #[trigger] places[i],
    decreases block.len() - from,
{
    if from < block.len() {
        let rest = lemma_retained_places(block, from + 1);
        if block[from] is Empty {
            rest
        } else {
            seq![from] + rest
        }
    } else {
        Seq::empty()
    }
}

proof fn lemma_thinned(
    blocks: Map<u32, Seq<StatementView>>,
    defined: Set<u64>,
    map: Map<u64, u64>,
    node: u32,
    less: Seq<StatementView>,
    places: Seq<int>,
)
    requires
        is_single(blocks, defined, map),
        blocks.dom().contains(node),
        is_thinned(less, blocks[node], places),
    ensures
        is_single(blocks.insert(node, less), defined, map),
{
    let after = blocks.insert(node, less);
    assert forall|n: u32, t: int, k: int, m: u32, s: int, j: int, id: u64| #[trigger]
        is_write(after, n, t, k, id) && #[trigger] is_write(after, m, s, j, id) implies n == m && t
        == s && k == j by {
        let a = if n == node {
            places[t]
        } else {
            t
        };
        let b = if m == node {
            places[s]
        } else {
            s
        };
        assert(is_write(blocks, n, a, k, id));
        assert(is_write(blocks, m, b, j, id));
        if n == node && t != s {
            assert(places[t] != places[s]);
        }
    }
    assert forall|n: u32, t: int, k: int, id: u64| #[trigger]
        is_write(after, n, t, k, id) implies defined.contains(id) && !map.dom().contains(id) by {
        let a = if n == node {
            places[t]
        } else {
            t
        };
        assert(is_write(blocks, n, a, k, id));
    }
}

proof fn lemma_uncopied(
    blocks: Map<u32, Seq<StatementView>>,
    defined: Set<u64>,
    node: u32,
    block: Seq<StatementView>,
    t: int,
    map: Map<u64, u64>,
    old: Map<u64, u64>,
    held: Set<u64>,
)
    requires
        is_single(blocks.insert(node, block), defined, map),
        0 <= t,
    ensures
        ({
            let made = copies::uncopied_from(block, t, map, old, held);
            is_single(blocks.insert(node, made.0), defined, made.1)
        }),
    decreases block.len() - t,
{
    if t < block.len() {
        match copies::copied(block[t], map, old, held) {
            Some((from, to)) => {
                let before = blocks.insert(node, block);
                let left = block.update(t, StatementView::Empty);
                let after = blocks.insert(node, left);
                value_order::lemma_copy_shape(block[t]);
                assert(is_write(before, node, t, 0, from));
                assert forall|n: u32, s: int, k: int, id: u64| #[trigger]
                    is_write(after, n, s, k, id) implies is_write(before, n, s, k, id) && id
                    != from by {
                    assert(is_write(before, n, s, k, id)) by {
                        if n == node && s == t {
                            assert(left[s] == StatementView::Empty);
                        }
                    }
                    if id == from {
                        assert(n == node && s == t);
                        assert(left[s] == StatementView::Empty);
                    }
                }
                assert(is_single(after, defined, map.insert(from, to)));
                lemma_uncopied(
                    blocks,
                    defined,
                    node,
                    left,
                    t + 1,
                    map.insert(from, to),
                    old,
                    held,
                );
            },
            None => {
                lemma_uncopied(blocks, defined, node, block, t + 1, map, old, held);
            },
        }
    }
}

proof fn lemma_blocks_uncopied(
    blocks: Map<u32, Seq<StatementView>>,
    defined: Set<u64>,
    nodes: Seq<u32>,
    from: int,
    map: Map<u64, u64>,
    old: Map<u64, u64>,
    held: Set<u64>,
)
    requires
        is_single(blocks, defined, map),
        0 <= from,
        forall|i: int| 0 <= i < nodes.len() ==> blocks.dom().contains(#[trigger] nodes[i]),
    ensures
        ({
            let made = copies::blocks_uncopied(blocks, nodes, from, map, old, held);
            is_single(made.0, defined, made.1)
        }),
    decreases nodes.len() - from,
{
    if from < nodes.len() {
        let node = nodes[from];
        let block = blocks[node];
        assert(blocks.insert(node, block) =~= blocks);
        lemma_uncopied(blocks, defined, node, block, 0, map, old, held);
        let made = copies::uncopied_from(block, 0, map, old, held);
        let middle = blocks.insert(node, made.0);
        let places = lemma_retained_places(made.0, 0);
        let less = copies::filled_from(made.0, 0);
        lemma_thinned(middle, defined, made.1, node, less, places);
        assert(middle.insert(node, less) =~= blocks.insert(node, less));
        lemma_blocks_uncopied(
            blocks.insert(node, less),
            defined,
            nodes,
            from + 1,
            made.1,
            old,
            held,
        );
    }
}

proof fn lemma_blocks_unclosed(
    blocks: Map<u32, Seq<StatementView>>,
    defined: Set<u64>,
    map: Map<u64, u64>,
)
    requires
        is_single(blocks, defined, map),
    ensures
        is_single(copies::blocks_unclosed(blocks), defined, map),
{
    let after = copies::blocks_unclosed(blocks);
    assert forall|n: u32, t: int, k: int, m: u32, s: int, j: int, id: u64| #[trigger]
        is_write(after, n, t, k, id) && #[trigger] is_write(after, m, s, j, id) implies n == m && t
        == s && k == j by {
        let first = lemma_unclosed_places(blocks[n], 0);
        let second = lemma_unclosed_places(blocks[m], 0);
        assert(is_write(blocks, n, first[t], k, id));
        assert(is_write(blocks, m, second[s], j, id));
        assert(is_write(blocks, m, first[t], k, id));
        if t < s {
            assert(is_write(blocks, n, first[s], j, id));
            assert(first[t] < first[s]);
        }
        if s < t {
            assert(is_write(blocks, m, first[s], j, id));
            assert(first[s] < first[t]);
        }
    }
    assert forall|n: u32, t: int, k: int, id: u64| #[trigger]
        is_write(after, n, t, k, id) implies defined.contains(id) && !map.dom().contains(id) by {
        let places = lemma_unclosed_places(blocks[n], 0);
        assert(is_write(blocks, n, places[t], k, id));
    }
}

proof fn lemma_retargeted_writes(
    targets: Seq<LValueView>,
    from: int,
    f: spec_fn(RcLocal) -> RcLocal,
)
    requires
        0 <= from,
    ensures
        LValueView::writes_from(targets.map_values(|l: LValueView| l.retargeted(f)), from)
            == LValueView::writes_from(targets, from).map_values(f),
    decreases targets.len() - from,
{
    let after = targets.map_values(|l: LValueView| l.retargeted(f));
    if from < targets.len() {
        lemma_retargeted_writes(targets, from + 1, f);
        assert(after[from] == targets[from].retargeted(f));
        assert(after[from].writes() =~= targets[from].writes().map_values(f));
    }
    assert(LValueView::writes_from(after, from) =~= LValueView::writes_from(
        targets,
        from,
    ).map_values(f));
}

/// Renaming a statement renames what it writes.
pub proof fn renaming_renames_writes(statement: StatementView, f: spec_fn(RcLocal) -> RcLocal)
    ensures
        statement.renamed(f).writes() == statement.writes().map_values(f),
{
    match statement {
        StatementView::Assign(assign) | StatementView::NumForInit(assign)
        | StatementView::GenericForInit(assign) => {
            lemma_retargeted_writes(assign.left, 0, f);
        },
        _ => {},
    }
    assert(statement.rewritten(f).writes() =~= statement.writes().map_values(f));
    rewrite::rereading_renames_reads(statement.rewritten(f), f);
}

proof fn lemma_renamed(cfg: CfgView, map: Map<u64, u64>)
    requires
        forall|n: u32, t: int, k: int, id: u64| #[trigger]
            is_write(cfg.blocks, n, t, k, id) ==> !map.dom().contains(id),
    ensures
        forall|n: u32, t: int, k: int, id: u64|
            is_write(local_map::renamed_function(cfg, map).blocks, n, t, k, id) ==> is_write(
                cfg.blocks,
                n,
                t,
                k,
                id,
            ),
{
    let after = local_map::renamed_function(cfg, map);
    let f = |l: RcLocal| local_map::resolved_local(map, l);
    assert forall|n: u32, t: int, k: int, id: u64|
        is_write(after.blocks, n, t, k, id) implies is_write(cfg.blocks, n, t, k, id) by {
        assert(after.blocks[n][t] == cfg.blocks[n][t].renamed(f));
        renaming_renames_writes(cfg.blocks[n][t], f);
        let before = cfg.blocks[n][t].writes()[k].id;
        assert(is_write(cfg.blocks, n, t, k, before));
        assert(local_map::ends_within(map, before, 0));
        local_map::lemma_resolved_within(map, before, 0);
    }
}

proof fn lemma_fewer_writes(
    blocks: Map<u32, Seq<StatementView>>,
    after: Map<u32, Seq<StatementView>>,
)
    requires
        writes_once(blocks),
        forall|n: u32, t: int, k: int, id: u64|
            is_write(after, n, t, k, id) ==> is_write(blocks, n, t, k, id),
    ensures
        writes_once(after),
{
    assert forall|n: u32, t: int, k: int, m: u32, s: int, j: int, id: u64| #[trigger]
        is_write(after, n, t, k, id) && #[trigger] is_write(after, m, s, j, id) implies n == m && t
        == s && k == j by {
        assert(is_write(blocks, n, t, k, id));
        assert(is_write(blocks, m, s, j, id));
    }
}

/// The targets of the statements of a function whose definitions have locals of
/// their own.
pub open spec fn defined_locals(st: Numbering) -> Set<u64> {
    Set::new(|id: u64| st.is_new(id) && st.made[id] is Written)
}

/// A local that was made for a definition is written by the statement that it
/// was made for, and by no other.
pub proof fn definitions_are_written_once(frame: Frame, st: Numbering)
    requires
        frame.is_built(st),
    ensures
        writes_once(st.cfg.blocks),
        forall|n: u32, t: int, k: int, id: u64| #[trigger]
            is_write(st.cfg.blocks, n, t, k, id) ==> defined_locals(st).contains(id)
                && st.made[id] == Origin::Written(n, t, k),
{
    reveal(Frame::holds);
    assert forall|n: u32, t: int, k: int, id: u64| #[trigger]
        is_write(st.cfg.blocks, n, t, k, id) implies defined_locals(st).contains(id)
        && st.made[id] == Origin::Written(n, t, k) by {
        assert(frame.is_written(st, n, t));
        assert(st.is_new(st.cfg.blocks[n][t].writes()[k].id));
    }
}

/// What a statement reads is what was written last before it, where the block
/// writes it, or else what the block starts with; a closure can read the local
/// that it is assigned to.
pub proof fn reads_see_the_last_definition(frame: Frame, st: Numbering, n: u32, t: int, k: int)
    requires
        frame.is_built(st),
        frame.cfg.blocks.dom().contains(n),
        0 <= t < frame.cfg.blocks[n].len(),
        0 <= k < frame.cfg.blocks[n][t].reads().len(),
    ensures
        k < st.cfg.blocks[n][t].reads().len(),
        st.seen(n, frame.cfg.blocks[n][t].reads()[k].id, frame.view_point(n, t)) == Some(
            st.cfg.blocks[n][t].reads()[k].id,
        ),
{
    reveal(Frame::holds);
    let before = frame.cfg.blocks[n][t];
    let after = st.cfg.blocks[n][t];
    assert(frame.is_written(st, n, t) && frame.is_numbered(st, n, t));
    let f = numbering::through(st.values[(n, t)]);
    rewrite::rereading_renames_reads(before, f);
    rewrite::rewriting_gives_writes(before.reread(f), after.writes());
    assert(after.reads()[k] == f(before.reads()[k]));
}

/// A block that is not the entry starts with what the blocks before it end
/// with: with the value of the one that leads to it, or with a parameter that
/// every edge into it passes the value of where it comes from. A local from
/// around the function is not passed where its value was asked for before all
/// blocks that lead to the block were gone through.
pub proof fn starts_are_what_comes_before(frame: Frame, st: Numbering, n: u32, local: u64)
    requires
        frame.is_built(st),
        n != frame.entry,
        st.starts.dom().contains((n, local)),
    ensures
        ({
            let value = st.starts[(n, local)];
            ||| st.made[value] == Origin::Start(n, local) && (frame.passes(st, n, local, value)
                || frame.upvalues.contains(local) && value < st.sealed_at[n])
            ||| frame.takes_over(st, n, local, value)
        }),
{
    reveal(Frame::holds);
    assert(frame.is_start(st, n, local));
    assert(frame.is_settled(st, n, local));
}

/// A value at the start of a block that is made later than something that is
/// written behind the block and all blocks that lead to it is passed or taken
/// over, also where its local comes from around the function.
pub proof fn late_starts_are_passed(
    frame: Frame,
    st: Numbering,
    n: u32,
    local: u64,
    earlier: u64,
)
    requires
        frame.is_built(st),
        n != frame.entry,
        st.starts.dom().contains((n, local)),
        st.made.dom().contains(earlier),
        st.made[earlier] is Written,
        frame.is_within(n, frame.place(st.made[earlier]->Written_0)),
        earlier < st.starts[(n, local)],
    ensures
        ({
            let value = st.starts[(n, local)];
            ||| st.made[value] == Origin::Start(n, local) && frame.passes(st, n, local, value)
            ||| frame.takes_over(st, n, local, value)
        }),
{
    starts_are_what_comes_before(frame, st, n, local);
    reveal(Frame::holds);
    assert(frame.is_start(st, n, local));
    assert(st.sealed.contains(n));
    reveal(Frame::keeps_seals);
}

proof fn lemma_replaced_undefined(frame: Frame, st: Numbering, map: Map<u64, u64>, id: u64)
    requires
        frame.is_built(st),
        map.dom().subset_of(defined_locals(st)),
        params::extended(value_order::renamed_edges(st.cfg.edges, map), Map::empty()).dom().contains(
            id,
        ),
    ensures
        !defined_locals(st).contains(id),
{
    reveal(Frame::holds);
    let edges = value_order::renamed_edges(st.cfg.edges, map);
    let local = choose|local: u64| params::stands_for(edges, id, local);
    let (i, position) = choose|i: int, position: int| #[trigger]
        params::is_unnecessary(edges, i, position) && edges[i].arguments[position].0.id == id
            && params::sole_argument(
            EdgeView::entering(edges, edges[i].target),
            position,
        )->0.id == local && local != id;
    assert(frame.is_argument(st, i, position));
    let parameter = st.cfg.edges[i].arguments[position].0.id;
    assert(!map.dom().contains(parameter)) by {
        if map.dom().contains(parameter) {
            assert(defined_locals(st).contains(parameter));
        }
    }
    assert(local_map::ends_within(map, parameter, 0));
    local_map::lemma_resolved_within(map, parameter, 0);
}

/// In a constructed function, every local is written by one statement at most.
pub proof fn constructed_locals_are_written_once(
    frame: Frame,
    st: Numbering,
    names: Seq<Option<Seq<char>>>,
)
    requires
        frame.is_built(st),
        st.cfg.blocks.dom().finite(),
    ensures
        writes_once(construct::finishing(frame, st, names).result().blocks),
{
    let rest = construct::finishing(frame, st, names);
    let defined = defined_locals(st);
    definitions_are_written_once(frame, st);
    assert(is_single(rest.cfg.blocks, defined, Map::empty()));
    lemma_blocks_unclosed(rest.cfg.blocks, defined, Map::empty());
    let nodes = listing::listing(rest.cfg.blocks.dom());
    listing::lemma_has_listing(rest.cfg.blocks.dom());
    let unclosed = copies::blocks_unclosed(rest.cfg.blocks);
    assert forall|i: int| 0 <= i < nodes.len() implies unclosed.dom().contains(
        #[trigger] nodes[i],
    ) by {
        assert(nodes.to_set().contains(nodes[i]));
    }
    lemma_blocks_uncopied(
        unclosed,
        defined,
        nodes,
        0,
        Map::empty(),
        rest.old,
        rest.upvalues.union(copies::grouped_locals(rest.groups())),
    );
    let map = rest.uncopied().1;
    let uncopied = CfgView { blocks: rest.uncopied().0, ..rest.cfg };
    lemma_renamed(uncopied, map);
    lemma_fewer_writes(uncopied.blocks, rest.copied().blocks);
    construct::lemma_renamed_edges(uncopied, map);
    let more = rest.replaced();
    assert forall|n: u32, t: int, k: int, id: u64| #[trigger]
        is_write(rest.copied().blocks, n, t, k, id) implies !more.dom().contains(id) by {
        assert(is_write(uncopied.blocks, n, t, k, id));
        if more.dom().contains(id) {
            lemma_replaced_undefined(frame, st, map, id);
        }
    }
    let trimmed = CfgView {
        edges: rest.copied().edges.map_values(
            |edge: EdgeView| params::trimmed(rest.copied().edges, edge),
        ),
        ..rest.copied()
    };
    lemma_renamed(trimmed, more);
    assert(trimmed.edges =~= rest.copied().edges.map_values(
        |edge: EdgeView| params::trimmed(rest.copied().edges, edge),
    ));
    assert(rest.result() == local_map::renamed_function(trimmed, more));
    lemma_fewer_writes(trimmed.blocks, rest.result().blocks);
}

} // verus!
