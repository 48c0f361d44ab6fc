//! Removing the parameters of blocks that stand for one local only.

use vstd::prelude::*;

use rustc_hash::{FxHashMap, FxHashSet};

use crate::ast::local::RcLocal;
use crate::ast::nodes;
use crate::ast::nodes::{RValue, RValueView};
use crate::cfg::block::{BlockEdge, EdgeView};
use crate::cfg::function::{CfgView, EdgeReference, Function};
use crate::cfg::graph::NodeId;
use crate::cfg::listing;
use crate::cfg::ssa::local_map;
use crate::cfg::ssa::local_map::resolve_local_map;
use crate::collections::{
    empty_map, empty_set, entry_keys, find_entry, has_member, insert_entry, insert_member,
};

verus! {

broadcast use nodes::group_views;

/// The local that every edge into a block gives as its argument at a position,
/// where there is one.
pub open spec fn sole_argument(entering: Seq<EdgeView>, position: int) -> Option<RcLocal> {
    if entering.len() > 0 && entering[0].arguments[position].1 is Local && forall|e: int|
        0 <= e < entering.len() ==> (#[trigger] entering[e]).arguments[position].1
            == entering[0].arguments[position].1 {
        Some(entering[0].arguments[position].1->Local_0)
    } else {
        None
    }
}

/// The arguments from position `from` on that are not always one local.
pub open spec fn kept_from(
    entering: Seq<EdgeView>,
    arguments: Seq<(RcLocal, RValueView)>,
    from: int,
) -> Seq<(RcLocal, RValueView)>
    decreases arguments.len() - from,
{
    if 0 <= from < arguments.len() {
        let rest = kept_from(entering, arguments, from + 1);
        if sole_argument(entering, from) is Some {
            rest
        } else {
            seq![arguments[from]] + rest
        }
    } else {
        Seq::empty()
    }
}

/// An edge of a function without the arguments that are always one local.
pub open spec fn trimmed(edges: Seq<EdgeView>, edge: EdgeView) -> EdgeView {
    EdgeView {
        arguments: kept_from(EdgeView::entering(edges, edge.target), edge.arguments, 0),
        ..edge
    }
}

/// How many parameters a block has, by the edge into it that was added last.
pub open spec fn width(entering: Seq<EdgeView>) -> int {
    if entering.len() > 0 {
        entering[0].arguments.len() as int
    } else {
        0
    }
}

/// Whether every edge into a block has an argument for each of its parameters.
pub open spec fn arguments_suffice(entering: Seq<EdgeView>) -> bool {
    forall|e: int|
        0 <= e < entering.len() ==> (#[trigger] entering[e]).arguments.len() >= width(entering)
}

/// What a parameter of a block stands for under a map.
pub open spec fn parameter_end(
    entering: Seq<EdgeView>,
    map: Map<u64, u64>,
    position: int,
) -> u64 {
    local_map::resolved(map, entering[0].arguments[position].0.id)
}

/// Whether a block loses the parameters that stand for a local: one of them is
/// always given one local.
pub open spec fn is_dropped(entering: Seq<EdgeView>, map: Map<u64, u64>, id: u64) -> bool {
    exists|k: int|
        0 <= k < width(entering) && #[trigger] sole_argument(entering, k) is Some && parameter_end(
            entering,
            map,
            k,
        ) == id
}

/// Whether a block loses any parameter.
pub open spec fn drops_any(entering: Seq<EdgeView>) -> bool {
    exists|k: int| 0 <= k < width(entering) && #[trigger] sole_argument(entering, k) is Some
}

/// What the first `count` parameters of a block are always given, both under a
/// map. A parameter that is always given itself stands for nothing, and of
/// several that are one under the map the last counts.
pub open spec fn standing(entering: Seq<EdgeView>, map: Map<u64, u64>, count: int) -> Map<u64, u64>
    decreases count,
{
    if count <= 0 {
        Map::empty()
    } else {
        let rest = standing(entering, map, count - 1);
        match sole_argument(entering, count - 1) {
            Some(argument) => {
                let parameter = parameter_end(entering, map, count - 1);
                let local = local_map::resolved(map, argument.id);
                if local == parameter {
                    rest
                } else {
                    rest.insert(parameter, local)
                }
            },
            None => rest,
        }
    }
}

/// A map, and for each parameter of a block what it stands for in the end.
/// Parameters that stand for each other, or for such ones, have no end and are
/// not added.
pub open spec fn joined(map: Map<u64, u64>, standing: Map<u64, u64>) -> Map<u64, u64> {
    Map::new(
        |id: u64| map.dom().contains(id) || standing.dom().contains(id) && local_map::ends(
            standing,
            id,
        ),
        |id: u64|
            if map.dom().contains(id) {
                map[id]
            } else {
                local_map::resolved(standing, id)
            },
    )
}

/// The arguments from position `from` on whose parameters a block keeps.
pub open spec fn undropped_from(
    entering: Seq<EdgeView>,
    map: Map<u64, u64>,
    arguments: Seq<(RcLocal, RValueView)>,
    from: int,
) -> Seq<(RcLocal, RValueView)>
    decreases arguments.len() - from,
{
    if 0 <= from < arguments.len() {
        let rest = undropped_from(entering, map, arguments, from + 1);
        if is_dropped(entering, map, local_map::resolved(map, arguments[from].0.id)) {
            rest
        } else {
            seq![arguments[from]] + rest
        }
    } else {
        Seq::empty()
    }
}

/// The edges of a function, those into a block without the arguments for the
/// parameters that it loses.
pub open spec fn undropped(edges: Seq<EdgeView>, map: Map<u64, u64>, node: u32) -> Seq<EdgeView> {
    let entering = EdgeView::entering(edges, node);
    Seq::new(
        edges.len(),
        |i: int|
            if edges[i].target == node {
                EdgeView {
                    arguments: undropped_from(entering, map, edges[i].arguments, 0),
                    ..edges[i]
                }
            } else {
                edges[i]
            },
    )
}

/// The edges and the map once the blocks from position `from` on lost their
/// unnecessary parameters one after the other, each block under the map that
/// the ones before it leave, and whether any block lost one.
pub open spec fn removed_from(
    edges: Seq<EdgeView>,
    map: Map<u64, u64>,
    nodes: Seq<u32>,
    from: int,
) -> (Seq<EdgeView>, Map<u64, u64>, bool)
    decreases nodes.len() - from,
{
    if 0 <= from < nodes.len() {
        let entering = EdgeView::entering(edges, nodes[from]);
        let (left, made, changed) = removed_from(
            undropped(edges, map, nodes[from]),
            joined(map, standing(entering, map, width(entering))),
            nodes,
            from + 1,
        );
        (left, made, changed || drops_any(entering))
    } else {
        (edges, map, false)
    }
}

/// Whether a list is part of another, in its order: what stands at each
/// position of it stands at a later and later one of the other.
pub open spec fn is_subsequence<A>(part: Seq<A>, whole: Seq<A>) -> bool {
    exists|places: Seq<int>| is_placed(part, whole, places)
}

pub open spec fn is_placed<A>(part: Seq<A>, whole: Seq<A>, places: Seq<int>) -> bool {
    &&& places.len() == part.len()
    &&& forall|i: int|
        0 <= i < places.len() ==> 0 <= #[trigger] places[i] < whole.len() && part[i]
            == whole[places[i]]
    &&& forall|i: int, j: int| 0 <= i < j < places.len() ==> places[i] < places[j]
}

/// Whether the edge at `i` gives a parameter of its target, at a position, an
/// argument that is always one local.
pub open spec fn is_unnecessary(edges: Seq<EdgeView>, i: int, position: int) -> bool {
    &&& 0 <= i < edges.len()
    &&& 0 <= position < edges[i].arguments.len()
    &&& sole_argument(EdgeView::entering(edges, edges[i].target), position) is Some
}

/// Whether a parameter always stands for another local.
pub open spec fn stands_for(edges: Seq<EdgeView>, parameter: u64, local: u64) -> bool {
    exists|i: int, position: int| #[trigger]
        is_unnecessary(edges, i, position) && edges[i].arguments[position].0.id == parameter
            && sole_argument(EdgeView::entering(edges, edges[i].target), position)->0.id == local
            && local != parameter
}

/// A map, and for each parameter that always stands for another local, that
/// local.
pub open spec fn extended(edges: Seq<EdgeView>, map: Map<u64, u64>) -> Map<u64, u64> {
    Map::new(
        |id: u64| map.dom().contains(id) || exists|local: u64| stands_for(edges, id, local),
        |id: u64|
            if map.dom().contains(id) {
                map[id]
            } else {
                choose|local: u64| stands_for(edges, id, local)
            },
    )
}

/// Whether the edges into each block have the same parameters, each once and
/// at no other block.
pub open spec fn parameters_agree(edges: Seq<EdgeView>) -> bool {
    &&& forall|i: int, j: int|
        0 <= i < edges.len() && 0 <= j < edges.len() && edges[i].target == edges[j].target ==> (
        #[trigger] edges[i]).arguments.len() == (#[trigger] edges[j]).arguments.len()
    &&& forall|i: int, j: int, k: int, l: int|
        0 <= i < edges.len() && 0 <= j < edges.len() && 0 <= k < edges[i].arguments.len() && 0 <= l
            < edges[j].arguments.len() ==> ((#[trigger] edges[i].arguments[k]).0 == (
        #[trigger] edges[j].arguments[l]).0 <==> edges[i].target == edges[j].target && k == l)
}

/// Whether a map renames no parameter of a block.
pub open spec fn spares_parameters(edges: Seq<EdgeView>, map: Map<u64, u64>) -> bool {
    forall|i: int, k: int|
        0 <= i < edges.len() && 0 <= k < edges[i].arguments.len() ==> !map.dom().contains(
            (#[trigger] edges[i].arguments[k]).0.id,
        )
}

/// The fewest steps in which a map leads from a local to one that it does not
/// rename.
pub closed spec fn rank(map: Map<u64, u64>, id: u64) -> nat {
    choose|steps: nat| is_rank(map, id, steps)
}

spec fn is_rank(map: Map<u64, u64>, id: u64, steps: nat) -> bool {
    &&& local_map::ends_within(map, id, steps)
    &&& forall|fewer: nat| fewer < steps ==> !#[trigger] local_map::ends_within(map, id, fewer)
}

proof fn lemma_least(map: Map<u64, u64>, id: u64, bound: nat)
    requires
        local_map::ends_within(map, id, bound),
    ensures
        exists|steps: nat| is_rank(map, id, steps),
    decreases bound,
{
    if exists|fewer: nat| fewer < bound && #[trigger] local_map::ends_within(map, id, fewer) {
        let fewer = choose|fewer: nat|
            fewer < bound && #[trigger] local_map::ends_within(map, id, fewer);
        lemma_least(map, id, fewer);
    } else {
        assert(is_rank(map, id, bound));
    }
}

proof fn lemma_is_rank(map: Map<u64, u64>, id: u64)
    requires
        local_map::ends(map, id),
    ensures
        is_rank(map, id, rank(map, id)),
{
    let steps = choose|steps: nat| #[trigger] local_map::ends_within(map, id, steps);
    lemma_least(map, id, steps);
}

/// A step of a map brings its end nearer, and does not change it.
proof fn lemma_rank_step(map: Map<u64, u64>, id: u64)
    requires
        local_map::ends_everywhere(map),
        map.dom().contains(id),
    ensures
        rank(map, map[id]) < rank(map, id),
        local_map::resolved(map, map[id]) == local_map::resolved(map, id),
{
    let next = map[id];
    assert(local_map::ends(map, id));
    assert(local_map::ends(map, next));
    lemma_is_rank(map, id);
    lemma_is_rank(map, next);
    let steps = rank(map, id);
    assert(steps > 0);
    let fewer = (steps - 1) as nat;
    assert(local_map::followed(map, id, steps) == local_map::followed(map, next, fewer));
    assert(local_map::ends_within(map, next, fewer));
    if rank(map, next) > fewer {
        assert(false);
    }
    local_map::lemma_resolved_step(map, id);
}

/// Whether an entry of a map leads towards the same end as `whole` does.
spec fn descends(whole: Map<u64, u64>, id: u64, target: u64) -> bool {
    &&& local_map::resolved(whole, target) == local_map::resolved(whole, id)
    &&& rank(whole, target) < rank(whole, id)
}

/// Whether every entry of a map leads towards the same end as `whole` does.
spec fn all_descend(whole: Map<u64, u64>, map: Map<u64, u64>) -> bool {
    forall|id: u64| #[trigger] map.dom().contains(id) ==> descends(whole, id, map[id])
}

proof fn lemma_descending_ends(whole: Map<u64, u64>, map: Map<u64, u64>, id: u64)
    requires
        all_descend(whole, map),
    ensures
        local_map::ends(map, id),
        exists|steps: nat|
            #![trigger local_map::ends_within(map, id, steps)]
            local_map::ends_within(map, id, steps) && local_map::resolved(
                whole,
                local_map::followed(map, id, steps),
            ) == local_map::resolved(whole, id) && rank(whole, local_map::followed(map, id, steps))
                <= rank(whole, id),
    decreases rank(whole, id),
{
    if map.dom().contains(id) {
        assert(descends(whole, id, map[id]));
        lemma_descending_ends(whole, map, map[id]);
        let steps = choose|steps: nat|
            #![trigger local_map::ends_within(map, map[id], steps)]
            local_map::ends_within(map, map[id], steps) && local_map::resolved(
                whole,
                local_map::followed(map, map[id], steps),
            ) == local_map::resolved(whole, map[id]) && rank(
                whole,
                local_map::followed(map, map[id], steps),
            ) <= rank(whole, map[id]);
        assert(local_map::followed(map, id, steps + 1) == local_map::followed(
            map,
            map[id],
            steps,
        ));
        assert(local_map::ends_within(map, id, steps + 1));
    } else {
        assert(local_map::followed(map, id, 0) == id);
        assert(local_map::ends_within(map, id, 0));
    }
}

/// A map whose every entry leads towards the same end as `whole` does has no
/// cycle, and leads towards that end.
proof fn lemma_descending(whole: Map<u64, u64>, map: Map<u64, u64>, id: u64)
    requires
        all_descend(whole, map),
    ensures
        local_map::ends_everywhere(map),
        local_map::resolved(whole, local_map::resolved(map, id)) == local_map::resolved(whole, id),
        rank(whole, local_map::resolved(map, id)) <= rank(whole, id),
{
    assert forall|other: u64| #[trigger] local_map::ends(map, other) by {
        lemma_descending_ends(whole, map, other);
    }
    lemma_descending_ends(whole, map, id);
    let steps = choose|steps: nat|
        #![trigger local_map::ends_within(map, id, steps)]
        local_map::ends_within(map, id, steps) && local_map::resolved(
            whole,
            local_map::followed(map, id, steps),
        ) == local_map::resolved(whole, id) && rank(whole, local_map::followed(map, id, steps))
            <= rank(whole, id);
    local_map::lemma_resolved_within(map, id, steps);
}

pub proof fn lemma_entering_member(edges: Seq<EdgeView>, node: u32, e: int) -> (i: int)
    requires
        0 <= e < EdgeView::entering(edges, node).len(),
    ensures
        0 <= i < edges.len(),
        edges[i] == EdgeView::entering(edges, node)[e],
        edges[i].target == node,
{
    let edge = EdgeView::entering(edges, node)[e];
    assert(EdgeView::entering(edges, node).contains(edge));
    EdgeView::entering_edges(edges, node, edge);
    choose|i: int| 0 <= i < edges.len() && edges[i] == edge
}

pub proof fn lemma_entering_listed(edges: Seq<EdgeView>, i: int) -> (e: int)
    requires
        0 <= i < edges.len(),
    ensures
        0 <= e < EdgeView::entering(edges, edges[i].target).len(),
        EdgeView::entering(edges, edges[i].target)[e] == edges[i],
{
    assert(edges.contains(edges[i]));
    EdgeView::entering_edges(edges, edges[i].target, edges[i]);
    let entering = EdgeView::entering(edges, edges[i].target);
    choose|e: int| 0 <= e < entering.len() && entering[e] == edges[i]
}

proof fn lemma_entering_same(a: Seq<EdgeView>, b: Seq<EdgeView>, node: u32)
    requires
        a.len() == b.len(),
        forall|i: int|
            0 <= i < a.len() ==> (#[trigger] a[i]).target == b[i].target && (a[i].target == node
                ==> a[i] == b[i]),
    ensures
        EdgeView::entering(a, node) == EdgeView::entering(b, node),
    decreases a.len(),
{
    if a.len() > 0 {
        assert(a.last().target == b.last().target) by {
            assert(a[a.len() - 1].target == b[a.len() - 1].target);
        }
        assert forall|i: int| 0 <= i < a.len() - 1 implies (#[trigger] a.drop_last()[i]).target
            == b.drop_last()[i].target && (a.drop_last()[i].target == node ==> a.drop_last()[i]
            == b.drop_last()[i]) by {
            assert(a[i].target == b[i].target);
        }
        lemma_entering_same(a.drop_last(), b.drop_last(), node);
    } else {
        assert(a =~= b);
    }
}

/// What a parameter always stands for follows from any of the edges that have
/// it.
proof fn lemma_stands_for(edges: Seq<EdgeView>, i: int, position: int, map: Map<u64, u64>)
    requires
        parameters_agree(edges),
        spares_parameters(edges, map),
        is_unnecessary(edges, i, position),
    ensures
        ({
            let parameter = edges[i].arguments[position].0.id;
            let local = sole_argument(EdgeView::entering(edges, edges[i].target), position)->0.id;
            local != parameter ==> {
                &&& extended(edges, map).dom().contains(parameter)
                &&& extended(edges, map)[parameter] == local
            }
        }),
{
    let parameter = edges[i].arguments[position].0.id;
    let local = sole_argument(EdgeView::entering(edges, edges[i].target), position)->0.id;
    if local != parameter {
        assert(stands_for(edges, parameter, local));
        let chosen = choose|local: u64| stands_for(edges, parameter, local);
        assert(stands_for(edges, parameter, chosen));
        let (j, other) = choose|j: int, other: int| #[trigger]
            is_unnecessary(edges, j, other) && edges[j].arguments[other].0.id == parameter
                && sole_argument(EdgeView::entering(edges, edges[j].target), other)->0.id == chosen
                && chosen != parameter;
        assert(edges[i].arguments[position].0 == edges[j].arguments[other].0);
        assert(!map.dom().contains(edges[i].arguments[position].0.id));
    }
}

/// The positions of the parameters of a block that always stand for one local.
fn unnecessary_positions(entering: &Vec<EdgeReference>) -> (positions: Vec<Option<RcLocal>>)
    requires
        forall|e: int|
            0 <= e < entering@.len() ==> (#[trigger] EdgeReference::views(
                entering@,
            )[e]).arguments.len() >= EdgeReference::views(entering@)[0].arguments.len(),
    ensures
        entering@.len() == 0 ==> positions@.len() == 0,
        entering@.len() > 0 ==> positions@.len() == EdgeReference::views(
            entering@,
        )[0].arguments.len(),
        forall|k: int|
            0 <= k < positions@.len() ==> (#[trigger] positions@[k]) == sole_argument(
                EdgeReference::views(entering@),
                k,
            ),
{
    let ghost views = EdgeReference::views(entering@);
    let mut positions: Vec<Option<RcLocal>> = Vec::new();
    if entering.len() == 0 {
        return positions;
    }
    let first = entering[0].weight;
    let mut position: usize = 0;
    while position < first.arguments.len()
        invariant
            entering@.len() > 0,
            first == entering@[0].weight,
            position <= first.arguments.len(),
            views == EdgeReference::views(entering@),
            first.arguments@.len() == views[0].arguments.len(),
            forall|e: int|
                0 <= e < entering@.len() ==> (#[trigger] views[e]).arguments.len()
                    >= views[0].arguments.len(),
            positions@.len() == position,
            forall|k: int|
                0 <= k < position ==> (#[trigger] positions@[k]) == sole_argument(views, k),
        decreases first.arguments.len() - position,
    {
        let mut sole: Option<RcLocal> = first.arguments[position].1.as_local();
        let mut index: usize = 0;
        while index < entering.len()
            invariant
                index <= entering.len(),
                entering@.len() > 0,
                first == entering@[0].weight,
                position < first.arguments.len(),
                views == EdgeReference::views(entering@),
                first.arguments@.len() == views[0].arguments.len(),
                forall|e: int|
                    0 <= e < entering@.len() ==> (#[trigger] views[e]).arguments.len()
                        >= views[0].arguments.len(),
                sole == (if views[0].arguments[position as int].1 is Local && forall|e: int|
                    0 <= e < index ==> (#[trigger] views[e]).arguments[position as int].1
                        == views[0].arguments[position as int].1 {
                    Some(views[0].arguments[position as int].1->Local_0)
                } else {
                    None
                }),
            decreases entering.len() - index,
        {
            proof {
                assert(views[index as int].arguments.len()
                    == entering@[index as int].weight.arguments@.len());
                assert(views[0].arguments[position as int].1
                    == first.arguments@[position as int].1@);
            }
            let other = entering[index].weight.arguments[position].1.as_local();
            let ghost before = sole;
            if sole.is_some() && other != sole {
                sole = None;
            }
            proof {
                let here = views[index as int].arguments[position as int].1;
                let whole = views[0].arguments[position as int].1;
                assert(here == entering@[index as int].weight.arguments@[position as int].1@);
                if here == whole && (whole is Local) {
                    assert(other == Some(whole->Local_0));
                }
                if before is Some && sole is None {
                    assert(views[index as int].arguments[position as int].1 != whole);
                }
                if before is Some && sole is Some {
                    assert(here == whole);
                }
            }
            index += 1;
        }
        positions.push(sole);
        position += 1;
    }
    positions
}

/// Whether an edge's number is listed from position `from` on.
pub open spec fn is_listed(id: u32, list: Seq<(u32, Vec<(RcLocal, RValue)>)>, from: int) -> bool {
    exists|k: int| from <= k < list.len() && (#[trigger] list[k]).0 == id
}

/// Whether some edge has a number.
pub open spec fn has_number(edges: Seq<EdgeView>, id: u32) -> bool {
    exists|i: int| 0 <= i < edges.len() && (#[trigger] edges[i]).id == id
}

/// Gives each listed edge the arguments that are listed with it.
pub(crate) fn replace_arguments(function: &mut Function, list: Vec<(u32, Vec<(RcLocal, RValue)>)>)
    requires
        old(function).well_formed(),
        forall|k: int|
            0 <= k < list@.len() ==> has_number(old(function)@.edges, (#[trigger] list@[k]).0),
        forall|k: int, l: int| 0 <= k < l < list@.len() ==> list@[k].0 != list@[l].0,
    ensures
        final(function).well_formed(),
        final(function)@ == (CfgView { edges: final(function)@.edges, ..old(function)@ }),
        final(function)@.edges.len() == old(function)@.edges.len(),
        forall|i: int|
            0 <= i < old(function)@.edges.len() && !is_listed(old(function)@.edges[i].id, list@, 0)
                ==> (#[trigger] final(function)@.edges[i]) == old(function)@.edges[i],
        forall|i: int, k: int|
            0 <= i < old(function)@.edges.len() && 0 <= k < list@.len()
                && old(function)@.edges[i].id == list@[k].0 ==> (
            #[trigger] final(function)@.edges[i]) == (EdgeView {
                arguments: BlockEdge::argument_views((#[trigger] list@[k]).1@),
                ..old(function)@.edges[i]
            }),
{
    let ghost cfg = function@;
    let ghost all = list@;
    let mut rest = list;
    proof {
        function.edges_join_blocks();
    }
    while rest.len() > 0
        invariant
            rest@.len() <= all.len(),
            rest@ == all.take(rest@.len() as int),
            function.well_formed(),
            function@ == (CfgView { edges: function@.edges, ..cfg }),
            function@.edges.len() == cfg.edges.len(),
            forall|i: int, j: int|
                0 <= i < j < cfg.edges.len() ==> (#[trigger] cfg.edges[i]).id != (
                #[trigger] cfg.edges[j]).id,
            forall|k: int|
                0 <= k < all.len() ==> has_number(cfg.edges, (#[trigger] all[k]).0),
            forall|k: int, l: int| 0 <= k < l < all.len() ==> all[k].0 != all[l].0,
            forall|i: int| 0 <= i < cfg.edges.len() ==> (#[trigger] function@.edges[i]).id
                == cfg.edges[i].id,
            forall|i: int|
                0 <= i < cfg.edges.len() && !is_listed(cfg.edges[i].id, all, rest@.len() as int)
                    ==> (#[trigger] function@.edges[i]) == cfg.edges[i],
            forall|i: int, k: int|
                0 <= i < cfg.edges.len() && rest@.len() <= k < all.len() && cfg.edges[i].id
                    == all[k].0 ==> (#[trigger] function@.edges[i]) == (EdgeView {
                    arguments: BlockEdge::argument_views((#[trigger] all[k]).1@),
                    ..cfg.edges[i]
                }),
        decreases rest@.len(),
    {
        let ghost before = function@;
        let ghost last = rest@.len() - 1;
        match rest.pop() {
            Some((id, arguments)) => {
                let ghost put = BlockEdge::argument_views(arguments@);
                let ghost at = choose|i: int|
                    0 <= i < cfg.edges.len() && (#[trigger] cfg.edges[i]).id == all[last].0;
                proof {
                    assert(all[last] == (id, arguments));
                    assert(has_number(cfg.edges, all[last].0));
                    assert(before.edges[at].id == id);
                    if is_listed(id, all, last + 1) {
                        let k = choose|k: int|
                            last + 1 <= k < all.len() && (#[trigger] all[k]).0 == id;
                        assert(all[k].0 != all[last].0);
                    }
                    assert(before.edges[at] == cfg.edges[at]);
                }
                function.set_arguments(id, arguments);
                proof {
                    assert(rest@ =~= all.take(last));
                    assert forall|i: int|
                        0 <= i < cfg.edges.len() && !is_listed(
                            cfg.edges[i].id,
                            all,
                            last,
                        ) implies (#[trigger] function@.edges[i]) == cfg.edges[i] by {
                        if i == at {
                            assert(all[last].0 == cfg.edges[at].id);
                        } else {
                            assert(before.edges[i] == function@.edges[i]);
                            if is_listed(cfg.edges[i].id, all, last + 1) {
                                let k = choose|k: int|
                                    last + 1 <= k < all.len() && (#[trigger] all[k]).0
                                        == cfg.edges[i].id;
                                assert(all[k].0 == cfg.edges[i].id);
                            }
                        }
                    }
                    assert forall|i: int, k: int|
                        0 <= i < cfg.edges.len() && last <= k < all.len() && cfg.edges[i].id
                            == all[k].0 implies (#[trigger] function@.edges[i]) == (EdgeView {
                        arguments: BlockEdge::argument_views((#[trigger] all[k]).1@),
                        ..cfg.edges[i]
                    }) by {
                        if i == at {
                            if k != last {
                                assert(all[last].0 != all[k].0);
                            }
                        } else {
                            assert(before.edges[i] == function@.edges[i]);
                            if k == last {
                                assert(cfg.edges[i].id != cfg.edges[at].id);
                            }
                        }
                    }
                }
            },
            None => {},
        }
    }
    proof {
        assert(rest@.len() == 0);
    }
}

pub proof fn lemma_entering_distinct(edges: Seq<EdgeView>, node: u32)
    requires
        forall|i: int, j: int|
            0 <= i < j < edges.len() ==> (#[trigger] edges[i]).id != (#[trigger] edges[j]).id,
    ensures
        forall|e: int, f: int|
            0 <= e < f < EdgeView::entering(edges, node).len() ==> (#[trigger] EdgeView::entering(
                edges,
                node,
            )[e]).id != (#[trigger] EdgeView::entering(edges, node)[f]).id,
    decreases edges.len(),
{
    if edges.len() > 0 {
        let fewer = edges.drop_last();
        lemma_entering_distinct(fewer, node);
        let entering = EdgeView::entering(edges, node);
        let rest = EdgeView::entering(fewer, node);
        if edges.last().target == node {
            assert forall|e: int, f: int| 0 <= e < f < entering.len() implies (
            #[trigger] entering[e]).id != (#[trigger] entering[f]).id by {
                assert(entering[f] == rest[f - 1]);
                if e == 0 {
                    let i = lemma_entering_member(fewer, node, f - 1);
                    assert(edges[i].id != edges[edges.len() - 1].id);
                } else {
                    assert(entering[e] == rest[e - 1]);
                }
            }
        }
    }
}

/// Whether the edges are those of `edges`, those into the blocks that are done
/// without the arguments that are always one local.
spec fn partly_trimmed(now: Seq<EdgeView>, edges: Seq<EdgeView>, done: Set<u32>) -> bool {
    &&& now.len() == edges.len()
    &&& forall|i: int|
        0 <= i < edges.len() ==> (#[trigger] now[i]) == (if done.contains(edges[i].target) {
            trimmed(edges, edges[i])
        } else {
            edges[i]
        })
}

/// Whether a map has each parameter of the blocks that are done that always
/// stands for another local.
spec fn has_parameters(map: Map<u64, u64>, edges: Seq<EdgeView>, done: Set<u32>) -> bool {
    forall|i: int, k: int| #[trigger]
        is_unnecessary(edges, i, k) && done.contains(edges[i].target) && sole_argument(
            EdgeView::entering(edges, edges[i].target),
            k,
        )->0.id != edges[i].arguments[k].0.id ==> map.dom().contains(edges[i].arguments[k].0.id)
}

fn any_unnecessary(positions: &Vec<Option<RcLocal>>) -> (any: bool)
    ensures
        any == exists|k: int| 0 <= k < positions@.len() && (#[trigger] positions@[k]) is Some,
{
    let mut index: usize = 0;
    while index < positions.len()
        invariant
            index <= positions.len(),
            forall|k: int| 0 <= k < index ==> (#[trigger] positions@[k]) is None,
        decreases positions.len() - index,
    {
        if positions[index].is_some() {
            assert(positions@[index as int] is Some);
            return true;
        }
        index += 1;
    }
    false
}

/// A map with what was added leads where it led, and on to the ends of what was
/// added.
proof fn lemma_joined(map: Map<u64, u64>, standing: Map<u64, u64>, id: u64, steps: nat)
    requires
        local_map::ends_everywhere(map),
        local_map::ends_within(map, id, steps),
        forall|id: u64| #[trigger]
            standing.dom().contains(id) ==> !map.dom().contains(id) && !map.dom().contains(
                standing[id],
            ),
    ensures
        local_map::ends(joined(map, standing), id),
        local_map::resolved(joined(map, standing), id) == ({
            let end = local_map::resolved(map, id);
            if standing.dom().contains(end) && local_map::ends(standing, end) {
                local_map::resolved(standing, end)
            } else {
                end
            }
        }),
    decreases steps,
{
    let whole = joined(map, standing);
    if map.dom().contains(id) {
        let next = map[id];
        assert(steps > 0);
        assert(local_map::ends_within(map, next, (steps - 1) as nat));
        lemma_joined(map, standing, next, (steps - 1) as nat);
        local_map::lemma_resolved_step(map, id);
        let more = choose|more: nat| #[trigger] local_map::ends_within(whole, next, more);
        assert(whole.dom().contains(id) && whole[id] == next);
        assert(local_map::followed(whole, id, more + 1) == local_map::followed(
            whole,
            next,
            more,
        ));
        assert(local_map::ends_within(whole, id, more + 1));
        local_map::lemma_resolved_within(whole, id, more + 1);
        local_map::lemma_resolved_within(whole, next, more);
    } else {
        local_map::resolving_ends(map, id);
        if standing.dom().contains(id) && local_map::ends(standing, id) {
            lemma_standing_end(map, standing, id);
            let last = local_map::resolved(standing, id);
            assert(whole.dom().contains(id) && whole[id] == last);
            assert(!whole.dom().contains(last));
            assert(local_map::followed(whole, last, 0) == last);
            assert(local_map::followed(whole, id, 1) == local_map::followed(whole, last, 0));
            assert(local_map::ends_within(whole, id, 1));
            local_map::lemma_resolved_within(whole, id, 1);
        } else {
            assert(local_map::followed(whole, id, 0) == id);
            assert(local_map::ends_within(whole, id, 0));
            local_map::lemma_resolved_within(whole, id, 0);
        }
    }
}

proof fn lemma_standing_end(map: Map<u64, u64>, standing: Map<u64, u64>, id: u64)
    requires
        standing.dom().contains(id),
        local_map::ends(standing, id),
        forall|id: u64| #[trigger]
            standing.dom().contains(id) ==> !map.dom().contains(id) && !map.dom().contains(
                standing[id],
            ),
    ensures
        !standing.dom().contains(local_map::resolved(standing, id)),
        !map.dom().contains(local_map::resolved(standing, id)),
{
    let steps = choose|steps: nat| local_map::ends_within(standing, id, steps);
    assert(local_map::ends_within(standing, id, steps));
    local_map::lemma_resolved_keeps(standing, |id: u64| !map.dom().contains(id), id);
}

/// What the parameters of a block stand for are ends of the map.
proof fn lemma_standing(entering: Seq<EdgeView>, map: Map<u64, u64>, count: int)
    requires
        local_map::ends_everywhere(map),
    ensures
        forall|id: u64| #[trigger]
            standing(entering, map, count).dom().contains(id) ==> !map.dom().contains(id)
                && !map.dom().contains(standing(entering, map, count)[id]),
    decreases count,
{
    if count > 0 {
        lemma_standing(entering, map, count - 1);
        let rest = standing(entering, map, count - 1);
        let whole = standing(entering, map, count);
        local_map::resolving_ends(map, entering[0].arguments[count - 1].0.id);
        if sole_argument(entering, count - 1) is Some {
            local_map::resolving_ends(map, sole_argument(entering, count - 1)->0.id);
        }
        assert forall|id: u64| #[trigger] whole.dom().contains(id) implies !map.dom().contains(id)
            && !map.dom().contains(whole[id]) by {
            if id != parameter_end(entering, map, count - 1) {
                assert(rest.dom().contains(id));
            }
        }
    }
}

/// The map stays without cycles.
proof fn lemma_joined_ends(entering: Seq<EdgeView>, map: Map<u64, u64>)
    requires
        local_map::ends_everywhere(map),
    ensures
        local_map::ends_everywhere(joined(map, standing(entering, map, width(entering)))),
{
    let added = standing(entering, map, width(entering));
    lemma_standing(entering, map, width(entering));
    assert forall|id: u64| #[trigger] local_map::ends(joined(map, added), id) by {
        assert(local_map::ends(map, id));
        let steps = choose|steps: nat| #[trigger] local_map::ends_within(map, id, steps);
        lemma_joined(map, added, id, steps);
    }
}

/// Where a block loses no parameter, nothing stands for anything and every
/// argument is kept.
proof fn lemma_none_dropped(
    entering: Seq<EdgeView>,
    map: Map<u64, u64>,
    arguments: Seq<(RcLocal, RValueView)>,
    from: int,
)
    requires
        !drops_any(entering),
        0 <= from <= arguments.len(),
    ensures
        undropped_from(entering, map, arguments, from) == arguments.skip(from),
    decreases arguments.len() - from,
{
    if from < arguments.len() {
        lemma_none_dropped(entering, map, arguments, from + 1);
        let id = local_map::resolved(map, arguments[from].0.id);
        assert(!is_dropped(entering, map, id));
        assert(seq![arguments[from]] + arguments.skip(from + 1) =~= arguments.skip(from));
    } else {
        assert(arguments.skip(from) =~= Seq::<(RcLocal, RValueView)>::empty());
    }
}

proof fn lemma_none_standing(entering: Seq<EdgeView>, map: Map<u64, u64>, count: int)
    requires
        !drops_any(entering),
        count <= width(entering),
    ensures
        standing(entering, map, count) == Map::<u64, u64>::empty(),
    decreases count,
{
    if count > 0 {
        lemma_none_standing(entering, map, count - 1);
        assert(sole_argument(entering, count - 1) is None);
    }
}

/// A block that loses no parameter leaves the edges and the map as they are.
proof fn lemma_unchanged(edges: Seq<EdgeView>, map: Map<u64, u64>, node: u32)
    requires
        !drops_any(EdgeView::entering(edges, node)),
    ensures
        undropped(edges, map, node) == edges,
        ({
            let entering = EdgeView::entering(edges, node);
            joined(map, standing(entering, map, width(entering))) == map
        }),
{
    let entering = EdgeView::entering(edges, node);
    lemma_none_standing(entering, map, width(entering));
    assert(joined(map, Map::empty()) =~= map);
    assert forall|i: int| 0 <= i < edges.len() implies undropped(edges, map, node)[i]
        == edges[i] by {
        lemma_none_dropped(entering, map, edges[i].arguments, 0);
        assert(edges[i].arguments.skip(0) =~= edges[i].arguments);
    }
    assert(undropped(edges, map, node) =~= edges);
}

/// What is kept of a list of arguments is part of it.
proof fn lemma_undropped_part(
    entering: Seq<EdgeView>,
    map: Map<u64, u64>,
    arguments: Seq<(RcLocal, RValueView)>,
    from: int,
) -> (places: Seq<int>)
    requires
        0 <= from <= arguments.len(),
    ensures
        is_placed(undropped_from(entering, map, arguments, from), arguments, places),
        forall|i: int| 0 <= i < places.len() ==> from <= #[trigger] places[i],
    decreases arguments.len() - from,
{
    if from < arguments.len() {
        let rest = lemma_undropped_part(entering, map, arguments, from + 1);
        if is_dropped(entering, map, local_map::resolved(map, arguments[from].0.id)) {
            rest
        } else {
            seq![from] + rest
        }
    } else {
        Seq::empty()
    }
}

proof fn lemma_whole_part<A>(whole: Seq<A>)
    ensures
        is_subsequence(whole, whole),
{
    assert(is_placed(whole, whole, Seq::new(whole.len(), |i: int| i)));
}

/// The locals that the parameters which a block loses stand for, and what those
/// are given.
fn find_standing(
    entering: &Vec<EdgeReference>,
    positions: &Vec<Option<RcLocal>>,
    local_map: &FxHashMap<u64, u64>,
) -> (found: (FxHashSet<u64>, FxHashMap<u64, u64>))
    requires
        local_map::ends_everywhere(local_map@),
        entering@.len() > 0,
        positions@.len() == width(EdgeReference::views(entering@)),
        forall|k: int|
            0 <= k < positions@.len() ==> (#[trigger] positions@[k]) == sole_argument(
                EdgeReference::views(entering@),
                k,
            ),
    ensures
        forall|id: u64| #[trigger]
            found.0@.contains(id) <==> is_dropped(
                EdgeReference::views(entering@),
                local_map@,
                id,
            ),
        found.1@ == standing(
            EdgeReference::views(entering@),
            local_map@,
            width(EdgeReference::views(entering@)),
        ),
{
    let ghost views = EdgeReference::views(entering@);
    let first = entering[0].weight;
    let mut dropped: FxHashSet<u64> = empty_set();
    let mut added: FxHashMap<u64, u64> = empty_map();
    let mut index: usize = 0;
    proof {
        assert(added@ =~= Map::empty());
        assert(views[0].arguments.len() == first.arguments@.len());
    }
    while index < positions.len()
        invariant
            index <= positions@.len() == first.arguments@.len(),
            local_map::ends_everywhere(local_map@),
            entering@.len() > 0,
            first == entering@[0].weight,
            views == EdgeReference::views(entering@),
            positions@.len() == width(views),
            forall|k: int|
                0 <= k < positions@.len() ==> (#[trigger] positions@[k]) == sole_argument(
                    views,
                    k,
                ),
            forall|id: u64| #[trigger]
                dropped@.contains(id) <==> exists|k: int|
                    0 <= k < index && #[trigger] sole_argument(views, k) is Some && parameter_end(
                        views,
                        local_map@,
                        k,
                    ) == id,
            added@ == standing(views, local_map@, index as int),
        decreases positions.len() - index,
    {
        let ghost before = dropped@;
        proof {
            assert(positions@[index as int] == sole_argument(views, index as int));
            assert(views[0].arguments[index as int].0 == first.arguments@[index as int].0);
        }
        if let Some(argument) = positions[index] {
            let parameter = resolve_local_map(local_map, first.arguments[index].0);
            let local = resolve_local_map(local_map, argument);
            if local != parameter {
                insert_entry(&mut added, parameter.id, local.id);
            }
            insert_member(&mut dropped, parameter.id);
            proof {
                assert(parameter.id == parameter_end(views, local_map@, index as int));
            }
        }
        proof {
            assert forall|id: u64| #[trigger] dropped@.contains(id) == exists|k: int|
                0 <= k < index + 1 && #[trigger] sole_argument(views, k) is Some && parameter_end(
                    views,
                    local_map@,
                    k,
                ) == id by {
                if before.contains(id) {
                    let k = choose|k: int|
                        0 <= k < index && #[trigger] sole_argument(views, k) is Some
                            && parameter_end(views, local_map@, k) == id;
                    assert(sole_argument(views, k) is Some);
                }
            }
        }
        index += 1;
    }
    (dropped, added)
}

/// The arguments whose parameters a block keeps.
fn keep_arguments(
    arguments: &Vec<(RcLocal, RValue)>,
    dropped: &FxHashSet<u64>,
    local_map: &FxHashMap<u64, u64>,
    Ghost(entering): Ghost<Seq<EdgeView>>,
) -> (kept: Vec<(RcLocal, RValue)>)
    requires
        local_map::ends_everywhere(local_map@),
        forall|id: u64| #[trigger]
            dropped@.contains(id) <==> is_dropped(entering, local_map@, id),
    ensures
        BlockEdge::argument_views(kept@) == undropped_from(
            entering,
            local_map@,
            BlockEdge::argument_views(arguments@),
            0,
        ),
{
    let ghost views = BlockEdge::argument_views(arguments@);
    let mut kept: Vec<(RcLocal, RValue)> = Vec::new();
    let mut index: usize = 0;
    while index < arguments.len()
        invariant
            index <= arguments.len(),
            local_map::ends_everywhere(local_map@),
            forall|id: u64| #[trigger]
                dropped@.contains(id) <==> is_dropped(entering, local_map@, id),
            views == BlockEdge::argument_views(arguments@),
            BlockEdge::argument_views(kept@) + undropped_from(
                entering,
                local_map@,
                views,
                index as int,
            ) =~= undropped_from(entering, local_map@, views, 0),
        decreases arguments.len() - index,
    {
        let ghost before = BlockEdge::argument_views(kept@);
        let parameter = resolve_local_map(local_map, arguments[index].0);
        if !has_member(dropped, parameter.id) {
            kept.push((arguments[index].0, arguments[index].1.clone()));
            proof {
                assert(BlockEdge::argument_views(kept@) =~= before.push(views[index as int]));
            }
        }
        index += 1;
    }
    proof {
        assert(BlockEdge::argument_views(kept@) =~= undropped_from(
            entering,
            local_map@,
            views,
            0,
        ));
    }
    kept
}

/// The edges into a block, each with what stays of its arguments.
fn kept_list(
    entering: &Vec<EdgeReference>,
    dropped: &FxHashSet<u64>,
    local_map: &FxHashMap<u64, u64>,
) -> (list: Vec<(u32, Vec<(RcLocal, RValue)>)>)
    requires
        local_map::ends_everywhere(local_map@),
        forall|id: u64| #[trigger]
            dropped@.contains(id) <==> is_dropped(
                EdgeReference::views(entering@),
                local_map@,
                id,
            ),
    ensures
        list@.len() == entering@.len(),
        forall|e: int|
            0 <= e < entering@.len() ==> (#[trigger] list@[e]).0 == EdgeReference::views(
                entering@,
            )[e].id && BlockEdge::argument_views(list@[e].1@) == undropped_from(
                EdgeReference::views(entering@),
                local_map@,
                EdgeReference::views(entering@)[e].arguments,
                0,
            ),
{
    let ghost views = EdgeReference::views(entering@);
    let mut list: Vec<(u32, Vec<(RcLocal, RValue)>)> = Vec::new();
    let mut index: usize = 0;
    while index < entering.len()
        invariant
            index <= entering.len(),
            local_map::ends_everywhere(local_map@),
            views == EdgeReference::views(entering@),
            forall|id: u64| #[trigger]
                dropped@.contains(id) <==> is_dropped(views, local_map@, id),
            list@.len() == index,
            forall|e: int|
                0 <= e < index ==> (#[trigger] list@[e]).0 == views[e].id
                    && BlockEdge::argument_views(list@[e].1@) == undropped_from(
                    views,
                    local_map@,
                    views[e].arguments,
                    0,
                ),
        decreases entering.len() - index,
    {
        let kept = keep_arguments(
            &entering[index].weight.arguments,
            dropped,
            local_map,
            Ghost(views),
        );
        list.push((entering[index].id, kept));
        index += 1;
    }
    list
}

/// Whether what a local stands for is known to have an end as far as `ends`
/// tells.
spec fn are_ends(standing: Map<u64, u64>, ends: Map<u64, u64>) -> bool {
    forall|id: u64| #[trigger]
        ends.dom().contains(id) ==> standing.dom().contains(id) && local_map::ends(standing, id)
            && ends[id] == local_map::resolved(standing, id)
}

/// Locals that only lead to one another have no end.
proof fn lemma_stuck(standing: Map<u64, u64>, ends: Map<u64, u64>, id: u64, steps: nat)
    requires
        standing.dom().contains(id),
        !ends.dom().contains(id),
        forall|id: u64| #[trigger]
            standing.dom().contains(id) && !ends.dom().contains(id) ==> standing.dom().contains(
                standing[id],
            ) && !ends.dom().contains(standing[id]),
    ensures
        !local_map::ends_within(standing, id, steps),
    decreases steps,
{
    if steps > 0 {
        lemma_stuck(standing, ends, standing[id], (steps - 1) as nat);
    }
}

proof fn lemma_one_more_end(standing: Map<u64, u64>, id: u64)
    requires
        standing.dom().contains(id),
        local_map::ends(standing, standing[id]),
    ensures
        local_map::ends(standing, id),
        local_map::resolved(standing, id) == local_map::resolved(standing, standing[id]),
{
    let next = standing[id];
    let steps = choose|steps: nat| #[trigger] local_map::ends_within(standing, next, steps);
    assert(local_map::followed(standing, id, steps + 1) == local_map::followed(
        standing,
        next,
        steps,
    ));
    assert(local_map::ends_within(standing, id, steps + 1));
    local_map::lemma_resolved_within(standing, id, steps + 1);
    local_map::lemma_resolved_within(standing, next, steps);
}

/// The ends of what locals stand for, of those that have one.
fn find_ends(standing: &FxHashMap<u64, u64>) -> (ends: FxHashMap<u64, u64>)
    ensures
        are_ends(standing@, ends@),
        forall|id: u64| #[trigger]
            standing@.dom().contains(id) && local_map::ends(standing@, id)
                ==> ends@.dom().contains(id),
{
    let mut ends: FxHashMap<u64, u64> = empty_map();
    let mut left = entry_keys(standing);
    loop
        invariant
            are_ends(standing@, ends@),
            forall|i: int|
                0 <= i < left@.len() ==> standing@.dom().contains(#[trigger] left@[i]),
            forall|id: u64| #[trigger]
                standing@.dom().contains(id) ==> ends@.dom().contains(id) || left@.contains(id),
        ensures
            are_ends(standing@, ends@),
            forall|id: u64| #[trigger]
                standing@.dom().contains(id) && local_map::ends(standing@, id)
                    ==> ends@.dom().contains(id),
        decreases left@.len(),
    {
        let ghost known = ends@;
        let mut next: Vec<u64> = Vec::new();
        let mut at: usize = 0;
        while at < left.len()
            invariant
                at <= left@.len(),
                are_ends(standing@, ends@),
                forall|i: int|
                    0 <= i < left@.len() ==> standing@.dom().contains(#[trigger] left@[i]),
                forall|i: int|
                    0 <= i < next@.len() ==> standing@.dom().contains(#[trigger] next@[i]),
                known.dom().subset_of(ends@.dom()),
                forall|i: int|
                    0 <= i < at ==> ends@.dom().contains(#[trigger] left@[i]) || next@.contains(
                        left@[i],
                    ),
                next@.len() <= at,
                next@.len() == at ==> ends@ == known && forall|i: int|
                    0 <= i < at ==> standing@.dom().contains(standing@[#[trigger] left@[i]])
                        && !known.dom().contains(standing@[left@[i]]),
            decreases left.len() - at,
        {
            let id: u64 = left[at];
            let ghost before = next@;
            let ghost told = ends@;
            proof {
                assert(standing@.dom().contains(left@[at as int]));
            }
            let mut end: Option<u64> = None;
            if let Some(local) = find_entry(standing, id) {
                let local: u64 = *local;
                match find_entry(standing, local) {
                    Some(_) => {
                        if let Some(last) = find_entry(&ends, local) {
                            proof {
                                lemma_one_more_end(standing@, id);
                            }
                            end = Some(*last);
                        }
                    },
                    None => {
                        proof {
                            assert(local_map::followed(standing@, local, 0) == local);
                            assert(local_map::ends_within(standing@, local, 0));
                            local_map::lemma_resolved_within(standing@, local, 0);
                            lemma_one_more_end(standing@, id);
                        }
                        end = Some(local);
                    },
                }
            }
            match end {
                Some(last) => {
                    insert_entry(&mut ends, id, last);
                },
                None => {
                    next.push(id);
                    proof {
                        assert(next@[before.len() as int] == id);
                    }
                },
            }
            proof {
                assert forall|i: int| 0 <= i < at + 1 implies ends@.dom().contains(
                    #[trigger] left@[i],
                ) || next@.contains(left@[i]) by {
                    if i < at && !told.dom().contains(left@[i]) {
                        let k = choose|k: int| 0 <= k < before.len() && before[k] == left@[i];
                        assert(next@[k] == left@[i]);
                    }
                }
            }
            at += 1;
        }
        proof {
            assert forall|id: u64| #[trigger] standing@.dom().contains(id) implies
                ends@.dom().contains(id) || next@.contains(id) by {
                if !known.dom().contains(id) {
                    let i = choose|i: int| 0 <= i < left@.len() && left@[i] == id;
                    assert(left@[i] == id);
                }
            }
        }
        if next.len() == left.len() {
            proof {
                assert forall|id: u64| #[trigger]
                    standing@.dom().contains(id) && !ends@.dom().contains(id) implies
                    standing@.dom().contains(standing@[id]) && !ends@.dom().contains(
                    standing@[id],
                ) by {
                    assert(left@.contains(id));
                    let i = choose|i: int| 0 <= i < left@.len() && left@[i] == id;
                    assert(left@[i] == id);
                }
                assert forall|id: u64| #[trigger]
                    standing@.dom().contains(id) && local_map::ends(standing@, id) implies
                    ends@.dom().contains(id) by {
                    if !ends@.dom().contains(id) {
                        let steps = choose|steps: nat| #[trigger]
                            local_map::ends_within(standing@, id, steps);
                        lemma_stuck(standing@, ends@, id, steps);
                    }
                }
            }
            break;
        }
        left = next;
    }
    ends
}

/// Adds the ends of what locals stand for to a map.
fn add_ends(local_map: &mut FxHashMap<u64, u64>, standing: &FxHashMap<u64, u64>)
    requires
        forall|id: u64| #[trigger]
            standing@.dom().contains(id) ==> !old(local_map)@.dom().contains(id),
    ensures
        final(local_map)@ == joined(old(local_map)@, standing@),
{
    let ghost map = local_map@;
    let ends = find_ends(standing);
    let keys = entry_keys(&ends);
    let mut at: usize = 0;
    while at < keys.len()
        invariant
            at <= keys@.len(),
            are_ends(standing@, ends@),
            keys@.to_set() == ends@.dom(),
            forall|id: u64| #[trigger]
                standing@.dom().contains(id) ==> !map.dom().contains(id),
            forall|id: u64| #[trigger]
                local_map@.dom().contains(id) <==> map.dom().contains(id) || exists|i: int|
                    0 <= i < at && keys@[i] == id,
            forall|id: u64| #[trigger]
                map.dom().contains(id) ==> local_map@[id] == map[id],
            forall|i: int|
                0 <= i < at ==> local_map@[#[trigger] keys@[i]] == ends@[keys@[i]],
        decreases keys.len() - at,
    {
        let ghost before = local_map@;
        let key: u64 = keys[at];
        proof {
            assert(keys@.to_set().contains(keys@[at as int]));
            assert(standing@.dom().contains(key));
        }
        if let Some(end) = find_entry(&ends, key) {
            insert_entry(local_map, key, *end);
        }
        proof {
            assert forall|id: u64| #[trigger] local_map@.dom().contains(id) == (
            map.dom().contains(id) || exists|i: int| 0 <= i < at + 1 && keys@[i] == id) by {
                if before.dom().contains(id) && !map.dom().contains(id) {
                    let i = choose|i: int| 0 <= i < at && keys@[i] == id;
                    assert(keys@[i] == id);
                }
                if id == key {
                    assert(keys@[at as int] == id);
                }
            }
        }
        at += 1;
    }
    proof {
        let whole = joined(map, standing@);
        assert forall|id: u64| #[trigger] local_map@.dom().contains(id) == whole.dom().contains(
            id,
        ) by {
            if local_map@.dom().contains(id) && !map.dom().contains(id) {
                let i = choose|i: int| 0 <= i < keys@.len() && keys@[i] == id;
                assert(keys@.to_set().contains(keys@[i]));
            }
            if standing@.dom().contains(id) && local_map::ends(standing@, id) {
                assert(keys@.to_set().contains(id));
                let i = choose|i: int| 0 <= i < keys@.len() && keys@[i] == id;
                assert(keys@[i] == id);
            }
        }
        assert forall|id: u64| #[trigger] local_map@.dom().contains(id) implies local_map@[id]
            == whole[id] by {
            if !map.dom().contains(id) {
                let i = choose|i: int| 0 <= i < keys@.len() && keys@[i] == id;
                assert(local_map@[keys@[i]] == ends@[keys@[i]]);
                assert(keys@.to_set().contains(keys@[i]));
            }
        }
        assert(local_map@ =~= whole);
    }
}

/// Removes the unnecessary parameters of one block.
fn remove_from_block(
    function: &mut Function,
    local_map: &mut FxHashMap<u64, u64>,
    node: NodeId,
) -> (changed: bool)
    requires
        old(function).well_formed(),
        arguments_suffice(EdgeView::entering(old(function)@.edges, node)),
        local_map::ends_everywhere(old(local_map)@),
    ensures
        final(function).well_formed(),
        final(function)@ == (CfgView {
            edges: undropped(old(function)@.edges, old(local_map)@, node),
            ..old(function)@
        }),
        final(local_map)@ == ({
            let entering = EdgeView::entering(old(function)@.edges, node);
            joined(old(local_map)@, standing(entering, old(local_map)@, width(entering)))
        }),
        local_map::ends_everywhere(final(local_map)@),
        changed == drops_any(EdgeView::entering(old(function)@.edges, node)),
{
    let ghost cfg = function@;
    let ghost edges = cfg.edges;
    let ghost map = local_map@;
    let ghost into = EdgeView::entering(edges, node);
    let entering = function.edges_to_block(node);
    proof {
        function.edges_join_blocks();
        assert(EdgeReference::views(entering@) == into);
        assert(entering@.len() == into.len());
        lemma_joined_ends(into, map);
        lemma_standing(into, map, width(into));
    }
    let positions = unnecessary_positions(&entering);
    if !any_unnecessary(&positions) {
        proof {
            assert(!drops_any(into)) by {
                if drops_any(into) {
                    let k = choose|k: int|
                        0 <= k < width(into) && #[trigger] sole_argument(into, k) is Some;
                    assert(positions@[k] is Some);
                }
            }
            lemma_unchanged(edges, map, node);
            assert(function@ =~= (CfgView { edges: undropped(edges, map, node), ..cfg }));
        }
        return false;
    }
    proof {
        let k = choose|k: int| 0 <= k < positions@.len() && (#[trigger] positions@[k]) is Some;
        assert(sole_argument(into, k) is Some);
        assert(drops_any(into));
    }
    let (dropped, added) = find_standing(&entering, &positions, local_map);
    let list = kept_list(&entering, &dropped, local_map);
    let ghost listed = list@;
    proof {
        assert forall|k: int| 0 <= k < list@.len() implies has_number(
            edges,
            (#[trigger] list@[k]).0,
        ) by {
            let i = lemma_entering_member(edges, node, k);
            assert(edges[i].id == list@[k].0);
        }
        lemma_entering_distinct(edges, node);
        assert forall|k: int, l: int| 0 <= k < l < list@.len() implies list@[k].0 != list@[l].0 by {
            assert(into[k].id != into[l].id);
        }
    }
    replace_arguments(function, list);
    add_ends(local_map, &added);
    proof {
        let whole = undropped(edges, map, node);
        assert forall|i: int| 0 <= i < edges.len() implies (#[trigger] function@.edges[i])
            == whole[i] by {
            if edges[i].target == node {
                let e = lemma_entering_listed(edges, i);
                assert(listed[e].0 == edges[i].id);
            } else if is_listed(edges[i].id, listed, 0) {
                let k = choose|k: int|
                    0 <= k < listed.len() && (#[trigger] listed[k]).0 == edges[i].id;
                let j = lemma_entering_member(edges, node, k);
                assert(edges[j].id == edges[i].id);
                assert(false);
            }
        }
        assert(function@.edges =~= whole);
    }
    true
}

/// Removes the parameters of blocks that every edge gives one local, block by
/// block: each comes to stand for that local in the map, unless it is that
/// local itself under the map so far, or only leads back to parameters that do.
///
/// Every edge into a block must have an argument for each parameter of the
/// block.
pub fn remove_unnecessary_params(
    function: &mut Function,
    local_map: &mut FxHashMap<u64, u64>,
) -> (changed: bool)
    requires
        old(function).well_formed(),
        forall|node: u32| #[trigger]
            arguments_suffice(EdgeView::entering(old(function)@.edges, node)),
        local_map::ends_everywhere(old(local_map)@),
    ensures
        final(function).well_formed(),
        ({
            let removed = removed_from(
                old(function)@.edges,
                old(local_map)@,
                listing::listing(old(function)@.blocks.dom()),
                0,
            );
            &&& final(function)@ == (CfgView { edges: removed.0, ..old(function)@ })
            &&& final(local_map)@ == removed.1
            &&& changed == removed.2
        }),
        local_map::ends_everywhere(final(local_map)@),
        !changed ==> final(function)@ == old(function)@ && final(local_map)@ == old(local_map)@,
        final(function)@.edges.len() == old(function)@.edges.len(),
        forall|i: int|
            0 <= i < old(function)@.edges.len() ==> (#[trigger] final(function)@.edges[i]) == (
            EdgeView { arguments: final(function)@.edges[i].arguments, ..old(function)@.edges[i] })
                && is_subsequence(
                final(function)@.edges[i].arguments,
                old(function)@.edges[i].arguments,
            ),
{
    let ghost cfg = function@;
    let ghost edges = cfg.edges;
    let ghost map = local_map@;
    let nodes = function.nodes();
    let mut changed = false;
    let ghost whole = removed_from(edges, map, nodes@, 0);
    proof {
        let all = cfg.blocks.dom();
        assert(listing::is_listing(nodes@, all));
        listing::lemma_one_listing(nodes@, listing::listing(all), all);
        assert(function@ =~= (CfgView { edges: function@.edges, ..cfg }));
        assert forall|i: int| 0 <= i < edges.len() implies is_subsequence(
            (#[trigger] function@.edges[i]).arguments,
            edges[i].arguments,
        ) by {
            lemma_whole_part(edges[i].arguments);
        }
    }
    let mut index: usize = 0;
    while index < nodes.len()
        invariant
            index <= nodes.len(),
            edges == cfg.edges,
            forall|i: int, j: int| 0 <= i < j < nodes@.len() ==> nodes@[i] < nodes@[j],
            forall|node: u32| #[trigger] arguments_suffice(EdgeView::entering(edges, node)),
            function.well_formed(),
            function@ == (CfgView { edges: function@.edges, ..cfg }),
            local_map::ends_everywhere(local_map@),
            ({
                let rest = removed_from(function@.edges, local_map@, nodes@, index as int);
                whole == (rest.0, rest.1, rest.2 || changed)
            }),
            !changed ==> function@.edges == edges && local_map@ == map,
            function@.edges.len() == edges.len(),
            forall|i: int|
                0 <= i < edges.len() ==> (#[trigger] function@.edges[i]) == (EdgeView {
                    arguments: function@.edges[i].arguments,
                    ..edges[i]
                }) && is_subsequence(function@.edges[i].arguments, edges[i].arguments),
            forall|i: int|
                0 <= i < edges.len() && (forall|j: int|
                    0 <= j < index ==> nodes@[j] != edges[i].target) ==> (
                #[trigger] function@.edges[i]) == edges[i],
        decreases nodes.len() - index,
    {
        let node = nodes[index];
        let ghost now = function@.edges;
        let ghost known = local_map@;
        proof {
            assert forall|i: int| 0 <= i < now.len() implies (#[trigger] now[i]).target
                == edges[i].target && (now[i].target == node ==> now[i] == edges[i]) by {
                if now[i].target == node {
                    assert(forall|j: int| 0 <= j < index ==> nodes@[j] != edges[i].target);
                }
            }
            lemma_entering_same(now, edges, node);
            assert(arguments_suffice(EdgeView::entering(edges, node)));
            if !drops_any(EdgeView::entering(now, node)) {
                lemma_unchanged(now, known, node);
            }
        }
        let removed = remove_from_block(function, local_map, node);
        if removed {
            changed = true;
        }
        proof {
            let entering = EdgeView::entering(now, node);
            assert forall|i: int| 0 <= i < edges.len() implies (#[trigger] function@.edges[i]) == (
            EdgeView { arguments: function@.edges[i].arguments, ..edges[i] }) && is_subsequence(
                function@.edges[i].arguments,
                edges[i].arguments,
            ) by {
                assert(now[i].target == edges[i].target);
                if now[i].target == node {
                    let places = lemma_undropped_part(entering, known, edges[i].arguments, 0);
                    assert(is_placed(
                        function@.edges[i].arguments,
                        edges[i].arguments,
                        places,
                    ));
                } else {
                    assert(function@.edges[i] == now[i]);
                }
            }
            assert forall|i: int|
                0 <= i < edges.len() && (forall|j: int|
                    0 <= j < index + 1 ==> nodes@[j] != edges[i].target) implies (
            #[trigger] function@.edges[i]) == edges[i] by {
                assert(nodes@[index as int] != edges[i].target);
                assert(now[i] == edges[i]);
            }
        }
        index += 1;
    }
    changed
}

/// Whether a map renames only what another does, and parameters of the blocks
/// that are done.
spec fn renames_done(
    now: Map<u64, u64>,
    map: Map<u64, u64>,
    edges: Seq<EdgeView>,
    done: Set<u32>,
) -> bool {
    forall|id: u64| #[trigger]
        now.dom().contains(id) ==> map.dom().contains(id) || exists|i: int, k: int|
            0 <= i < edges.len() && 0 <= k < edges[i].arguments.len() && done.contains(
                edges[i].target,
            ) && (#[trigger] edges[i].arguments[k]).0.id == id
}

/// How far the unnecessary parameters of a function are removed, where they
/// agree.
spec fn is_halfway(
    edges: Seq<EdgeView>,
    map: Map<u64, u64>,
    now: Seq<EdgeView>,
    known: Map<u64, u64>,
    done: Set<u32>,
) -> bool {
    let whole = extended(edges, map);
    &&& partly_trimmed(now, edges, done)
    &&& all_descend(whole, known)
    &&& known.dom().subset_of(whole.dom())
    &&& map.dom().subset_of(known.dom())
    &&& has_parameters(known, edges, done)
    &&& renames_done(known, map, edges, done)
}

/// A parameter of a block that is still to come is not renamed.
proof fn lemma_unrenamed(
    edges: Seq<EdgeView>,
    map: Map<u64, u64>,
    known: Map<u64, u64>,
    done: Set<u32>,
    i: int,
    k: int,
)
    requires
        parameters_agree(edges),
        spares_parameters(edges, map),
        local_map::ends_everywhere(known),
        renames_done(known, map, edges, done),
        0 <= i < edges.len(),
        0 <= k < edges[i].arguments.len(),
        !done.contains(edges[i].target),
    ensures
        !known.dom().contains(edges[i].arguments[k].0.id),
        local_map::resolved(known, edges[i].arguments[k].0.id) == edges[i].arguments[k].0.id,
{
    let id = edges[i].arguments[k].0.id;
    if known.dom().contains(id) {
        assert(!map.dom().contains(edges[i].arguments[k].0.id));
        let (j, l) = choose|j: int, l: int|
            0 <= j < edges.len() && 0 <= l < edges[j].arguments.len() && done.contains(
                edges[j].target,
            ) && (#[trigger] edges[j].arguments[l]).0.id == id;
        assert(edges[i].arguments[k].0 == edges[j].arguments[l].0);
    }
    local_map::resolving_ends(known, id);
}

/// What the parameters of a block stand for, where they agree.
proof fn lemma_agreeing_standing(
    edges: Seq<EdgeView>,
    map: Map<u64, u64>,
    known: Map<u64, u64>,
    done: Set<u32>,
    node: u32,
    i: int,
    count: int,
)
    requires
        parameters_agree(edges),
        spares_parameters(edges, map),
        local_map::ends_everywhere(extended(edges, map)),
        all_descend(extended(edges, map), known),
        renames_done(known, map, edges, done),
        !done.contains(node),
        0 <= i < edges.len(),
        edges[i] == EdgeView::entering(edges, node)[0],
        edges[i].target == node,
        EdgeView::entering(edges, node).len() > 0,
        0 <= count <= edges[i].arguments.len(),
    ensures
        ({
            let into = EdgeView::entering(edges, node);
            let whole = extended(edges, map);
            let added = standing(into, known, count);
            &&& forall|id: u64| #[trigger]
                added.dom().contains(id) ==> descends(whole, id, added[id]) && whole.dom().contains(
                    id,
                ) && exists|k: int|
                    0 <= k < count && (#[trigger] edges[i].arguments[k]).0.id == id
            &&& forall|k: int|
                0 <= k < count && (#[trigger] sole_argument(into, k)) is Some && sole_argument(
                    into,
                    k,
                )->0.id != edges[i].arguments[k].0.id ==> added.dom().contains(
                    edges[i].arguments[k].0.id,
                )
        }),
    decreases count,
{
    let into = EdgeView::entering(edges, node);
    let whole = extended(edges, map);
    let added = standing(into, known, count);
    if count > 0 {
        let at = count - 1;
        let rest = standing(into, known, at);
        let id = edges[i].arguments[at].0.id;
        lemma_agreeing_standing(edges, map, known, done, node, i, at);
        lemma_descending(whole, known, id);
        lemma_unrenamed(edges, map, known, done, i, at);
        if sole_argument(into, at) is Some {
            let local = sole_argument(into, at)->0.id;
            assert(is_unnecessary(edges, i, at));
            lemma_stands_for(edges, i, at, map);
            if local != id {
                lemma_rank_step(whole, id);
                lemma_descending(whole, known, local);
                assert(descends(whole, id, local_map::resolved(known, local)));
            }
        }
        assert forall|other: u64| #[trigger] added.dom().contains(other) implies descends(
            whole,
            other,
            added[other],
        ) && whole.dom().contains(other) && exists|k: int|
            0 <= k < count && (#[trigger] edges[i].arguments[k]).0.id == other by {
            if other == id {
                assert(edges[i].arguments[at].0.id == other);
                if added[other] != local_map::resolved(known, sole_argument(into, at)->0.id)
                    || sole_argument(into, at) is None || sole_argument(into, at)->0.id == id {
                    assert(rest.dom().contains(other));
                    let k = choose|k: int|
                        0 <= k < at && (#[trigger] edges[i].arguments[k]).0.id == other;
                    assert(edges[i].arguments[k].0 == edges[i].arguments[at].0);
                }
            } else {
                assert(rest.dom().contains(other));
                let k = choose|k: int|
                    0 <= k < at && (#[trigger] edges[i].arguments[k]).0.id == other;
                assert(edges[i].arguments[k].0.id == other);
            }
        }
    }
}

/// What a block keeps of an edge's arguments, where parameters agree.
proof fn lemma_agreeing_kept(
    edges: Seq<EdgeView>,
    map: Map<u64, u64>,
    known: Map<u64, u64>,
    done: Set<u32>,
    i: int,
    from: int,
)
    requires
        parameters_agree(edges),
        spares_parameters(edges, map),
        local_map::ends_everywhere(known),
        renames_done(known, map, edges, done),
        0 <= i < edges.len(),
        !done.contains(edges[i].target),
        0 <= from <= edges[i].arguments.len(),
    ensures
        ({
            let into = EdgeView::entering(edges, edges[i].target);
            undropped_from(into, known, edges[i].arguments, from) == kept_from(
                into,
                edges[i].arguments,
                from,
            )
        }),
    decreases edges[i].arguments.len() - from,
{
    if from < edges[i].arguments.len() {
        let node = edges[i].target;
        let into = EdgeView::entering(edges, node);
        lemma_agreeing_kept(edges, map, known, done, i, from + 1);
        lemma_unrenamed(edges, map, known, done, i, from);
        let e = lemma_entering_listed(edges, i);
        let j = lemma_entering_member(edges, node, 0);
        assert(edges[i].arguments.len() == edges[j].arguments.len());
        let id = edges[i].arguments[from].0.id;
        assert(edges[i].arguments[from].0 == edges[j].arguments[from].0);
        if sole_argument(into, from) is Some {
            assert(parameter_end(into, known, from) == id);
            assert(is_dropped(into, known, id));
        }
        if is_dropped(into, known, id) {
            let k = choose|k: int|
                0 <= k < width(into) && #[trigger] sole_argument(into, k) is Some && parameter_end(
                    into,
                    known,
                    k,
                ) == id;
            lemma_unrenamed(edges, map, known, done, j, k);
            assert(edges[j].arguments[k].0 == edges[j].arguments[from].0);
        }
    }
}

/// Where parameters agree, a block loses those that are always given one local.
proof fn lemma_agreeing_block(
    edges: Seq<EdgeView>,
    map: Map<u64, u64>,
    now: Seq<EdgeView>,
    known: Map<u64, u64>,
    done: Set<u32>,
    node: u32,
)
    requires
        parameters_agree(edges),
        spares_parameters(edges, map),
        local_map::ends_everywhere(extended(edges, map)),
        is_halfway(edges, map, now, known, done),
        !done.contains(node),
    ensures
        ({
            let entering = EdgeView::entering(now, node);
            is_halfway(
                edges,
                map,
                undropped(now, known, node),
                joined(known, standing(entering, known, width(entering))),
                done.insert(node),
            )
        }),
{
    let whole = extended(edges, map);
    let into = EdgeView::entering(edges, node);
    let next = done.insert(node);
    assert forall|i: int| 0 <= i < now.len() implies (#[trigger] now[i]).target
        == edges[i].target && (now[i].target == node ==> now[i] == edges[i]) by {
    }
    lemma_entering_same(now, edges, node);
    let added = standing(into, known, width(into));
    let more = joined(known, added);
    let left = undropped(now, known, node);
    lemma_descending(whole, known, 0);
    assert(forall|id: u64| added.dom().contains(id) ==> into.len() > 0) by {
        if into.len() == 0 {
            assert(added =~= Map::empty());
        }
    }
    if into.len() > 0 {
        let i = lemma_entering_member(edges, node, 0);
        lemma_agreeing_standing(edges, map, known, done, node, i, width(into));
        lemma_standing(into, known, width(into));
        assert(all_descend(whole, added));
        lemma_descending(whole, added, 0);
        assert forall|id: u64| #[trigger] more.dom().contains(id) implies descends(
            whole,
            id,
            more[id],
        ) && whole.dom().contains(id) by {
            if !known.dom().contains(id) {
                assert(descends(whole, id, added[id]));
                local_map::lemma_resolved_step(added, id);
                lemma_descending(whole, added, added[id]);
            }
        }
        assert(renames_done(more, map, edges, next)) by {
            assert forall|id: u64| #[trigger] more.dom().contains(id) implies map.dom().contains(
                id,
            ) || exists|j: int, k: int|
                0 <= j < edges.len() && 0 <= k < edges[j].arguments.len() && next.contains(
                    edges[j].target,
                ) && (#[trigger] edges[j].arguments[k]).0.id == id by {
                if !map.dom().contains(id) {
                    if known.dom().contains(id) {
                        let (j, k) = choose|j: int, k: int|
                            0 <= j < edges.len() && 0 <= k < edges[j].arguments.len()
                                && done.contains(edges[j].target) && (
                            #[trigger] edges[j].arguments[k]).0.id == id;
                        assert(next.contains(edges[j].target));
                    } else {
                        let k = choose|k: int|
                            0 <= k < width(into) && (#[trigger] edges[i].arguments[k]).0.id == id;
                        assert(edges[i].arguments[k].0.id == id && next.contains(edges[i].target));
                    }
                }
            }
        }
        assert(has_parameters(more, edges, next)) by {
            assert forall|j: int, k: int| #[trigger]
                is_unnecessary(edges, j, k) && next.contains(edges[j].target) && sole_argument(
                    EdgeView::entering(edges, edges[j].target),
                    k,
                )->0.id != edges[j].arguments[k].0.id implies more.dom().contains(
                edges[j].arguments[k].0.id,
            ) by {
                if edges[j].target == node {
                    assert(edges[i].arguments.len() == edges[j].arguments.len());
                    assert(edges[i].arguments[k].0 == edges[j].arguments[k].0);
                    assert(sole_argument(into, k) is Some);
                    assert(added.dom().contains(edges[i].arguments[k].0.id));
                    assert(local_map::ends(added, edges[i].arguments[k].0.id));
                } else {
                    assert(done.contains(edges[j].target));
                }
            }
        }
    } else {
        assert(added =~= Map::empty());
        assert(more =~= known);
        assert forall|j: int| 0 <= j < edges.len() implies (#[trigger] edges[j]).target
            != node by {
            if edges[j].target == node {
                let e = lemma_entering_listed(edges, j);
            }
        }
        assert(renames_done(more, map, edges, next)) by {
            assert forall|id: u64| #[trigger] more.dom().contains(id) implies map.dom().contains(
                id,
            ) || exists|j: int, k: int|
                0 <= j < edges.len() && 0 <= k < edges[j].arguments.len() && next.contains(
                    edges[j].target,
                ) && (#[trigger] edges[j].arguments[k]).0.id == id by {
                if !map.dom().contains(id) {
                    let (j, k) = choose|j: int, k: int|
                        0 <= j < edges.len() && 0 <= k < edges[j].arguments.len()
                            && done.contains(edges[j].target) && (
                        #[trigger] edges[j].arguments[k]).0.id == id;
                    assert(next.contains(edges[j].target));
                }
            }
        }
        assert(has_parameters(more, edges, next));
    }
    assert forall|i: int| 0 <= i < edges.len() implies (#[trigger] left[i]) == (
    if next.contains(edges[i].target) {
        trimmed(edges, edges[i])
    } else {
        edges[i]
    }) by {
        assert(now[i].target == edges[i].target);
        if edges[i].target == node {
            lemma_agreeing_kept(edges, map, known, done, i, 0);
        }
    }
}

proof fn lemma_agreeing_from(
    edges: Seq<EdgeView>,
    map: Map<u64, u64>,
    nodes: Seq<u32>,
    from: int,
    now: Seq<EdgeView>,
    known: Map<u64, u64>,
    done: Set<u32>,
)
    requires
        parameters_agree(edges),
        spares_parameters(edges, map),
        local_map::ends_everywhere(extended(edges, map)),
        is_halfway(edges, map, now, known, done),
        forall|i: int, j: int| 0 <= i < j < nodes.len() ==> nodes[i] < nodes[j],
        0 <= from <= nodes.len(),
        forall|node: u32| #[trigger]
            done.contains(node) <==> exists|i: int| 0 <= i < from && nodes[i] == node,
    ensures
        ({
            let removed = removed_from(now, known, nodes, from);
            is_halfway(edges, map, removed.0, removed.1, nodes.to_set())
        }),
    decreases nodes.len() - from,
{
    if from < nodes.len() {
        let node = nodes[from];
        if done.contains(node) {
            let i = choose|i: int| 0 <= i < from && nodes[i] == node;
            assert(nodes[i] < nodes[from]);
        }
        lemma_agreeing_block(edges, map, now, known, done, node);
        let entering = EdgeView::entering(now, node);
        let next = done.insert(node);
        assert forall|other: u32| #[trigger]
            next.contains(other) == exists|i: int| 0 <= i < from + 1 && nodes[i] == other by {
            if done.contains(other) {
                let i = choose|i: int| 0 <= i < from && nodes[i] == other;
                assert(nodes[i] == other);
            }
            if other == node {
                assert(nodes[from] == other);
            }
        }
        lemma_agreeing_from(
            edges,
            map,
            nodes,
            from + 1,
            undropped(now, known, node),
            joined(known, standing(entering, known, width(entering))),
            next,
        );
    } else {
        assert forall|node: u32| done.contains(node) == nodes.to_set().contains(node) by {
            if nodes.contains(node) {
                let i = choose|i: int| 0 <= i < nodes.len() && nodes[i] == node;
                assert(nodes[i] == node);
            }
        }
        assert(done =~= nodes.to_set());
    }
}

/// Where every parameter belongs to one block, at one position, and neither the
/// map renames one nor a local comes to stand for itself, the blocks lose the
/// parameters that are always given one local, and each leads where that local
/// leads.
pub proof fn agreeing_parameters_are_removed(
    edges: Seq<EdgeView>,
    map: Map<u64, u64>,
    nodes: Seq<u32>,
)
    requires
        parameters_agree(edges),
        spares_parameters(edges, map),
        local_map::ends_everywhere(extended(edges, map)),
        forall|i: int, j: int| 0 <= i < j < nodes.len() ==> nodes[i] < nodes[j],
        forall|i: int|
            0 <= i < edges.len() ==> nodes.to_set().contains((#[trigger] edges[i]).target),
    ensures
        ({
            let removed = removed_from(edges, map, nodes, 0);
            &&& removed.0 == edges.map_values(|edge: EdgeView| trimmed(edges, edge))
            &&& local_map::rename_alike(removed.1, extended(edges, map))
            &&& local_map::ends_everywhere(removed.1)
        }),
        forall|node: u32| #[trigger] arguments_suffice(EdgeView::entering(edges, node)),
        local_map::ends_everywhere(map),
{
    let whole = extended(edges, map);
    let none = Set::<u32>::empty();
    assert forall|id: u64| #[trigger] map.dom().contains(id) implies descends(
        whole,
        id,
        map[id],
    ) by {
        lemma_rank_step(whole, id);
    }
    lemma_descending(whole, map, 0);
    assert(is_halfway(edges, map, edges, map, none));
    lemma_agreeing_from(edges, map, nodes, 0, edges, map, none);
    let removed = removed_from(edges, map, nodes, 0);
    let done = nodes.to_set();
    assert(removed.0 =~= edges.map_values(|edge: EdgeView| trimmed(edges, edge)));
    assert forall|id: u64| whole.dom().contains(id) implies removed.1.dom().contains(id) by {
        if !map.dom().contains(id) {
            let local = choose|local: u64| stands_for(edges, id, local);
            assert(stands_for(edges, id, local));
            let (i, k) = choose|i: int, k: int| #[trigger]
                is_unnecessary(edges, i, k) && edges[i].arguments[k].0.id == id && sole_argument(
                    EdgeView::entering(edges, edges[i].target),
                    k,
                )->0.id == local && local != id;
            assert(done.contains(edges[i].target));
        }
    }
    assert(removed.1.dom() =~= whole.dom());
    lemma_descending(whole, removed.1, 0);
    assert forall|id: u64| #[trigger]
        local_map::resolved(removed.1, id) == local_map::resolved(whole, id) by {
        lemma_descending(whole, removed.1, id);
        local_map::resolving_ends(removed.1, id);
        local_map::resolving_ends(whole, local_map::resolved(removed.1, id));
    }
    assert forall|node: u32| #[trigger] arguments_suffice(EdgeView::entering(edges, node)) by {
        let into = EdgeView::entering(edges, node);
        assert forall|e: int| 0 <= e < into.len() implies (#[trigger] into[e]).arguments.len()
            >= width(into) by {
            let i = lemma_entering_member(edges, node, e);
            let j = lemma_entering_member(edges, node, 0);
            assert(edges[i].arguments.len() == edges[j].arguments.len());
        }
    }
}

} // verus!
