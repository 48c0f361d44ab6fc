//! The order in which the values of a function are defined.

use vstd::prelude::*;

use crate::ast::local::RcLocal;
use crate::ast::nodes;
use crate::ast::nodes::{LValueView, RValueView, StatementView, Upvalue};
use crate::ast::rewrite;
use crate::cfg::block::EdgeView;
use crate::cfg::graph;
use crate::cfg::ssa::capture_flow;
use crate::cfg::ssa::copies;
use crate::cfg::ssa::copies::CopyOrder;
use crate::cfg::ssa::local_map;
use crate::cfg::ssa::numbering;
use crate::cfg::ssa::numbering::{Frame, Numbering, Origin, Progress};
use crate::cfg::ssa::params;

verus! {

broadcast use nodes::group_views;

impl Frame {
    /// Whether every definition of the function was given a local of its own.
    pub open spec fn is_built(self, st: Numbering) -> bool {
        &&& self.holds(st, (Progress { node: None, written: 0, whole: 0 }), Set::empty())
        &&& st.filled == self.cfg.blocks.dom()
        &&& st.sealed == self.cfg.blocks.dom().remove(self.entry)
        &&& self.keeps_seals(st.made, st.sealed, st.sealed_at, st.filled, st.count)
    }

    /// How late a new local is defined along the walk.
    pub open spec fn value_rank(self, st: Numbering, id: u64) -> int {
        if self.rank(st.made[id]) < 0 {
            0
        } else {
            self.rank(st.made[id])
        }
    }

    /// How late each new local is defined along the walk.
    pub open spec fn order(self, st: Numbering) -> CopyOrder {
        CopyOrder {
            old: st.old,
            rank: |id: u64| self.value_rank(st, id),
            defined: Set::new(|id: u64| st.is_new(id) && st.made[id] is Written),
        }
    }

    proof fn lemma_value(self, st: Numbering, n: u32, t: int, k: int)
        requires
            self.is_valid(),
            self.is_built(st),
            self.cfg.blocks.dom().contains(n),
            0 <= t < self.cfg.blocks[n].len(),
            0 <= k < self.cfg.blocks[n][t].reads().len(),
        ensures
            ({
                let read = self.cfg.blocks[n][t].reads()[k].id;
                let value = st.values[(n, t)][read];
                &&& st.values.dom().contains((n, t))
                &&& st.values[(n, t)].dom().contains(read)
                &&& st.is_new(value)
                &&& self.value_rank(st, value) <= self.place(n) * 0x1_0000_0000_0000_0000
                    + self.view_point(n, t)
            }),
    {
        reveal(Frame::holds);
        let read = self.cfg.blocks[n][t].reads()[k].id;
        let value = st.values[(n, t)][read];
        let point = self.view_point(n, t);
        assert(self.is_numbered(st, n, t));
        assert(st.seen(n, read, point) == Some(value));
        self.lemma_placed(n);
        let place = numbering::lemma_last_member(st.cfg.blocks[n], st.old, read, point);
        match numbering::last_before(st.cfg.blocks[n], st.old, read, point) {
            Some(_) => {
                assert(self.is_written(st, n, place.0));
                assert(st.made[value] == Origin::Written(n, place.0, place.1));
            },
            None => {
                assert(st.starts.dom().contains((n, read)));
                assert(self.is_start(st, n, read));
            },
        }
    }

    /// The locals of a statement are new, and a copy is of one that was defined
    /// before.
    pub proof fn lemma_allowed(self, st: Numbering, n: u32, t: int)
        requires
            self.is_valid(),
            self.is_built(st),
            self.cfg.blocks.dom().contains(n),
            0 <= t < self.cfg.blocks[n].len(),
        ensures
            st.cfg.blocks[n].len() == self.cfg.blocks[n].len(),
            self.order(st).allows(st.cfg.blocks[n][t]),
            forall|k: int|
                0 <= k < capture_flow::captures(st.cfg.blocks[n][t]).len()
                    ==> st.old.dom().contains(
                    (#[trigger] capture_flow::captures(st.cfg.blocks[n][t])[k]).id,
                ),
    {
        let before = self.cfg.blocks[n][t];
        let after = st.cfg.blocks[n][t];
        let f = numbering::through(st.values[(n, t)]);
        assert(self.is_written(st, n, t) && self.is_numbered(st, n, t)
            && st.cfg.blocks[n].len() == self.cfg.blocks[n].len()) by {
            reveal(Frame::holds);
        }
        rewrite::rereading_renames_reads(before, f);
        rewrite::rewriting_gives_writes(before.reread(f), after.writes());
        assert(after.reads() == before.reads().map_values(f));
        assert forall|k: int| 0 <= k < after.reads().len() implies st.old.dom().contains(
            (#[trigger] after.reads()[k]).id,
        ) && self.value_rank(st, after.reads()[k].id) <= self.place(n) * 0x1_0000_0000_0000_0000
            + self.view_point(n, t) by {
            self.lemma_value(st, n, t, k);
            assert(after.reads()[k] == f(before.reads()[k]));
        }
        assert forall|k: int| 0 <= k < after.locals().len() implies st.old.dom().contains(
            (#[trigger] after.locals()[k]).id,
        ) by {
            if k < after.reads().len() {
                assert(after.locals()[k] == after.reads()[k]);
            } else {
                assert(after.locals()[k] == after.writes()[k - after.reads().len()]);
                assert(st.is_new(after.writes()[k - after.reads().len()].id));
            }
        }
        lemma_captures_read(after);
        assert forall|k: int|
            0 <= k < capture_flow::captures(after).len() implies st.old.dom().contains(
            (#[trigger] capture_flow::captures(after)[k]).id,
        ) by {
            assert(after.reads().contains(capture_flow::captures(after)[k]));
            let j = choose|j: int|
                0 <= j < after.reads().len() && after.reads()[j] == capture_flow::captures(
                    after,
                )[k];
            assert(st.old.dom().contains(after.reads()[j].id));
        }
        match copies::copy_parts(after) {
            Some((from, source)) => {
                lemma_copy_shape(after);
                assert(after.reads()[0].id == source);
                assert(after.writes()[0].id == from);
                assert(st.made[after.writes()[0].id] == Origin::Written(n, t, 0));
                self.lemma_placed(n);
                lemma_copy_is_no_closure(before, f, after.writes());
                assert(self.view_point(n, t) == t);
                assert(self.value_rank(st, from) == self.place(n) * 0x1_0000_0000_0000_0000 + t
                    + 1);
            },
            None => {},
        }
    }
}

/// Edges with their arguments renamed.
pub open spec fn renamed_edges(edges: Seq<EdgeView>, map: Map<u64, u64>) -> Seq<EdgeView> {
    edges.map_values(
        |edge: EdgeView|
            local_map::renamed_edge(edge, |l: RcLocal| local_map::resolved_local(map, l)),
    )
}

impl Frame {
    /// The parameters of blocks are not renamed by a map that leads back, and
    /// what they are given was not defined later than before.
    proof fn lemma_renamed_argument(self, st: Numbering, map: Map<u64, u64>, i: int, k: int)
        requires
            self.is_valid(),
            self.is_built(st),
            self.order(st).leads_back(map),
            0 <= i < st.cfg.edges.len(),
            0 <= k < st.cfg.edges[i].arguments.len(),
        ensures
            ({
                let edge = renamed_edges(st.cfg.edges, map)[i];
                let before = st.cfg.edges[i].arguments[k];
                let value = edge.arguments[k].1;
                &&& edge.arguments.len() == st.cfg.edges[i].arguments.len()
                &&& edge.target == st.cfg.edges[i].target
                &&& edge.arguments[k].0 == before.0
                &&& st.is_new(before.0.id)
                &&& st.made[before.0.id] == Origin::Start(edge.target, st.old[before.0.id])
                &&& value is Local
                &&& st.is_new(value->Local_0.id)
                &&& self.cfg.blocks.dom().contains(edge.source)
                &&& self.value_rank(st, value->Local_0.id) < (self.place(edge.source) + 1)
                    * 0x1_0000_0000_0000_0000
            }),
    {
        let order = self.order(st);
        let before = st.cfg.edges[i].arguments[k];
        assert(st.cfg.edges.len() == self.cfg.edges.len() && self.is_argument(st, i, k)
            && numbering::is_joint(st.cfg.edges[i], self.cfg.edges[i])) by {
            reveal(Frame::holds);
        }
        let parameter = before.0.id;
        let value = before.1->Local_0.id;
        assert(!map.dom().contains(parameter));
        assert(local_map::ends_within(map, parameter, 0));
        local_map::lemma_resolved_within(map, parameter, 0);
        order.lemma_leads_back(map, value);
        self.lemma_placed(self.cfg.edges[i].source);
        assert((order.rank)(value) == self.value_rank(st, value));
        let other = local_map::resolved(map, value);
        assert((order.rank)(other) == self.value_rank(st, other));
    }

    /// A block other than the entry has an edge from a block that comes before
    /// it on the walk.
    proof fn lemma_edge_before(self, n: u32) -> (e: int)
        requires
            self.is_valid(),
            self.cfg.blocks.dom().contains(n),
            n != self.entry,
        ensures
            0 <= e < self.cfg.edges.len(),
            self.cfg.edges[e].target == n,
            0 <= self.place(self.cfg.edges[e].source) < self.place(n),
    {
        self.lemma_placed(n);
        let j = self.place(n);
        assert(self.walk[0] == self.entry);
        assert(j != 0);
        assert(graph::follows_earlier(EdgeView::arcs(self.cfg.edges), self.walk, j));
        let i = choose|i: int|
            0 <= i < j && EdgeView::arcs(self.cfg.edges).contains(
                (#[trigger] self.walk[i], self.walk[j]),
            );
        self.lemma_place(i);
        choose|e: int|
            0 <= e < self.cfg.edges.len() && (#[trigger] self.cfg.edges[e]).source == self.walk[i]
                && self.cfg.edges[e].target == n
    }

    proof fn lemma_agree(self, st: Numbering, map: Map<u64, u64>)
        requires
            self.is_valid(),
            self.is_built(st),
            self.order(st).leads_back(map),
        ensures
            params::parameters_agree(renamed_edges(st.cfg.edges, map)),
    {
        let edges = st.cfg.edges;
        let renamed = renamed_edges(edges, map);
        assert forall|i: int, j: int|
            0 <= i < renamed.len() && 0 <= j < renamed.len() && renamed[i].target
                == renamed[j].target implies (#[trigger] renamed[i]).arguments.len() == (
        #[trigger] renamed[j]).arguments.len() by {
            self.lemma_same_parameters(st, i, j);
            assert(numbering::parameters_of(edges[i]).len() == numbering::parameters_of(
                edges[j],
            ).len());
        }
        assert forall|i: int, j: int, k: int, l: int|
            0 <= i < renamed.len() && 0 <= j < renamed.len() && 0 <= k
                < renamed[i].arguments.len() && 0 <= l < renamed[j].arguments.len() implies ((
        #[trigger] renamed[i].arguments[k]).0 == (#[trigger] renamed[j].arguments[l]).0
            <==> renamed[i].target == renamed[j].target && k == l) by {
            self.lemma_renamed_argument(st, map, i, k);
            self.lemma_renamed_argument(st, map, j, l);
            if renamed[i].target == renamed[j].target {
                self.lemma_same_parameters(st, i, j);
                let parameters = numbering::parameters_of(edges[i]);
                assert(parameters[k] == edges[i].arguments[k].0);
                assert(parameters[l] == edges[j].arguments[l].0) by {
                    assert(numbering::parameters_of(edges[j])[l] == edges[j].arguments[l].0);
                }
            }
        }
    }

    proof fn lemma_same_parameters(self, st: Numbering, i: int, j: int)
        requires
            self.is_built(st),
            0 <= i < st.cfg.edges.len(),
            0 <= j < st.cfg.edges.len(),
            st.cfg.edges[i].target == st.cfg.edges[j].target,
        ensures
            numbering::parameters_of(st.cfg.edges[i]) == numbering::parameters_of(st.cfg.edges[j]),
            numbering::parameters_of(st.cfg.edges[i]).no_duplicates(),
    {
        reveal(Frame::holds);
    }

    proof fn lemma_stands_for(
        self,
        st: Numbering,
        map: Map<u64, u64>,
        parameter: u64,
        local: u64,
    )
        requires
            self.is_valid(),
            self.is_built(st),
            self.order(st).leads_back(map),
            params::stands_for(renamed_edges(st.cfg.edges, map), parameter, local),
        ensures
            st.is_new(parameter),
            st.is_new(local),
            0 <= self.value_rank(st, local) < self.value_rank(st, parameter),
    {
        let edges = renamed_edges(st.cfg.edges, map);
        let (i, position) = choose|i: int, position: int| #[trigger]
            params::is_unnecessary(edges, i, position) && edges[i].arguments[position].0.id
                == parameter && params::sole_argument(
                EdgeView::entering(edges, edges[i].target),
                position,
            )->0.id == local && local != parameter;
        let n = edges[i].target;
        assert(st.cfg.edges.len() == self.cfg.edges.len() && numbering::is_joint(
            st.cfg.edges[i],
            self.cfg.edges[i],
        )) by {
            reveal(Frame::holds);
        }
        if n == self.entry {
            let _ = params::lemma_entering_listed(self.cfg.edges, i);
        }
        self.lemma_renamed_argument(st, map, i, position);
        let e = self.lemma_edge_before(n);
        assert(numbering::is_joint(st.cfg.edges[e], self.cfg.edges[e])) by {
            reveal(Frame::holds);
        }
        self.lemma_same_parameters(st, i, e);
        assert(numbering::parameters_of(st.cfg.edges[i]).len() == numbering::parameters_of(
            st.cfg.edges[e],
        ).len());
        self.lemma_renamed_argument(st, map, e, position);
        let entering = EdgeView::entering(edges, n);
        let listed = params::lemma_entering_listed(edges, e);
        assert(entering[listed].arguments[position].1 == entering[0].arguments[position].1);
        self.lemma_placed(n);
    }

    /// Removing the parameters of blocks that are always given one local leads
    /// back as well.
    pub proof fn lemma_parameters(self, st: Numbering, map: Map<u64, u64>)
        requires
            self.is_valid(),
            self.is_built(st),
            self.order(st).leads_back(map),
        ensures
            params::parameters_agree(renamed_edges(st.cfg.edges, map)),
            params::spares_parameters(renamed_edges(st.cfg.edges, map), Map::empty()),
            ({
                let more = params::extended(renamed_edges(st.cfg.edges, map), Map::empty());
                &&& local_map::ends_everywhere(more)
                &&& forall|id: u64| #[trigger]
                    more.dom().contains(id) ==> st.is_new(id) && st.is_new(
                        local_map::resolved(more, id),
                    )
            }),
    {
        self.lemma_agree(st, map);
        let edges = renamed_edges(st.cfg.edges, map);
        let more = params::extended(edges, Map::empty());
        let rank = |id: u64| self.value_rank(st, id);
        assert forall|id: u64| #[trigger] more.dom().contains(id) implies st.is_new(id)
            && st.is_new(more[id]) && 0 <= rank(more[id]) < rank(id) by {
            let local = choose|local: u64| params::stands_for(edges, id, local);
            self.lemma_stands_for(st, map, id, local);
        }
        local_map::lemma_descending_map(more, rank);
        assert forall|id: u64| #[trigger] more.dom().contains(id) implies st.is_new(
            local_map::resolved(more, id),
        ) by {
            local_map::lemma_resolved_keeps(more, |x: u64| st.is_new(x), id);
        }
    }
}

/// What a closure holds by reference is read where it is made.
proof fn lemma_captures_read(statement: StatementView)
    ensures
        forall|k: int|
            0 <= k < capture_flow::captures(statement).len() ==> statement.reads().contains(
                #[trigger] capture_flow::captures(statement)[k],
            ),
{
    match statement {
        StatementView::Assign(assign) => {
            let held = capture_flow::held_by_from(assign.right, 0);
            lemma_held_by_read(assign.right, 0);
            let first = LValueView::reads_from(assign.left, 0);
            let second = RValueView::reads_from(assign.right, 0);
            assert forall|k: int| 0 <= k < held.len() implies (first + second).contains(
                #[trigger] held[k],
            ) by {
                assert(second.contains(held[k]));
                let j = choose|j: int| 0 <= j < second.len() && second[j] == held[k];
                assert((first + second)[first.len() + j] == held[k]);
            }
        },
        _ => {},
    }
}

proof fn lemma_held_by_read(values: Seq<RValueView>, from: int)
    requires
        0 <= from,
    ensures
        forall|k: int|
            0 <= k < capture_flow::held_by_from(values, from).len() ==> RValueView::reads_from(
                values,
                from,
            ).contains(#[trigger] capture_flow::held_by_from(values, from)[k]),
    decreases values.len() - from,
{
    if from < values.len() {
        lemma_held_by_read(values, from + 1);
        let rest = capture_flow::held_by_from(values, from + 1);
        let held = capture_flow::held_by_from(values, from);
        let first = values[from].reads();
        let second = RValueView::reads_from(values, from + 1);
        let own: Seq<RcLocal> = match values[from] {
            RValueView::Closure(closure) => capture_flow::held_from(closure.upvalues, 0),
            _ => Seq::empty(),
        };
        assert(held =~= own + rest);
        if let RValueView::Closure(closure) = values[from] {
            lemma_held_read(closure.upvalues, 0);
        }
        assert forall|k: int| 0 <= k < held.len() implies (first + second).contains(
            #[trigger] held[k],
        ) by {
            if k < own.len() {
                assert(first.contains(own[k]));
                let j = choose|j: int| 0 <= j < first.len() && first[j] == own[k];
                assert((first + second)[j] == held[k]);
            } else {
                assert(held[k] == rest[k - own.len()]);
                assert(second.contains(rest[k - own.len()]));
                let j = choose|j: int| 0 <= j < second.len() && second[j] == rest[k - own.len()];
                assert((first + second)[first.len() + j] == held[k]);
            }
        }
    }
}

proof fn lemma_held_read(upvalues: Seq<Upvalue>, from: int)
    requires
        0 <= from,
    ensures
        forall|k: int|
            0 <= k < capture_flow::held_from(upvalues, from).len() ==> upvalues.map_values(
                |u: Upvalue| u.captured(),
            ).contains(#[trigger] capture_flow::held_from(upvalues, from)[k]),
    decreases upvalues.len() - from,
{
    if from < upvalues.len() {
        lemma_held_read(upvalues, from + 1);
        let captured = upvalues.map_values(|u: Upvalue| u.captured());
        let rest = capture_flow::held_from(upvalues, from + 1);
        let held = capture_flow::held_from(upvalues, from);
        assert forall|k: int| 0 <= k < held.len() implies captured.contains(#[trigger] held[k]) by {
            match upvalues[from] {
                Upvalue::Ref(local) => {
                    assert(captured[from] == local);
                    if k > 0 {
                        assert(held[k] == rest[k - 1]);
                    }
                },
                Upvalue::Copy(_) => {
                    assert(held[k] == rest[k]);
                },
            }
        }
    }
}

/// A copy reads its source and writes its target.
pub proof fn lemma_copy_shape(statement: StatementView)
    requires
        copies::copy_parts(statement) is Some,
    ensures
        ({
            let parts = copies::copy_parts(statement)->0;
            &&& statement.reads() == seq![RcLocal { id: parts.1 }]
            &&& statement.writes() == seq![RcLocal { id: parts.0 }]
        }),
{
    if let StatementView::Assign(assign) = statement {
        reveal_with_fuel(LValueView::reads_from, 2);
        reveal_with_fuel(LValueView::writes_from, 2);
        reveal_with_fuel(RValueView::reads_from, 2);
        assert(assign.left[0].children() =~= Seq::empty());
        assert(assign.left[0].reads() =~= Seq::empty());
        assert(statement.reads() =~= assign.right[0].reads());
        assert(statement.writes() =~= assign.left[0].writes());
    }
}

/// What assigned a closure is no copy.
proof fn lemma_copy_is_no_closure(
    statement: StatementView,
    f: spec_fn(RcLocal) -> RcLocal,
    locals: Seq<RcLocal>,
)
    requires
        copies::copy_parts(statement.reread(f).rewritten_to(locals)) is Some,
    ensures
        !numbering::defines_closure(statement),
{
    if numbering::defines_closure(statement) {
        if let StatementView::Assign(assign) = statement {
            reveal_with_fuel(LValueView::arity_from, 2);
            reveal_with_fuel(LValueView::children_from, 2);
            reveal_with_fuel(RValueView::renamed_from, 2);
            assert(assign.left[0].children() =~= Seq::empty());
            assert(statement.roots() =~= assign.right);
            let roots = RValueView::renamed_from(statement.roots(), 0, f);
            assert(roots[0] == assign.right[0].renamed(f));
            assert(roots.skip(0) =~= roots);
        }
    }
}

} // verus!
