//! Giving every definition of a function a local of its own.

use vstd::prelude::*;

use rustc_hash::{FxHashMap, FxHashSet};

use crate::ast::local::{Locals, RcLocal};
use crate::ast::local_rw::LocalRw;
use crate::ast::nodes;
use crate::ast::nodes::{Block, LValue, RValue, Statement};
use crate::ast::rename::Renaming;
use crate::ast::rewrite;
use crate::cfg::block::{BlockEdge, EdgeView};
use crate::cfg::function::{CfgView, EdgeReference, Function};
use crate::cfg::graph::NodeId;
use crate::cfg::ssa::numbering;
use crate::cfg::ssa::numbering::{Frame, Numbering, Origin, Progress};
use crate::cfg::ssa::params;
use crate::cfg::ssa::params::replace_arguments;
use crate::cfg::ssa::value_sources;
use crate::collections::{
    empty_map, find_entry, has_member, insert_entry, insert_member, remove_entry,
};

verus! {

broadcast use nodes::group_views;

/// The values as far as the blocks were gone through, by block and local.
pub open spec fn flat(map: Map<u64, FxHashMap<u64, u64>>) -> Map<(u32, u64), u64> {
    Map::new(
        |key: (u32, u64)|
            map.dom().contains(key.0 as u64) && map[key.0 as u64]@.dom().contains(key.1),
        |key: (u32, u64)| map[key.0 as u64]@[key.1],
    )
}

/// How many of the blocks from position `from` on have no value for a local.
pub open spec fn unknown_from(
    current: Map<(u32, u64), u64>,
    walk: Seq<u32>,
    local: u64,
    from: int,
) -> nat
    decreases walk.len() - from,
{
    if 0 <= from < walk.len() {
        unknown_from(current, walk, local, from + 1) + (if current.dom().contains(
            (walk[from], local),
        ) {
            0nat
        } else {
            1nat
        })
    } else {
        0
    }
}

proof fn lemma_unknown(
    before: Map<(u32, u64), u64>,
    after: Map<(u32, u64), u64>,
    walk: Seq<u32>,
    local: u64,
    from: int,
)
    requires
        0 <= from,
        numbering::is_part(before, after),
    ensures
        unknown_from(after, walk, local, from) <= unknown_from(before, walk, local, from),
        (exists|i: int|
            from <= i < walk.len() && !before.dom().contains((#[trigger] walk[i], local))
                && after.dom().contains((walk[i], local))) ==> unknown_from(
            after,
            walk,
            local,
            from,
        ) < unknown_from(before, walk, local, from),
    decreases walk.len() - from,
{
    if from < walk.len() {
        lemma_unknown(before, after, walk, local, from + 1);
        assert(before.dom().contains((walk[from], local)) ==> after.dom().contains(
            (walk[from], local),
        ));
        if exists|i: int|
            from <= i < walk.len() && !before.dom().contains((#[trigger] walk[i], local))
                && after.dom().contains((walk[i], local)) {
            let i = choose|i: int|
                from <= i < walk.len() && !before.dom().contains((#[trigger] walk[i], local))
                    && after.dom().contains((walk[i], local));
            if i > from {
                assert(from + 1 <= i < walk.len());
            }
        }
    }
}

/// Puts the locals of a map in the place of others.
pub struct Values<'a> {
    pub map: &'a FxHashMap<u64, u64>,
}

impl<'a> Renaming for Values<'a> {
    open spec fn image(&self, local: RcLocal) -> RcLocal {
        numbering::through(self.map@)(local)
    }

    open spec fn is_total(&self) -> bool {
        true
    }

    fn rename(&self, local: RcLocal) -> (renamed: RcLocal) {
        match find_entry(self.map, local.id) {
            Some(id) => RcLocal { id: *id },
            None => local,
        }
    }
}

/// A function whose definitions are given locals of their own.
pub(crate) struct Builder {
    pub walk: Vec<NodeId>,
    pub entry: NodeId,
    pub current: FxHashMap<u64, FxHashMap<u64, u64>>,
    pub incomplete: FxHashMap<u64, Vec<(u64, u64)>>,
    pub filled: FxHashSet<u64>,
    pub sealed: FxHashSet<u64>,
    pub old: FxHashMap<u64, u64>,
    pub upvalues: FxHashSet<u64>,
    pub frame: Ghost<Frame>,
    pub sealed_at: Ghost<Map<u32, nat>>,
    pub starts: Ghost<Map<(u32, u64), u64>>,
    pub made: Ghost<Map<u64, Origin>>,
    pub values: Ghost<Map<(u32, int), Map<u64, u64>>>,
}

impl Builder {
    pub(crate) open spec fn filled_blocks(&self) -> Set<u32> {
        Set::new(|n: u32| self.filled@.contains(n as u64))
    }

    pub(crate) open spec fn sealed_blocks(&self) -> Set<u32> {
        Set::new(|n: u32| self.sealed@.contains(n as u64))
    }

    pub(crate) open spec fn state(&self, cfg: CfgView, count: nat) -> Numbering {
        Numbering {
            cfg,
            starts: self.starts@,
            current: flat(self.current@),
            old: self.old@,
            made: self.made@,
            values: self.values@,
            filled: self.filled_blocks(),
            sealed: self.sealed_blocks(),
            sealed_at: self.sealed_at@,
            incomplete: Map::new(
                |n: u32| self.incomplete@.dom().contains(n as u64),
                |n: u32| self.incomplete@[n as u64]@,
            ),
            count,
        }
    }

    /// Whether the new locals are given as far as the blocks were gone through.
    pub(crate) open spec fn is_ready(
        &self,
        function: Function,
        locals: Locals,
        progress: Progress,
        pending: Set<(u32, u64)>,
    ) -> bool {
        &&& function.well_formed()
        &&& self.frame@.is_valid()
        &&& self.walk@ == self.frame@.walk
        &&& self.entry == self.frame@.entry
        &&& self.upvalues@ == self.frame@.upvalues
        &&& self.frame@.holds(self.state(function@, locals@.len()), progress, pending)
        &&& self.frame@.keeps_names(self.old@, self.made@, locals@)
        &&& self.frame@.keeps_sources(
            self.old@,
            self.made@,
            function@.bindings,
            function@.provenance,
            function@.edges,
        )
        &&& self.frame@.keeps_seals(
            self.made@,
            self.sealed_blocks(),
            self.sealed_at@,
            progress.begun(self.filled_blocks()),
            locals@.len(),
        )
    }

    fn find_current(&self, node: NodeId, local: u64) -> (value: Option<u64>)
        ensures
            value == numbering::found(flat(self.current@), (node, local)),
    {
        match find_entry(&self.current, node as u64) {
            Some(known) => match find_entry(known, local) {
                Some(value) => Some(*value),
                None => None,
            },
            None => None,
        }
    }

    fn write_current(&mut self, node: NodeId, local: u64, value: u64)
        ensures
            flat(final(self).current@) == flat(old(self).current@).insert((node, local), value),
            *final(self) == (Builder { current: final(self).current, ..*old(self) }),
    {
        let ghost before = self.current@;
        let mut known = match remove_entry(&mut self.current, node as u64) {
            Some(known) => known,
            None => empty_map(),
        };
        let ghost held = known@;
        insert_entry(&mut known, local, value);
        insert_entry(&mut self.current, node as u64, known);
        proof {
            let whole = flat(before).insert((node, local), value);
            assert forall|key: (u32, u64)|
                flat(self.current@).dom().contains(key) == whole.dom().contains(key) by {
                if key.0 != node {
                    assert(key.0 as u64 != node as u64);
                }
            }
            assert forall|key: (u32, u64)| flat(self.current@).dom().contains(key) implies flat(
                self.current@,
            )[key] == whole[key] by {
                if key.0 != node {
                    assert(key.0 as u64 != node as u64);
                }
            }
            assert(flat(self.current@) =~= whole);
        }
    }

    /// Makes a local for the value of a local at the start of a block.
    fn new_start(
        &mut self,
        function: &mut Function,
        locals: &mut Locals,
        node: NodeId,
        local: u64,
        Ghost(progress): Ghost<Progress>,
        Ghost(pending): Ghost<Set<(u32, u64)>>,
    ) -> (value: u64)
        requires
            old(self).is_ready(*old(function), *old(locals), progress, pending),
            old(self).frame@.cfg.blocks.dom().contains(node),
            old(self).frame@.is_old(local),
            !flat(old(self).current@).dom().contains((node, local)),
        ensures
            final(self).frame == old(self).frame,
            final(self).is_ready(
                *final(function),
                *final(locals),
                progress,
                if old(self).sealed@.contains(node as u64) {
                    pending.insert((node, local))
                } else {
                    pending
                },
            ),
            old(self).state(old(function)@, old(locals)@.len()).grows_to(
                final(self).state(final(function)@, final(locals)@.len()),
            ),
            numbering::found(final(self).starts@, (node, local)) == Some(value),
            numbering::found(flat(final(self).current@), (node, local)) == Some(value),
            final(self).sealed == old(self).sealed,
    {
        let ghost before = self.state(function@, locals@.len());
        let ghost frame = self.frame@;
        let ghost cfg = function@;
        proof {
            reveal(Frame::holds);
            assert(frame.cfg.bindings.dom().contains(local));
            assert(cfg.bindings.dom().contains(local));
        }
        let made = function.new_merge_local(locals, RcLocal { id: local });
        let value: u64 = made.id;
        insert_entry(&mut self.old, value, local);
        self.write_current(node, local, value);
        if !has_member(&self.sealed, node as u64) {
            let mut list = match remove_entry(&mut self.incomplete, node as u64) {
                Some(list) => list,
                None => Vec::new(),
            };
            list.push((local, value));
            insert_entry(&mut self.incomplete, node as u64, list);
        }
        self.starts = Ghost(self.starts@.insert((node, local), value));
        self.made = Ghost(self.made@.insert(value, Origin::Start(node, local)));
        proof {
            let after = self.state(function@, locals@.len());
            assert(after.filled =~= before.filled);
            assert(after.sealed =~= before.sealed);
            assert(before.sealed.contains(node) == old(self).sealed@.contains(node as u64));
            if before.sealed.contains(node) {
                assert(after.incomplete =~= before.incomplete);
            } else {
                let whole = before.incomplete.insert(
                    node,
                    (if before.incomplete.dom().contains(node) {
                        before.incomplete[node]
                    } else {
                        Seq::empty()
                    }).push((local, value)),
                );
                assert forall|n: u32|
                    after.incomplete.dom().contains(n) == whole.dom().contains(n) by {
                    if n != node {
                        assert(n as u64 != node as u64);
                    }
                }
                assert forall|n: u32| after.incomplete.dom().contains(n) implies
                    after.incomplete[n] == whole[n] by {
                    if n != node {
                        assert(n as u64 != node as u64);
                    }
                }
                assert(after.incomplete =~= whole);
            }
            frame.lemma_new_start(before, after, progress, pending, node, local, value);
            frame.lemma_start_named(
                old(self).old@,
                old(self).made@,
                old(locals)@,
                node,
                local,
                value,
            );
            frame.lemma_start_sealed(
                old(self).made@,
                before.sealed,
                before.sealed_at,
                progress.begun(before.filled),
                before.count,
                node,
                local,
                value,
            );
            lemma_unmade(frame, before, progress, pending, local);
            frame.lemma_start_sources(
                old(self).old@,
                old(self).made@,
                cfg,
                function@,
                node,
                local,
                value,
            );
        }
        value
    }

    /// The value of a local as far as a block was gone through.
    pub(crate) fn find_local(
        &mut self,
        function: &mut Function,
        locals: &mut Locals,
        node: NodeId,
        local: u64,
        Ghost(progress): Ghost<Progress>,
        Ghost(pending): Ghost<Set<(u32, u64)>>,
    ) -> (value: u64)
        requires
            old(self).is_ready(*old(function), *old(locals), progress, pending),
            old(self).frame@.cfg.blocks.dom().contains(node),
            old(self).frame@.is_old(local),
        ensures
            final(self).frame == old(self).frame,
            final(self).is_ready(*final(function), *final(locals), progress, pending),
            old(self).state(old(function)@, old(locals)@.len()).grows_to(
                final(self).state(final(function)@, final(locals)@.len()),
            ),
            numbering::found(flat(final(self).current@), (node, local)) == Some(value),
        decreases
                unknown_from(flat(old(self).current@), old(self).walk@, local, 0),
                1int,
                old(self).frame@.place(node),
    {
        let ghost before = self.state(function@, locals@.len());
        let ghost frame = self.frame@;
        proof {
            numbering::lemma_grows_self(before);
            frame.lemma_placed(node);
        }
        if let Some(value) = self.find_current(node, local) {
            return value;
        }
        if !has_member(&self.sealed, node as u64) {
            return self.new_start(
                function,
                locals,
                node,
                local,
                Ghost(progress),
                Ghost(pending),
            );
        }
        proof {
            lemma_sources(frame, before, progress, pending, node);
            assert(before.sealed.contains(node));
        }
        let sources = function.predecessor_blocks(node);
        if sources.len() == 1 {
            let source = sources[0];
            proof {
                frame.lemma_source_before(node, source);
            }
            let value = self.find_local(
                function,
                locals,
                source,
                local,
                Ghost(progress),
                Ghost(pending),
            );
            if let Some(known) = self.find_current(node, local) {
                return known;
            }
            let ghost middle = self.state(function@, locals@.len());
            self.write_current(node, local, value);
            self.starts = Ghost(self.starts@.insert((node, local), value));
            proof {
                let after = self.state(function@, locals@.len());
                assert(middle.sealed == before.sealed);
                assert(after =~= (Numbering {
                    starts: middle.starts.insert((node, local), value),
                    current: middle.current.insert((node, local), value),
                    ..middle
                }));
                frame.lemma_taken_over(middle, after, progress, pending, node, local, value);
                numbering::lemma_grows_trans(before, middle, after);
            }
            return value;
        }
        let value = self.new_start(
            function,
            locals,
            node,
            local,
            Ghost(progress),
            Ghost(pending),
        );
        let ghost middle = self.state(function@, locals@.len());
        proof {
            assert(before.current == flat(old(self).current@));
            assert(frame.walk[frame.place(node)] == node);
            lemma_unknown(before.current, middle.current, frame.walk, local, 0);
            lemma_not_pending(frame, before, progress, pending, node, local);
            assert(pending.insert((node, local)).remove((node, local)) =~= pending);
            assert(middle.sealed.contains(node));
        }
        self.add_param_args(
            function,
            locals,
            node,
            local,
            value,
            Ghost(progress),
            Ghost(pending.insert((node, local))),
        );
        proof {
            let after = self.state(function@, locals@.len());
            numbering::lemma_grows_trans(before, middle, after);
            assert(middle.current.dom().contains((node, local)));
        }
        value
    }

    /// Passes the value of a local to the start of a block, along each edge
    /// into it.
    fn add_param_args(
        &mut self,
        function: &mut Function,
        locals: &mut Locals,
        node: NodeId,
        local: u64,
        parameter: u64,
        Ghost(progress): Ghost<Progress>,
        Ghost(pending): Ghost<Set<(u32, u64)>>,
    )
        requires
            old(self).is_ready(*old(function), *old(locals), progress, pending),
            pending.contains((node, local)),
            old(self).sealed@.contains(node as u64),
            numbering::found(old(self).starts@, (node, local)) == Some(parameter),
            old(self).frame@.is_old(local),
        ensures
            final(self).frame == old(self).frame,
            final(self).is_ready(
                *final(function),
                *final(locals),
                progress,
                pending.remove((node, local)),
            ),
            old(self).state(old(function)@, old(locals)@.len()).grows_to(
                final(self).state(final(function)@, final(locals)@.len()),
            ),
        decreases
                unknown_from(flat(old(self).current@), old(self).walk@, local, 0),
                2int,
                0int,
    {
        let ghost before = self.state(function@, locals@.len());
        let ghost frame = self.frame@;
        proof {
            numbering::lemma_grows_self(before);
            assert(before.sealed.contains(node));
            lemma_sources(frame, before, progress, pending, node);
        }
        let sources = function.predecessor_blocks(node);
        let mut values: Vec<RcLocal> = Vec::new();
        let mut at: usize = 0;
        while at < sources.len()
            invariant
                at <= sources@.len(),
                self.frame@ == frame,
                self.is_ready(*function, *locals, progress, pending),
                frame.is_old(local),
                before.grows_to(self.state(function@, locals@.len())),
                before.current == flat(old(self).current@),
                frame.walk == old(self).walk@,
                values@.len() == at,
                forall|i: int|
                    0 <= i < sources@.len() ==> frame.cfg.blocks.dom().contains(
                        #[trigger] sources@[i],
                    ),
                forall|i: int|
                    0 <= i < at ==> numbering::found(
                        flat(self.current@),
                        (#[trigger] sources@[i], local),
                    ) == Some(values@[i].id),
            decreases sources.len() - at,
        {
            let ghost middle = self.state(function@, locals@.len());
            proof {
                lemma_unknown(before.current, middle.current, frame.walk, local, 0);
                assert(frame.cfg.blocks.dom().contains(sources@[at as int]));
            }
            let value = self.find_local(
                function,
                locals,
                sources[at],
                local,
                Ghost(progress),
                Ghost(pending),
            );
            values.push(RcLocal { id: value });
            proof {
                let after = self.state(function@, locals@.len());
                numbering::lemma_grows_trans(before, middle, after);
                assert forall|i: int| 0 <= i < at + 1 implies numbering::found(
                    flat(self.current@),
                    (#[trigger] sources@[i], local),
                ) == Some(values@[i].id) by {
                    if i < at {
                        assert(middle.current.dom().contains((sources@[i], local)));
                    }
                }
            }
            at += 1;
        }
        let ghost middle = self.state(function@, locals@.len());
        proof {
            lemma_sources(frame, middle, progress, pending, node);
            lemma_same_sources(frame, before, middle, progress, pending, node);
        }
        push_arguments(function, node, parameter, &values);
        let ghost passed = self.state(function@, locals@.len());
        proof {
            let entering = EdgeView::entering(middle.cfg.edges, node);
            assert(sources@ == EdgeView::sources(entering));
            assert forall|e: int| 0 <= e < values@.len() implies numbering::found(
                middle.current,
                (entering[e].source, local),
            ) == Some((#[trigger] values@[e]).id) by {
                assert(sources@[e] == entering[e].source);
            }
            lemma_pushed(
                frame,
                middle,
                passed,
                progress,
                pending,
                node,
                local,
                parameter,
                values@,
            );
            numbering::lemma_grows_trans(before, middle, passed);
        }
        let target = RcLocal { id: parameter };
        proof {
            lemma_bound(frame, passed, progress, pending.remove((node, local)), node, local);
            assert(before.starts.dom().contains((node, local)));
            assert(passed.starts[(node, local)] == parameter);
        }
        function.merge_local_provenance(target, &values);
        proof {
            let after = self.state(function@, locals@.len());
            let entering = EdgeView::entering(middle.cfg.edges, node);
            lemma_unpassed(frame, middle, progress, pending, node, local);
            assert(middle.starts[(node, local)] == parameter);
            assert forall|e: int| 0 <= e < values@.len() implies self.made@.dom().contains(
                (#[trigger] values@[e]).id,
            ) && self.old@[values@[e].id] == self.old@[parameter] by {
                assert(sources@[e] == entering[e].source);
                assert(numbering::found(middle.current, (sources@[e], local)) == Some(
                    values@[e].id,
                ));
                assert(frame.cfg.blocks.dom().contains(sources@[e]));
                frame.lemma_current(middle, progress, pending, sources@[e], local);
            }
            assert forall|i: int| 0 <= i < passed.cfg.edges.len() implies
                #[trigger] passed.cfg.edges[i] == middle.cfg.edges[i] || exists|e: int|
                0 <= e < values@.len() && passed.cfg.edges[i] == numbering::with_argument(
                    middle.cfg.edges[i],
                    parameter,
                    (#[trigger] values@[e]).id,
                ) by {
                if middle.cfg.edges[i].target == node {
                    let e = params::lemma_entering_listed(middle.cfg.edges, i);
                    assert(passed.cfg.edges[i] == numbering::with_argument(
                        middle.cfg.edges[i],
                        parameter,
                        values@[e].id,
                    ));
                }
            }
            frame.lemma_merged_sources(
                self.old@,
                self.made@,
                middle.cfg,
                passed.cfg.edges,
                function@,
                parameter,
                values@,
            );
            frame.lemma_known_more(
                passed,
                after,
                progress,
                pending.remove((node, local)),
            );
            numbering::lemma_grows_trans(before, passed, after);
        }
    }
}

/// Neither an old local nor the next one to come was made yet.
proof fn lemma_unmade(
    frame: Frame,
    st: Numbering,
    progress: Progress,
    pending: Set<(u32, u64)>,
    local: u64,
)
    requires
        frame.holds(st, progress, pending),
        frame.is_old(local),
    ensures
        frame.base <= st.count,
        !st.made.dom().contains(local),
        forall|id: u64| #[trigger] st.made.dom().contains(id) ==> frame.base <= id < st.count,
        frame.cfg.bindings.dom().contains(local),
        local < frame.base,
{
    reveal(Frame::holds);
    assert forall|id: u64| #[trigger] st.made.dom().contains(id) implies frame.base <= id
        < st.count by {
        assert(st.is_new(id));
    }
}

/// What is about to be passed was not passed yet.
proof fn lemma_unpassed(
    frame: Frame,
    st: Numbering,
    progress: Progress,
    pending: Set<(u32, u64)>,
    node: u32,
    local: u64,
)
    requires
        frame.holds(st, progress, pending),
        pending.contains((node, local)),
    ensures
        ({
            let parameter = st.starts[(node, local)];
            &&& st.made.dom().contains(parameter)
            &&& st.made[parameter] is Start
            &&& st.old[parameter] == local
            &&& forall|i: int, k: int|
                0 <= i < st.cfg.edges.len() && 0 <= k < st.cfg.edges[i].arguments.len() ==> (
                #[trigger] st.cfg.edges[i].arguments[k]).0.id != parameter
        }),
{
    reveal(Frame::holds);
    let parameter = st.starts[(node, local)];
    assert(frame.is_pending(st, node, local));
    assert(frame.is_start(st, node, local));
    assert(st.is_new(parameter));
    assert forall|i: int, k: int|
        0 <= i < st.cfg.edges.len() && 0 <= k < st.cfg.edges[i].arguments.len() implies (
    #[trigger] st.cfg.edges[i].arguments[k]).0.id != parameter by {
        assert(frame.is_argument(st, i, k));
    }
}

/// A new local is bound.
proof fn lemma_bound(
    frame: Frame,
    st: Numbering,
    progress: Progress,
    pending: Set<(u32, u64)>,
    node: u32,
    local: u64,
)
    requires
        frame.holds(st, progress, pending),
    ensures
        st.starts.dom().contains((node, local)) ==> st.cfg.bindings.dom().contains(
            st.starts[(node, local)],
        ),
{
    reveal(Frame::holds);
    if st.starts.dom().contains((node, local)) {
        assert(frame.is_start(st, node, local));
        assert(st.is_new(st.starts[(node, local)]));
    }
}

/// What is about to be passed is known.
proof fn lemma_not_pending(
    frame: Frame,
    st: Numbering,
    progress: Progress,
    pending: Set<(u32, u64)>,
    node: u32,
    local: u64,
)
    requires
        frame.holds(st, progress, pending),
        frame.cfg.blocks.dom().contains(node),
        !st.current.dom().contains((node, local)),
    ensures
        !pending.contains((node, local)),
{
    reveal(Frame::holds);
    if pending.contains((node, local)) {
        assert(st.starts.dom().contains((node, local)));
        assert(numbering::found(st.current, (node, local)) == st.seen(
            node,
            local,
            frame.written(st, progress, node),
        ));
    }
}

proof fn lemma_joint_entering(a: Seq<EdgeView>, b: Seq<EdgeView>, node: u32)
    requires
        a.len() == b.len(),
        forall|i: int| 0 <= i < a.len() ==> numbering::is_joint(#[trigger] a[i], b[i]),
    ensures
        EdgeView::entering(a, node).len() == EdgeView::entering(b, node).len(),
        forall|e: int|
            0 <= e < EdgeView::entering(a, node).len() ==> numbering::is_joint(
                #[trigger] EdgeView::entering(a, node)[e],
                EdgeView::entering(b, node)[e],
            ),
    decreases a.len(),
{
    if a.len() > 0 {
        let x = a.drop_last();
        let y = b.drop_last();
        assert forall|i: int| 0 <= i < x.len() implies numbering::is_joint(
            #[trigger] x[i],
            y[i],
        ) by {
            assert(numbering::is_joint(a[i], b[i]));
        }
        lemma_joint_entering(x, y, node);
        assert(numbering::is_joint(a[a.len() - 1], b[a.len() - 1]));
        let all = EdgeView::entering(a, node);
        let other = EdgeView::entering(b, node);
        assert forall|e: int| 0 <= e < all.len() implies numbering::is_joint(
            #[trigger] all[e],
            other[e],
        ) by {
            if a.last().target == node {
                if e > 0 {
                    assert(numbering::is_joint(
                        EdgeView::entering(x, node)[e - 1],
                        EdgeView::entering(y, node)[e - 1],
                    ));
                }
            } else {
                assert(numbering::is_joint(
                    EdgeView::entering(x, node)[e],
                    EdgeView::entering(y, node)[e],
                ));
            }
        }
    }
}

/// The blocks before a block are blocks, and none comes before the entry.
proof fn lemma_sources(
    frame: Frame,
    st: Numbering,
    progress: Progress,
    pending: Set<(u32, u64)>,
    node: u32,
)
    requires
        frame.is_valid(),
        frame.holds(st, progress, pending),
        st.sealed.contains(node),
    ensures
        node != frame.entry,
        EdgeView::entering(st.cfg.edges, node).len() == EdgeView::entering(
            frame.cfg.edges,
            node,
        ).len(),
        forall|e: int|
            0 <= e < EdgeView::entering(st.cfg.edges, node).len() ==> numbering::is_joint(
                #[trigger] EdgeView::entering(st.cfg.edges, node)[e],
                EdgeView::entering(frame.cfg.edges, node)[e],
            ),
        forall|e: int|
            0 <= e < EdgeView::entering(st.cfg.edges, node).len()
                ==> frame.cfg.blocks.dom().contains(
                (#[trigger] EdgeView::entering(st.cfg.edges, node)[e]).source,
            ),
{
    reveal(Frame::holds);
    assert forall|i: int| 0 <= i < st.cfg.edges.len() implies numbering::is_joint(
        #[trigger] st.cfg.edges[i],
        frame.cfg.edges[i],
    ) by {
    }
    lemma_joint_entering(st.cfg.edges, frame.cfg.edges, node);
    assert forall|e: int| 0 <= e < EdgeView::entering(st.cfg.edges, node).len() implies
        frame.cfg.blocks.dom().contains(
        (#[trigger] EdgeView::entering(st.cfg.edges, node)[e]).source,
    ) by {
        let i = params::lemma_entering_member(st.cfg.edges, node, e);
        assert(numbering::is_joint(st.cfg.edges[i], frame.cfg.edges[i]));
        assert(frame.cfg.blocks.dom().contains(frame.cfg.edges[i].source));
    }
}

/// More arguments leave the blocks before a block as they are.
proof fn lemma_same_sources(
    frame: Frame,
    before: Numbering,
    after: Numbering,
    progress: Progress,
    pending: Set<(u32, u64)>,
    node: u32,
)
    requires
        frame.is_valid(),
        frame.holds(before, progress, pending),
        frame.holds(after, progress, pending),
        before.sealed.contains(node),
        after.sealed.contains(node),
    ensures
        EdgeView::sources(EdgeView::entering(before.cfg.edges, node)) == EdgeView::sources(
            EdgeView::entering(after.cfg.edges, node),
        ),
{
    lemma_sources(frame, before, progress, pending, node);
    lemma_sources(frame, after, progress, pending, node);
    let a = EdgeView::entering(before.cfg.edges, node);
    let b = EdgeView::entering(after.cfg.edges, node);
    assert forall|e: int| 0 <= e < a.len() implies EdgeView::sources(a)[e] == EdgeView::sources(
        b,
    )[e] by {
        assert(numbering::is_joint(a[e], EdgeView::entering(frame.cfg.edges, node)[e]));
        assert(numbering::is_joint(b[e], EdgeView::entering(frame.cfg.edges, node)[e]));
    }
    assert(EdgeView::sources(a) =~= EdgeView::sources(b));
}

/// Adds an argument to each edge into a block.
fn push_arguments(function: &mut Function, node: NodeId, parameter: u64, values: &Vec<RcLocal>)
    requires
        old(function).well_formed(),
        values@.len() == EdgeView::entering(old(function)@.edges, node).len(),
    ensures
        final(function).well_formed(),
        final(function)@ == (CfgView { edges: final(function)@.edges, ..old(function)@ }),
        final(function)@.edges.len() == old(function)@.edges.len(),
        forall|i: int|
            0 <= i < old(function)@.edges.len() && old(function)@.edges[i].target != node
                ==> #[trigger] final(function)@.edges[i] == old(function)@.edges[i],
        forall|i: int, e: int|
            0 <= i < old(function)@.edges.len() && 0 <= e < values@.len()
                && old(function)@.edges[i] == EdgeView::entering(old(function)@.edges, node)[e]
                ==> #[trigger] final(function)@.edges[i] == numbering::with_argument(
                old(function)@.edges[i],
                parameter,
                (#[trigger] values@[e]).id,
            ),
{
    let ghost edges = function@.edges;
    let ghost entering = EdgeView::entering(edges, node);
    let references = function.edges_to_block(node);
    let mut list: Vec<(u32, Vec<(RcLocal, RValue)>)> = Vec::new();
    let mut at: usize = 0;
    while at < references.len()
        invariant
            at <= references@.len() == entering.len() == values@.len(),
            entering == EdgeReference::views(references@),
            list@.len() == at,
            forall|e: int|
                0 <= e < at ==> (#[trigger] list@[e]).0 == entering[e].id
                    && BlockEdge::argument_views(list@[e].1@) == numbering::with_argument(
                    entering[e],
                    parameter,
                    values@[e].id,
                ).arguments,
        decreases references.len() - at,
    {
        proof {
            assert(entering[at as int] == references@[at as int]@);
        }
        let copy = references[at].weight.clone();
        let mut arguments = copy.arguments;
        let ghost held = BlockEdge::argument_views(arguments@);
        let value = RValue::Local(values[at]);
        proof {
            nodes::rvalue_node(value);
        }
        let ghost put = value@;
        arguments.push((RcLocal { id: parameter }, value));
        proof {
            assert(BlockEdge::argument_views(arguments@) =~= held.push(
                (RcLocal { id: parameter }, put),
            ));
        }
        list.push((references[at].id, arguments));
        at += 1;
    }
    proof {
        function.edges_join_blocks();
        params::lemma_entering_distinct(edges, node);
        assert forall|k: int| 0 <= k < list@.len() implies params::has_number(
            edges,
            (#[trigger] list@[k]).0,
        ) by {
            let i = params::lemma_entering_member(edges, node, k);
            assert(edges[i].id == list@[k].0);
        }
        assert forall|k: int, l: int| 0 <= k < l < list@.len() implies list@[k].0
            != list@[l].0 by {
            assert(entering[k].id != entering[l].id);
        }
    }
    let ghost listed = list@;
    replace_arguments(function, list);
    proof {
        assert forall|i: int| 0 <= i < edges.len() && edges[i].target != node implies
            #[trigger] function@.edges[i] == edges[i] by {
            if params::is_listed(edges[i].id, listed, 0) {
                let k = choose|k: int| 0 <= k < listed.len() && (#[trigger] listed[k]).0
                    == edges[i].id;
                let j = params::lemma_entering_member(edges, node, k);
                assert(edges[j].id == edges[i].id);
            }
        }
        assert forall|i: int, e: int|
            0 <= i < edges.len() && 0 <= e < values@.len() && edges[i]
                == entering[e] implies #[trigger] function@.edges[i] == numbering::with_argument(
            edges[i],
            parameter,
            (#[trigger] values@[e]).id,
        ) by {
            assert(listed[e].0 == edges[i].id);
        }
    }
}

/// Pushing the values that the blocks before a block end with passes them.
proof fn lemma_pushed(
    frame: Frame,
    st: Numbering,
    after: Numbering,
    progress: Progress,
    pending: Set<(u32, u64)>,
    node: u32,
    local: u64,
    parameter: u64,
    values: Seq<RcLocal>,
)
    requires
        frame.is_valid(),
        frame.holds(st, progress, pending),
        pending.contains((node, local)),
        st.sealed.contains(node),
        numbering::found(st.starts, (node, local)) == Some(parameter),
        values.len() == EdgeView::entering(st.cfg.edges, node).len(),
        forall|e: int|
            0 <= e < values.len() ==> numbering::found(
                st.current,
                (EdgeView::entering(st.cfg.edges, node)[e].source, local),
            ) == Some((#[trigger] values[e]).id),
        after == (Numbering { cfg: after.cfg, ..st }),
        after.cfg == (CfgView { edges: after.cfg.edges, ..st.cfg }),
        after.cfg.edges.len() == st.cfg.edges.len(),
        forall|i: int|
            0 <= i < st.cfg.edges.len() && st.cfg.edges[i].target != node
                ==> #[trigger] after.cfg.edges[i] == st.cfg.edges[i],
        forall|i: int, e: int|
            0 <= i < st.cfg.edges.len() && 0 <= e < values.len() && st.cfg.edges[i]
                == EdgeView::entering(st.cfg.edges, node)[e] ==> #[trigger] after.cfg.edges[i]
                == numbering::with_argument(
                st.cfg.edges[i],
                parameter,
                (#[trigger] values[e]).id,
            ),
    ensures
        st.grows_to(after),
        frame.holds(after, progress, pending.remove((node, local))),
{
    lemma_sources(frame, st, progress, pending, node);
    assert forall|i: int| 0 <= i < st.cfg.edges.len() implies #[trigger] after.cfg.edges[i] == (
    if st.cfg.edges[i].target == node {
        numbering::with_argument(
            st.cfg.edges[i],
            parameter,
            st.current[(st.cfg.edges[i].source, local)],
        )
    } else {
        st.cfg.edges[i]
    }) by {
        if st.cfg.edges[i].target == node {
            let e = params::lemma_entering_listed(st.cfg.edges, i);
            assert(values[e].id == st.current[(st.cfg.edges[i].source, local)]);
        }
    }
    assert forall|i: int|
        0 <= i < frame.cfg.edges.len() && (#[trigger] frame.cfg.edges[i]).target
            == node implies st.current.dom().contains((frame.cfg.edges[i].source, local)) by {
        lemma_joints(frame, st, progress, pending);
        assert(numbering::is_joint(st.cfg.edges[i], frame.cfg.edges[i]));
        let e = params::lemma_entering_listed(st.cfg.edges, i);
        assert(numbering::found(
            st.current,
            (EdgeView::entering(st.cfg.edges, node)[e].source, local),
        ) == Some(values[e].id));
    }
    lemma_joints(frame, st, progress, pending);
    frame.lemma_passed(st, after, progress, pending, node, local, parameter);
}

proof fn lemma_joints(
    frame: Frame,
    st: Numbering,
    progress: Progress,
    pending: Set<(u32, u64)>,
)
    requires
        frame.holds(st, progress, pending),
    ensures
        st.cfg.edges.len() == frame.cfg.edges.len(),
        forall|i: int|
            0 <= i < st.cfg.edges.len() ==> numbering::is_joint(
                #[trigger] st.cfg.edges[i],
                frame.cfg.edges[i],
            ),
{
    reveal(Frame::holds);
}

/// Puts a statement in the place of another.
fn replace_statement(function: &mut Function, node: NodeId, t: usize, statement: Statement)
    requires
        old(function).well_formed(),
        old(function)@.blocks.dom().contains(node),
        t < old(function)@.blocks[node].len(),
    ensures
        final(function).well_formed(),
        final(function)@ == (CfgView {
            blocks: old(function)@.blocks.insert(
                node,
                old(function)@.blocks[node].update(t as int, statement@),
            ),
            ..old(function)@
        }),
{
    let ghost cfg = function@;
    let block = function.replace_block(node, Block(Vec::new()));
    let mut statements = block.0;
    let ghost views = Statement::views(statements@);
    let ghost put = statement@;
    proof {
        assert(views.len() == statements@.len());
    }
    statements.set(t, statement);
    proof {
        assert(Statement::views(statements@) =~= views.update(t as int, put));
    }
    let _ = function.replace_block(node, Block(statements));
    proof {
        assert(function@.blocks =~= cfg.blocks.insert(
            node,
            cfg.blocks[node].update(t as int, put),
        ));
    }
}

/// Whether a statement assigns a closure to a local.
fn is_closure_definition(statement: &Statement) -> (result: bool)
    ensures
        result == numbering::defines_closure(statement@),
{
    match statement.as_assign() {
        Some(assign) => {
            proof {
                nodes::assign_node(*assign);
            }
            if assign.left.len() != 1 || assign.right.len() != 1 {
                return false;
            }
            proof {
                assert(assign@.left[0] == assign.left@[0]@);
                assert(assign@.right[0] == assign.right@[0]@);
                nodes::lvalue_node(assign.left@[0]);
                nodes::rvalue_node(assign.right@[0]);
            }
            matches!(&assign.left[0], LValue::Local(_)) && matches!(
                &assign.right[0],
                RValue::Closure(_)
            )
        },
        None => false,
    }
}

/// Makes locals for the targets of a statement.
fn new_targets(
    function: &mut Function,
    locals: &mut Locals,
    node: NodeId,
    t: usize,
    written: &Vec<RcLocal>,
) -> (targets: Vec<RcLocal>)
    requires
        old(function).well_formed(),
        written@.len() > 0 ==> old(function)@.origins_of(node, t as int) is Some,
        forall|k: int|
            0 <= k < written@.len() ==> old(function)@.bindings.dom().contains(
                (#[trigger] written@[k]).id,
            ),
    ensures
        final(function).well_formed(),
        final(function)@ == (CfgView {
            bindings: final(function)@.bindings,
            provenance: final(function)@.provenance,
            ..old(function)@
        }),
        final(function)@ == value_sources::with_definitions(
            old(function)@,
            node,
            t as int,
            targets@,
            written@,
            written@.len() as int,
        ),
        old(function)@.bindings.dom().subset_of(final(function)@.bindings.dom()),
        targets@.len() == written@.len(),
        numbering::come_next(targets@, old(locals)@.len()),
        final(locals)@.len() == old(locals)@.len() + written@.len(),
        old(locals)@.is_prefix_of(final(locals)@),
        forall|k: int|
            0 <= k < targets@.len() ==> final(locals)@[old(locals)@.len() + k] == old(
                function,
            )@.definition_name(
                #[trigger] written@[k],
                old(function)@.origins_of(node, t as int)->0,
            ),
        forall|k: int|
            0 <= k < targets@.len() ==> final(function)@.bindings.dom().contains(
                (#[trigger] targets@[k]).id,
            ),
{
    let ghost cfg = function@;
    let ghost names = locals@;
    let mut targets: Vec<RcLocal> = Vec::new();
    let mut k: usize = 0;
    proof {
        assert(names =~= names.subrange(0, names.len() as int));
    }
    while k < written.len()
        invariant
            k <= written@.len(),
            function.well_formed(),
            written@.len() > 0 ==> cfg.origins_of(node, t as int) is Some,
            forall|i: int|
                0 <= i < written@.len() ==> cfg.bindings.dom().contains(
                    (#[trigger] written@[i]).id,
                ),
            function@ == (CfgView {
                bindings: function@.bindings,
                provenance: function@.provenance,
                ..cfg
            }),
            function@ == value_sources::with_definitions(
                cfg,
                node,
                t as int,
                targets@,
                written@,
                k as int,
            ),
            cfg.bindings.dom().subset_of(function@.bindings.dom()),
            targets@.len() == k,
            numbering::come_next(targets@, names.len()),
            locals@.len() == names.len() + k,
            names.is_prefix_of(locals@),
            forall|i: int|
                0 <= i < k ==> locals@[names.len() + i] == cfg.definition_name(
                    #[trigger] written@[i],
                    cfg.origins_of(node, t as int)->0,
                ),
            forall|i: int|
                0 <= i < targets@.len() ==> function@.bindings.dom().contains(
                    (#[trigger] targets@[i]).id,
                ),
        decreases written.len() - k,
    {
        let ghost held = locals@;
        proof {
            assert(cfg.bindings.dom().contains(written@[k as int].id));
            assert(function@.origins_of(node, t as int) == cfg.origins_of(node, t as int));
        }
        proof {
            function@.lemma_same_definition_name(
                cfg,
                written@[k as int],
                cfg.origins_of(node, t as int)->0,
            );
        }
        let ghost before = targets@;
        let target = function.new_ssa_definition(locals, written[k], node, t);
        targets.push(target);
        proof {
            value_sources::lemma_definitions_alike(
                cfg,
                node,
                t as int,
                before,
                targets@,
                written@,
                k as int,
            );
            assert forall|i: int| 0 <= i < names.len() implies names[i] == locals@[i] by {
                assert(names[i] == held[i]);
            }
            assert(names =~= locals@.subrange(0, names.len() as int));
        }
        k += 1;
    }
    targets
}

impl Builder {
    /// Finds the values that a statement reads.
    fn find_reads(
        &mut self,
        function: &mut Function,
        locals: &mut Locals,
        node: NodeId,
        t: usize,
        reads: &Vec<RcLocal>,
        Ghost(progress): Ghost<Progress>,
    ) -> (values: FxHashMap<u64, u64>)
        requires
            old(self).is_ready(*old(function), *old(locals), progress, Set::empty()),
            old(self).frame@.cfg.blocks.dom().contains(node),
            forall|k: int|
                0 <= k < reads@.len() ==> old(self).frame@.is_old((#[trigger] reads@[k]).id),
        ensures
            final(self).frame == old(self).frame,
            final(self).is_ready(*final(function), *final(locals), progress, Set::empty()),
            old(self).state(old(function)@, old(locals)@.len()).grows_to(
                final(self).state(final(function)@, final(locals)@.len()),
            ),
            forall|k: int|
                0 <= k < reads@.len() ==> values@.dom().contains((#[trigger] reads@[k]).id)
                    && numbering::found(flat(final(self).current@), (node, reads@[k].id)) == Some(
                    values@[reads@[k].id],
                ),
    {
        let ghost before = self.state(function@, locals@.len());
        let ghost frame = self.frame@;
        let mut values: FxHashMap<u64, u64> = empty_map();
        let mut k: usize = 0;
        proof {
            numbering::lemma_grows_self(before);
        }
        while k < reads.len()
            invariant
                k <= reads@.len(),
                self.frame@ == frame,
                self.is_ready(*function, *locals, progress, Set::empty()),
                frame.cfg.blocks.dom().contains(node),
                forall|i: int|
                    0 <= i < reads@.len() ==> frame.is_old((#[trigger] reads@[i]).id),
                before.grows_to(self.state(function@, locals@.len())),
                forall|id: u64| #[trigger]
                    values@.dom().contains(id) ==> numbering::found(
                        flat(self.current@),
                        (node, id),
                    ) == Some(values@[id]),
                forall|i: int|
                    0 <= i < k ==> values@.dom().contains((#[trigger] reads@[i]).id),
            decreases reads.len() - k,
        {
            let ghost middle = self.state(function@, locals@.len());
            let local: u64 = reads[k].id;
            proof {
                assert(frame.is_old(reads@[k as int].id));
            }
            let value = self.find_local(
                function,
                locals,
                node,
                local,
                Ghost(progress),
                Ghost(Set::empty()),
            );
            let ghost found = self.state(function@, locals@.len());
            function.record_use(RcLocal { id: value }, node, t);
            insert_entry(&mut values, local, value);
            proof {
                let after = self.state(function@, locals@.len());
                frame.lemma_current(found, progress, Set::empty(), node, local);
                if function@ != found.cfg {
                    frame.lemma_use_sources(
                        self.old@,
                        self.made@,
                        found.cfg,
                        function@,
                        value,
                        function@.provenance[value].uses,
                    );
                }
                frame.lemma_known_more(found, after, progress, Set::empty());
                numbering::lemma_grows_trans(before, middle, found);
                numbering::lemma_grows_trans(before, found, after);
                assert forall|id: u64| #[trigger] values@.dom().contains(id) implies
                    numbering::found(flat(self.current@), (node, id)) == Some(values@[id]) by {
                    if id != local {
                        assert(middle.current.dom().contains((node, id)));
                        assert(found.current.dom().contains((node, id)));
                    }
                }
            }
            k += 1;
        }
        values
    }

    /// Gives a statement new targets.
    fn write_targets(
        &mut self,
        function: &mut Function,
        locals: &mut Locals,
        node: NodeId,
        t: usize,
        statement: &Statement,
        written: &Vec<RcLocal>,
    ) -> (targets: Vec<RcLocal>)
        requires
            old(self).is_ready(
                *old(function),
                *old(locals),
                (Progress { node: Some(node), written: t as int, whole: t as int }),
                Set::empty(),
            ),
            old(self).frame@.cfg.blocks.dom().contains(node),
            t < old(self).frame@.cfg.blocks[node].len(),
            statement@ == old(self).frame@.cfg.blocks[node][t as int],
            written@ == statement@.writes(),
        ensures
            final(self).frame == old(self).frame,
            final(self).is_ready(
                *final(function),
                *final(locals),
                (Progress { node: Some(node), written: t + 1, whole: t as int }),
                Set::empty(),
            ),
            final(self).filled_blocks() == old(self).filled_blocks(),
            final(self).sealed_blocks() == old(self).sealed_blocks(),
            targets@.len() == written@.len(),
            final(function)@.blocks[node][t as int].writes() == targets@,
            forall|local: u64| #[trigger]
                final(self).state(final(function)@, final(locals)@.len()).seen(
                    node,
                    local,
                    t as int,
                ) == old(self).state(old(function)@, old(locals)@.len()).seen(
                    node,
                    local,
                    t as int,
                ),
    {
        let ghost before = self.state(function@, locals@.len());
        let ghost frame = self.frame@;
        proof {
            reveal(Frame::holds);
            assert forall|k: int| 0 <= k < written@.len() implies
                function@.bindings.dom().contains((#[trigger] written@[k]).id) by {
                let place = statement@.reads().len() + k;
                assert(statement@.locals()[place] == written@[k]);
                assert(frame.is_old(frame.cfg.blocks[node][t as int].locals()[place].id));
                assert(frame.cfg.bindings.dom().contains(written@[k].id));
            }
            if written@.len() > 0 {
                assert(frame.cfg.origins_of(node, t as int) is Some);
                assert(function@.origins_of(node, t as int) == frame.cfg.origins_of(
                    node,
                    t as int,
                ));
            }
            assert(function@.blocks[node].len() == frame.cfg.blocks[node].len());
        }
        let ghost names = locals@;
        let ghost named = function@;
        proof {
            assert(named.families == frame.cfg.families);
        }
        let targets = new_targets(function, locals, node, t, written);
        let rewritten = statement.clone().rewritten_with(&targets);
        let ghost put = rewritten@;
        proof {
            rewrite::rewriting_gives_writes(statement@, targets@);
        }
        replace_statement(function, node, t, rewritten);
        let ghost old_map = self.old@;
        let ghost current = flat(self.current@);
        let mut k: usize = 0;
        while k < targets.len()
            invariant
                k <= targets@.len() == written@.len(),
                self.old@ == numbering::with_old(old_map, targets@, written@, k as int),
                flat(self.current@) == numbering::with_targets(
                    current,
                    node,
                    targets@,
                    written@,
                    k as int,
                ),
                *self == (Builder { old: self.old, current: self.current, ..*old(self) }),
            decreases targets.len() - k,
        {
            insert_entry(&mut self.old, targets[k].id, written[k].id);
            self.write_current(node, written[k].id, targets[k].id);
            k += 1;
        }
        self.made = Ghost(
            numbering::with_made(
                self.made@,
                node,
                t as int,
                targets@,
                targets@.len() as int,
            ),
        );
        proof {
            let after = self.state(function@, locals@.len());
            assert(put.writes() == targets@);
            frame.lemma_targets_written(before, after, node, t as int, put);
            assert forall|k: int| 0 <= k < targets@.len() implies locals@[names.len() + k]
                == frame.new_name(
                (#[trigger] written@[k]).id,
                Origin::Written(node, t as int, k),
            ) by {
                named.lemma_same_definition_name(
                    frame.cfg,
                    written@[k],
                    frame.cfg.origins_of(node, t as int)->0,
                );
                assert(written@[k] == (RcLocal { id: written@[k].id }));
            }
            frame.lemma_targets_named(
                old_map,
                old(self).made@,
                names,
                locals@,
                node,
                t as int,
                targets@,
                written@,
                targets@.len() as int,
            );
            assert(locals@.take(names.len() + targets@.len() as int) =~= locals@);
            frame.lemma_targets_sealed(
                old(self).made@,
                before.sealed,
                before.sealed_at,
                before.filled.insert(node),
                before.count,
                node,
                t as int,
                targets@,
                targets@.len(),
            );
            assert forall|k: int| 0 <= k < written@.len() implies (#[trigger] written@[k]).id
                < frame.base && frame.cfg.bindings.dom().contains(written@[k].id)
                && !old(self).made@.dom().contains(written@[k].id) by {
                let place = statement@.reads().len() + k;
                assert(statement@.locals()[place] == written@[k]);
                assert(frame.is_old(frame.cfg.blocks[node][t as int].locals()[place].id));
                lemma_unmade(
                    frame,
                    before,
                    Progress { node: Some(node), written: t as int, whole: t as int },
                    Set::empty(),
                    written@[k].id,
                );
            }
            assert forall|id: u64| #[trigger] old(self).made@.dom().contains(id) implies id
                < names.len() by {
                assert(before.is_new(id));
            }
            frame.lemma_target_sources(
                old_map,
                old(self).made@,
                named,
                node,
                t as int,
                targets@,
                written@,
                names.len(),
                targets@.len() as int,
            );
        }
        targets
    }

    /// Gives a statement new locals.
    fn number_statement(
        &mut self,
        function: &mut Function,
        locals: &mut Locals,
        node: NodeId,
        t: usize,
    )
        requires
            old(self).is_ready(
                *old(function),
                *old(locals),
                (Progress { node: Some(node), written: t as int, whole: t as int }),
                Set::empty(),
            ),
            old(self).frame@.cfg.blocks.dom().contains(node),
            t < old(self).frame@.cfg.blocks[node].len(),
        ensures
            final(self).frame == old(self).frame,
            final(self).is_ready(
                *final(function),
                *final(locals),
                (Progress { node: Some(node), written: t + 1, whole: t + 1 }),
                Set::empty(),
            ),
            final(self).filled_blocks() == old(self).filled_blocks(),
            final(self).sealed_blocks() == old(self).sealed_blocks(),
    {
        let ghost frame = self.frame@;
        let ghost first = Progress { node: Some(node), written: t as int, whole: t as int };
        let ghost second = Progress { node: Some(node), written: t + 1, whole: t as int };
        proof {
            lemma_untouched(frame, self.state(function@, locals@.len()), node, t as int);
        }
        let statement = match function.block(node) {
            Some(block) => {
                proof {
                    assert(block@[t as int] == block.0@[t as int]@);
                }
                block.0[t].clone()
            },
            None => {
                return;
            },
        };
        let reads = statement.values_read();
        let written = statement.values_written();
        proof {
            assert forall|k: int| 0 <= k < reads@.len() implies frame.is_old(
                (#[trigger] reads@[k]).id,
            ) by {
                assert(statement@.locals()[k] == reads@[k]);
                assert(frame.is_old(frame.cfg.blocks[node][t as int].locals()[k].id));
            }
        }
        if is_closure_definition(&statement) {
            let targets = self.write_targets(function, locals, node, t, &statement, &written);
            let ghost middle = self.state(function@, locals@.len());
            let values = self.find_reads(function, locals, node, t, &reads, Ghost(second));
            let ghost before = self.state(function@, locals@.len());
            proof {
                assert(before.cfg.blocks == middle.cfg.blocks);
                lemma_found_reads(frame, before, second, node, reads@, values@);
            }
            self.finish_statement(function, locals, node, t, statement, &targets, &values);
        } else {
            let values = self.find_reads(function, locals, node, t, &reads, Ghost(first));
            let ghost middle = self.state(function@, locals@.len());
            proof {
                lemma_found_reads(frame, middle, first, node, reads@, values@);
            }
            let targets = self.write_targets(function, locals, node, t, &statement, &written);
            self.finish_statement(function, locals, node, t, statement, &targets, &values);
        }
    }

    fn finish_statement(
        &mut self,
        function: &mut Function,
        locals: &Locals,
        node: NodeId,
        t: usize,
        statement: Statement,
        targets: &Vec<RcLocal>,
        values: &FxHashMap<u64, u64>,
    )
        requires
            old(self).is_ready(
                *old(function),
                *locals,
                (Progress { node: Some(node), written: t + 1, whole: t as int }),
                Set::empty(),
            ),
            old(self).frame@.cfg.blocks.dom().contains(node),
            t < old(self).frame@.cfg.blocks[node].len(),
            statement@ == old(self).frame@.cfg.blocks[node][t as int],
            targets@.len() == statement@.writes().len(),
            old(function)@.blocks[node][t as int].writes() == targets@,
            forall|k: int|
                0 <= k < statement@.reads().len() ==> values@.dom().contains(
                    (#[trigger] statement@.reads()[k]).id,
                ) && old(self).state(old(function)@, locals@.len()).seen(
                    node,
                    statement@.reads()[k].id,
                    old(self).frame@.view_point(node, t as int),
                ) == Some(values@[statement@.reads()[k].id]),
        ensures
            final(self).frame == old(self).frame,
            final(self).is_ready(
                *final(function),
                *locals,
                (Progress { node: Some(node), written: t + 1, whole: t + 1 }),
                Set::empty(),
            ),
            final(self).filled_blocks() == old(self).filled_blocks(),
            final(self).sealed_blocks() == old(self).sealed_blocks(),
    {
        let ghost before = self.state(function@, locals@.len());
        let ghost frame = self.frame@;
        let ghost whole = statement@;
        let renaming = Values { map: values };
        let reread = statement.reread_by(&renaming);
        proof {
            assert((|l: RcLocal| renaming.image(l)) =~= numbering::through(values@));
            rewrite::rereading_renames_reads(whole, numbering::through(values@));
            rewrite::rewriting_gives_writes(reread@, targets@);
            lemma_lengths(frame, before, node, t as int);
        }
        let done = reread.rewritten_with(targets);
        let ghost put = done@;
        replace_statement(function, node, t, done);
        self.values = Ghost(self.values@.insert((node, t as int), values@));
        proof {
            let after = self.state(function@, locals@.len());
            frame.lemma_statement_done(before, after, node, t as int, put, values@);
        }
    }
}

proof fn lemma_lengths(frame: Frame, st: Numbering, node: u32, t: int)
    requires
        frame.holds(
            st,
            (Progress { node: Some(node), written: t + 1, whole: t }),
            Set::empty(),
        ),
        frame.cfg.blocks.dom().contains(node),
    ensures
        st.cfg.blocks.dom().contains(node),
        st.cfg.blocks[node].len() == frame.cfg.blocks[node].len(),
{
    reveal(Frame::holds);
}

proof fn lemma_untouched(frame: Frame, st: Numbering, node: u32, t: int)
    requires
        frame.holds(
            st,
            (Progress { node: Some(node), written: t, whole: t }),
            Set::empty(),
        ),
        frame.cfg.blocks.dom().contains(node),
        0 <= t < frame.cfg.blocks[node].len(),
    ensures
        st.cfg.blocks.dom().contains(node),
        st.cfg.blocks[node].len() == frame.cfg.blocks[node].len(),
        st.cfg.blocks[node][t] == frame.cfg.blocks[node][t],
{
    reveal(Frame::holds);
}

proof fn lemma_found_reads(
    frame: Frame,
    st: Numbering,
    progress: Progress,
    node: u32,
    reads: Seq<RcLocal>,
    values: Map<u64, u64>,
)
    requires
        frame.holds(st, progress, Set::empty()),
        progress.node == Some(node),
        forall|k: int|
            0 <= k < reads.len() ==> values.dom().contains((#[trigger] reads[k]).id)
                && numbering::found(st.current, (node, reads[k].id)) == Some(
                values[reads[k].id],
            ),
    ensures
        forall|k: int|
            0 <= k < reads.len() ==> st.seen(
                node,
                (#[trigger] reads[k]).id,
                progress.written,
            ) == Some(values[reads[k].id]),
{
    reveal(Frame::holds);
    assert forall|k: int| 0 <= k < reads.len() implies st.seen(
        node,
        (#[trigger] reads[k]).id,
        progress.written,
    ) == Some(values[reads[k].id]) by {
        assert(numbering::found(st.current, (node, reads[k].id)) == st.seen(
            node,
            reads[k].id,
            frame.written(st, progress, node),
        ));
    }
}

/// Between blocks.
pub open spec fn at_rest() -> Progress {
    Progress { node: None, written: 0, whole: 0 }
}

impl Builder {
    /// Goes through a block.
    fn fill_block(&mut self, function: &mut Function, locals: &mut Locals, node: NodeId)
        requires
            old(self).is_ready(*old(function), *old(locals), at_rest(), Set::empty()),
            old(self).frame@.cfg.blocks.dom().contains(node),
            !old(self).filled_blocks().contains(node),
        ensures
            final(self).frame == old(self).frame,
            final(self).is_ready(*final(function), *final(locals), at_rest(), Set::empty()),
            final(self).filled_blocks() == old(self).filled_blocks().insert(node),
            final(self).sealed_blocks() == old(self).sealed_blocks(),
    {
        let ghost frame = self.frame@;
        let ghost filled = self.filled_blocks();
        let ghost sealed = self.sealed_blocks();
        proof {
            lemma_block(frame, self.state(function@, locals@.len()), node);
            frame.lemma_begun(self.state(function@, locals@.len()), node);
            frame.lemma_more_begun(
                self.made@,
                sealed,
                self.sealed_at@,
                filled,
                locals@.len(),
                node,
            );
        }
        let length: usize = match function.block(node) {
            Some(block) => block.len(),
            None => 0,
        };
        let mut t: usize = 0;
        while t < length
            invariant
                t <= length == frame.cfg.blocks[node].len(),
                self.frame@ == frame,
                frame.cfg.blocks.dom().contains(node),
                self.filled_blocks() == filled,
                self.sealed_blocks() == sealed,
                self.is_ready(
                    *function,
                    *locals,
                    (Progress { node: Some(node), written: t as int, whole: t as int }),
                    Set::empty(),
                ),
            decreases length - t,
        {
            self.number_statement(function, locals, node, t);
            t += 1;
        }
        let ghost before = self.state(function@, locals@.len());
        let _ = insert_member(&mut self.filled, node as u64);
        proof {
            assert forall|n: u32|
                self.filled_blocks().contains(n) == filled.insert(node).contains(n) by {
                if n != node {
                    assert(n as u64 != node as u64);
                }
            }
            assert(self.filled_blocks() =~= filled.insert(node));
            let after = self.state(function@, locals@.len());
            assert(after =~= (Numbering { filled: before.filled.insert(node), ..before }));
            frame.lemma_filled(before, after, node);
        }
    }

    /// Whether every block that leads to a block was gone through.
    fn can_seal(&self, function: &Function, node: NodeId) -> (result: bool)
        requires
            function.well_formed(),
        ensures
            result == forall|i: int|
                0 <= i < function@.edges.len() && (#[trigger] function@.edges[i]).target == node
                    ==> self.filled_blocks().contains(function@.edges[i].source),
    {
        let sources = function.predecessor_blocks(node);
        let ghost entering = EdgeView::entering(function@.edges, node);
        let mut at: usize = 0;
        while at < sources.len()
            invariant
                at <= sources@.len(),
                entering == EdgeView::entering(function@.edges, node),
                sources@ == EdgeView::sources(entering),
                forall|e: int|
                    0 <= e < at ==> self.filled_blocks().contains(#[trigger] sources@[e]),
            decreases sources.len() - at,
        {
            if !has_member(&self.filled, sources[at] as u64) {
                proof {
                    let i = params::lemma_entering_member(function@.edges, node, at as int);
                    assert(sources@[at as int] == entering[at as int].source);
                    assert(function@.edges[i].target == node);
                }
                return false;
            }
            at += 1;
        }
        proof {
            assert forall|i: int|
                0 <= i < function@.edges.len() && (#[trigger] function@.edges[i]).target
                    == node implies self.filled_blocks().contains(function@.edges[i].source) by {
                let e = params::lemma_entering_listed(function@.edges, i);
                assert(sources@[e] == entering[e].source);
            }
        }
        true
    }

    /// Passes the values at the start of a block, once every block that leads
    /// to it was gone through.
    fn seal_block(&mut self, function: &mut Function, locals: &mut Locals, node: NodeId)
        requires
            old(self).is_ready(*old(function), *old(locals), at_rest(), Set::empty()),
            old(self).frame@.cfg.blocks.dom().contains(node),
            node != old(self).frame@.entry,
            !old(self).sealed_blocks().contains(node),
            forall|i: int|
                0 <= i < old(function)@.edges.len() && (
                #[trigger] old(function)@.edges[i]).target == node
                    ==> old(self).filled_blocks().contains(old(function)@.edges[i].source),
            forall|m: u32| #[trigger]
                old(self).filled_blocks().contains(m) ==> !old(self).frame@.is_within(
                    node,
                    old(self).frame@.place(m),
                ),
        ensures
            final(self).frame == old(self).frame,
            final(self).is_ready(*final(function), *final(locals), at_rest(), Set::empty()),
            final(self).filled_blocks() == old(self).filled_blocks(),
            final(self).sealed_blocks() == old(self).sealed_blocks().insert(node),
    {
        let ghost frame = self.frame@;
        let ghost before = self.state(function@, locals@.len());
        let list = match remove_entry(&mut self.incomplete, node as u64) {
            Some(list) => list,
            None => Vec::new(),
        };
        let _ = insert_member(&mut self.sealed, node as u64);
        self.sealed_at = Ghost(self.sealed_at@.insert(node, locals@.len()));
        let ghost mut pending: Set<(u32, u64)> = Set::new(
            |key: (u32, u64)|
                key.0 == node && !frame.upvalues.contains(key.1) && exists|j: int|
                    0 <= j < list@.len() && (#[trigger] list@[j]).0 == key.1,
        );
        let ghost start = self.state(function@, locals@.len());
        proof {
            lemma_joints(frame, before, at_rest(), Set::empty());
            assert forall|n: u32|
                self.sealed_blocks().contains(n) == before.sealed.insert(node).contains(n) by {
                if n != node {
                    assert(n as u64 != node as u64);
                }
            }
            assert(start.sealed =~= before.sealed.insert(node));
            assert forall|n: u32|
                start.incomplete.dom().contains(n) == before.incomplete.remove(
                    node,
                ).dom().contains(n) by {
                if n != node {
                    assert(n as u64 != node as u64);
                }
            }
            assert forall|n: u32| start.incomplete.dom().contains(n) implies
                start.incomplete[n] == before.incomplete.remove(node)[n] by {
                assert(n as u64 != node as u64);
            }
            assert(start.incomplete =~= before.incomplete.remove(node));
            assert(start =~= (Numbering {
                sealed: before.sealed.insert(node),
                sealed_at: before.sealed_at.insert(node, before.count),
                incomplete: before.incomplete.remove(node),
                ..before
            }));
            assert forall|i: int|
                0 <= i < frame.cfg.edges.len() && (#[trigger] frame.cfg.edges[i]).target
                    == node implies before.filled.contains(frame.cfg.edges[i].source) by {
                assert(numbering::is_joint(before.cfg.edges[i], frame.cfg.edges[i]));
                assert(function@.edges[i].target == node);
            }
            assert(list@ =~= (if before.incomplete.dom().contains(node) {
                before.incomplete[node]
            } else {
                Seq::empty()
            }));
            frame.lemma_sealed(before, start, at_rest(), node, list@, pending);
            frame.lemma_sealed_in_time(
                before.made,
                before.sealed,
                before.sealed_at,
                before.filled,
                before.count,
                node,
            );
            numbering::lemma_grows_self(start);
        }
        let mut at: usize = 0;
        while at < list.len()
            invariant
                at <= list@.len(),
                self.frame@ == frame,
                self.is_ready(*function, *locals, at_rest(), pending),
                start.grows_to(self.state(function@, locals@.len())),
                start.sealed.contains(node),
                forall|j: int|
                    0 <= j < list@.len() ==> numbering::found(
                        start.starts,
                        (node, (#[trigger] list@[j]).0),
                    ) == Some(list@[j].1) && frame.is_old(list@[j].0),
                forall|i: int, j: int|
                    0 <= i < j < list@.len() ==> (#[trigger] list@[i]).0 != (
                    #[trigger] list@[j]).0,
                forall|m: u32, local: u64| #[trigger]
                    pending.contains((m, local)) <==> m == node && !frame.upvalues.contains(local)
                        && exists|j: int|
                        at <= j < list@.len() && (#[trigger] list@[j]).0 == local,
            decreases list.len() - at,
        {
            let (local, parameter) = list[at];
            let ghost middle = self.state(function@, locals@.len());
            proof {
                assert(list@[at as int].0 == local);
                assert(start.starts.dom().contains((node, local)));
            }
            if !has_member(&self.upvalues, local) {
                proof {
                    assert(pending.contains((node, local)));
                    assert(middle.sealed.contains(node));
                }
                self.add_param_args(
                    function,
                    locals,
                    node,
                    local,
                    parameter,
                    Ghost(at_rest()),
                    Ghost(pending),
                );
                proof {
                    let after = self.state(function@, locals@.len());
                    numbering::lemma_grows_trans(start, middle, after);
                    pending = pending.remove((node, local));
                }
            }
            proof {
                assert forall|m: u32, other: u64| #[trigger]
                    pending.contains((m, other)) <==> m == node && !frame.upvalues.contains(other)
                        && exists|j: int|
                        at + 1 <= j < list@.len() && (#[trigger] list@[j]).0 == other by {
                    if m == node && !frame.upvalues.contains(other) {
                        if exists|j: int|
                            at + 1 <= j < list@.len() && (#[trigger] list@[j]).0 == other {
                            let j = choose|j: int|
                                at + 1 <= j < list@.len() && (#[trigger] list@[j]).0 == other;
                            assert(list@[at as int].0 != list@[j].0);
                            assert(at <= j < list@.len());
                        }
                        if exists|j: int|
                            at <= j < list@.len() && (#[trigger] list@[j]).0 == other {
                            let j = choose|j: int|
                                at <= j < list@.len() && (#[trigger] list@[j]).0 == other;
                            if j > at {
                                assert(at + 1 <= j < list@.len());
                            }
                        }
                    }
                }
            }
            at += 1;
        }
        proof {
            assert forall|key: (u32, u64)| !pending.contains(key) by {
                assert(key == (key.0, key.1));
                assert(pending.contains((key.0, key.1)) ==> false);
            }
            assert(pending =~= Set::empty());
        }
    }

    /// Gives every definition of the function a local of its own.
    pub(crate) fn build(&mut self, function: &mut Function, locals: &mut Locals)
        requires
            old(self).is_ready(*old(function), *old(locals), at_rest(), Set::empty()),
            old(self).filled_blocks() == Set::<u32>::empty(),
            old(self).sealed_blocks() == Set::<u32>::empty(),
        ensures
            final(self).frame == old(self).frame,
            final(self).is_ready(*final(function), *final(locals), at_rest(), Set::empty()),
            final(self).filled_blocks() == final(self).frame@.cfg.blocks.dom(),
            final(self).sealed_blocks() == final(self).frame@.cfg.blocks.dom().remove(
                final(self).entry,
            ),
    {
        let ghost frame = self.frame@;
        let length: usize = self.walk.len();
        let mut at: usize = 0;
        while at < length
            invariant
                at <= length == frame.walk.len(),
                self.frame@ == frame,
                self.is_ready(*function, *locals, at_rest(), Set::empty()),
                forall|n: u32| #[trigger]
                    self.filled_blocks().contains(n) <==> frame.cfg.blocks.dom().contains(n)
                        && frame.place(n) < at,
                forall|n: u32|
                    frame.cfg.blocks.dom().contains(n) && n != frame.entry
                        && #[trigger] frame.is_within(n, at as int)
                        ==> self.sealed_blocks().contains(n),
            decreases length - at,
        {
            let node = self.walk[at];
            let ghost filled = self.filled_blocks();
            proof {
                assert(frame.walk[at as int] == node);
                assert(frame.walk.to_set().contains(node));
                frame.lemma_place(at as int);
            }
            self.fill_block(function, locals, node);
            proof {
                assert forall|n: u32| #[trigger]
                    self.filled_blocks().contains(n) <==> frame.cfg.blocks.dom().contains(n)
                        && frame.place(n) < at + 1 by {
                    if frame.cfg.blocks.dom().contains(n) {
                        frame.lemma_placed(n);
                    }
                    assert(filled.contains(n) || n == node
                        || !self.filled_blocks().contains(n));
                }
            }
            let ghost now = self.filled_blocks();
            let mut j: usize = 0;
            while j <= at
                invariant
                    at < length == frame.walk.len(),
                    j <= at + 1,
                    self.frame@ == frame,
                    self.is_ready(*function, *locals, at_rest(), Set::empty()),
                    self.filled_blocks() == now,
                    forall|n: u32| #[trigger]
                        now.contains(n) <==> frame.cfg.blocks.dom().contains(n)
                            && frame.place(n) < at + 1,
                    forall|n: u32|
                        frame.cfg.blocks.dom().contains(n) && n != frame.entry
                            && #[trigger] frame.is_within(n, at as int)
                            ==> self.sealed_blocks().contains(n),
                    forall|n: u32|
                        frame.cfg.blocks.dom().contains(n) && n != frame.entry
                            && #[trigger] frame.is_within(n, at + 1) && frame.place(n) < j
                            ==> self.sealed_blocks().contains(n),
                decreases at + 1 - j,
            {
                let visited = self.walk[j];
                let ghost sealed = self.sealed_blocks();
                proof {
                    assert(frame.walk[j as int] == visited);
                    assert(frame.walk.to_set().contains(visited));
                    frame.lemma_place(j as int);
                    lemma_joints(
                        frame,
                        self.state(function@, locals@.len()),
                        at_rest(),
                        Set::empty(),
                    );
                }
                if visited != self.entry && !has_member(&self.sealed, visited as u64)
                    && self.can_seal(function, visited) {
                    proof {
                        assert forall|m: u32| #[trigger] now.contains(m) implies !frame.is_within(
                            visited,
                            frame.place(m),
                        ) by {
                            if frame.is_within(visited, frame.place(m)) {
                                assert(frame.is_within(visited, at as int));
                            }
                        }
                    }
                    self.seal_block(function, locals, visited);
                } else {
                    proof {
                        if frame.is_within(visited, at + 1) {
                            assert forall|i: int|
                                0 <= i < function@.edges.len() && (
                                #[trigger] function@.edges[i]).target
                                    == visited implies self.filled_blocks().contains(
                                function@.edges[i].source,
                            ) by {
                                assert(numbering::is_joint(
                                    function@.edges[i],
                                    frame.cfg.edges[i],
                                ));
                                assert(frame.cfg.blocks.dom().contains(
                                    frame.cfg.edges[i].source,
                                ));
                            }
                        }
                    }
                }
                proof {
                    assert(sealed.subset_of(self.sealed_blocks()));
                    assert forall|n: u32|
                        frame.cfg.blocks.dom().contains(n) && n != frame.entry
                            && #[trigger] frame.is_within(n, at + 1) && frame.place(n) < j
                            + 1 implies self.sealed_blocks().contains(n) by {
                        frame.lemma_placed(n);
                        if frame.place(n) == j {
                            assert(n == visited);
                        } else {
                            assert(sealed.contains(n));
                        }
                    }
                }
                j += 1;
            }
            at += 1;
        }
        proof {
            let st = self.state(function@, locals@.len());
            assert forall|n: u32|
                self.filled_blocks().contains(n) == frame.cfg.blocks.dom().contains(n) by {
                if frame.cfg.blocks.dom().contains(n) {
                    frame.lemma_placed(n);
                }
            }
            assert(self.filled_blocks() =~= frame.cfg.blocks.dom());
            assert forall|n: u32|
                self.sealed_blocks().contains(n) == frame.cfg.blocks.dom().remove(
                    frame.entry,
                ).contains(n) by {
                lemma_sealed_blocks(frame, st, n);
                if frame.cfg.blocks.dom().contains(n) && n != frame.entry {
                    frame.lemma_placed(n);
                    assert forall|i: int|
                        0 <= i < frame.cfg.edges.len() && (#[trigger] frame.cfg.edges[i]).target
                            == n implies frame.place(frame.cfg.edges[i].source) < at by {
                        frame.lemma_placed(frame.cfg.edges[i].source);
                    }
                    assert(frame.is_within(n, at as int));
                }
            }
            assert(self.sealed_blocks() =~= frame.cfg.blocks.dom().remove(frame.entry));
        }
    }
}

proof fn lemma_sealed_blocks(frame: Frame, st: Numbering, n: u32)
    requires
        frame.holds(st, at_rest(), Set::empty()),
    ensures
        st.sealed.contains(n) ==> n != frame.entry && frame.cfg.blocks.dom().contains(n),
{
    reveal(Frame::holds);
}

proof fn lemma_block(frame: Frame, st: Numbering, node: u32)
    requires
        frame.holds(st, at_rest(), Set::empty()),
        frame.cfg.blocks.dom().contains(node),
    ensures
        st.cfg.blocks.dom().contains(node),
        st.cfg.blocks[node].len() == frame.cfg.blocks[node].len(),
{
    reveal(Frame::holds);
}

} // verus!
