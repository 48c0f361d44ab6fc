//! What it means for every definition of a function to have a local of its
//! own.

use vstd::prelude::*;

use crate::ast::local::RcLocal;
use crate::ast::nodes;
use crate::ast::nodes::{RValueView, StatementView};
use crate::cfg::block::EdgeView;
use crate::cfg::function::CfgView;
use crate::cfg::graph;

verus! {

broadcast use nodes::group_views;

/// What a new local was made for: the value of a local at the start of a block,
/// or a target of a statement.
pub enum Origin {
    Start(u32, u64),
    Written(u32, int, int),
}

/// The function that is given new locals.
pub struct Frame {
    pub cfg: CfgView,
    /// The blocks in the order that they are gone through.
    pub walk: Seq<u32>,
    pub entry: u32,
    /// The number of the first new local.
    pub base: nat,
    /// The locals that come from around the function.
    pub upvalues: Set<u64>,
    /// The names of the locals that there were before.
    pub names: Seq<Option<Seq<char>>>,
}

/// How far the new locals are given.
#[verifier::ext_equal]
pub struct Numbering {
    pub cfg: CfgView,
    /// The value of a local at the start of a block.
    pub starts: Map<(u32, u64), u64>,
    /// The value of a local as far as a block was gone through.
    pub current: Map<(u32, u64), u64>,
    /// The local that a new one stands for.
    pub old: Map<u64, u64>,
    pub made: Map<u64, Origin>,
    /// The new locals that a statement reads, by the old ones.
    pub values: Map<(u32, int), Map<u64, u64>>,
    /// The blocks that were gone through.
    pub filled: Set<u32>,
    /// The blocks that are known to get every value from the blocks before.
    pub sealed: Set<u32>,
    /// How many locals there were when a block was sealed.
    pub sealed_at: Map<u32, nat>,
    /// The values at the starts of blocks that are not sealed.
    pub incomplete: Map<u32, Seq<(u64, u64)>>,
    /// How many locals there are.
    pub count: nat,
}

/// How far the block at hand was gone through: the block, how many statements
/// have new targets, and how many are done.
pub struct Progress {
    pub node: Option<u32>,
    pub written: int,
    pub whole: int,
}

impl Progress {
    /// The blocks that were gone through, and the block at hand.
    pub open spec fn begun(self, filled: Set<u32>) -> Set<u32> {
        match self.node {
            Some(n) => filled.insert(n),
            None => filled,
        }
    }
}

/// The last of the first `count` targets that stands for a local.
pub open spec fn last_in(
    writes: Seq<RcLocal>,
    old: Map<u64, u64>,
    local: u64,
    count: int,
) -> Option<u64>
    decreases count,
{
    if count <= 0 || count > writes.len() {
        None
    } else if old.dom().contains(writes[count - 1].id) && old[writes[count - 1].id] == local {
        Some(writes[count - 1].id)
    } else {
        last_in(writes, old, local, count - 1)
    }
}

/// The last target of the first `count` statements that stands for a local.
pub open spec fn last_before(
    block: Seq<StatementView>,
    old: Map<u64, u64>,
    local: u64,
    count: int,
) -> Option<u64>
    decreases count,
{
    if count <= 0 || count > block.len() {
        None
    } else {
        let writes = block[count - 1].writes();
        match last_in(writes, old, local, writes.len() as int) {
            Some(id) => Some(id),
            None => last_before(block, old, local, count - 1),
        }
    }
}

/// A key's value, where it has one.
pub open spec fn found<K, V>(map: Map<K, V>, key: K) -> Option<V> {
    if map.dom().contains(key) {
        Some(map[key])
    } else {
        None
    }
}

/// Whether a map has all entries of another.
pub open spec fn is_part<K, V>(part: Map<K, V>, map: Map<K, V>) -> bool {
    forall|key: K| #[trigger]
        part.dom().contains(key) ==> map.dom().contains(key) && map[key] == part[key]
}

/// A renaming by a map.
pub open spec fn through(map: Map<u64, u64>) -> spec_fn(RcLocal) -> RcLocal {
    |local: RcLocal|
        if map.dom().contains(local.id) {
            RcLocal { id: map[local.id] }
        } else {
            local
        }
}

/// Whether a statement assigns a closure to a local: the closure can refer to
/// the local, so that the local is written before the closure is made.
pub open spec fn defines_closure(statement: StatementView) -> bool {
    statement matches StatementView::Assign(assign) && assign.left.len() == 1
        && assign.right.len() == 1 && assign.left[0] is Local && assign.right[0] is Closure
}

impl Frame {
    /// Whether a local is one that the function had before.
    pub open spec fn is_old(self, local: u64) -> bool {
        local < self.base && self.cfg.bindings.dom().contains(local)
    }

    /// Whether the function can be given new locals: the entry has nothing
    /// before it and reaches every block, edges pass no arguments, every local
    /// is bound, and every statement that writes a local has its origins.
    pub open spec fn is_valid(self) -> bool {
        &&& self.cfg.blocks.dom() == self.walk.to_set()
        &&& graph::is_walk(EdgeView::arcs(self.cfg.edges), self.entry, self.walk)
        &&& EdgeView::entering(self.cfg.edges, self.entry).len() == 0
        &&& forall|i: int|
            0 <= i < self.cfg.edges.len() ==> (#[trigger] self.cfg.edges[i]).arguments.len() == 0
                && self.cfg.blocks.dom().contains(self.cfg.edges[i].source)
                && self.cfg.blocks.dom().contains(self.cfg.edges[i].target)
        &&& forall|i: int, j: int|
            0 <= i < j < self.cfg.edges.len() ==> (#[trigger] self.cfg.edges[i]).id != (
            #[trigger] self.cfg.edges[j]).id
        &&& forall|n: u32, t: int, k: int|
            self.cfg.blocks.dom().contains(n) && 0 <= t < self.cfg.blocks[n].len() && 0 <= k
                < self.cfg.blocks[n][t].locals().len() ==> self.is_old(
                (#[trigger] self.cfg.blocks[n][t].locals()[k]).id,
            )
        &&& forall|n: u32, t: int|
            self.cfg.blocks.dom().contains(n) && 0 <= t < self.cfg.blocks[n].len()
                && self.cfg.blocks[n][t].writes().len() > 0 ==> (
            #[trigger] self.cfg.origins_of(n, t)) is Some
        &&& forall|n: u32|
            self.cfg.blocks.dom().contains(n) ==> (#[trigger] self.cfg.blocks[n]).len()
                <= usize::MAX
    }

    /// The place of a block on the walk.
    pub open spec fn place(self, node: u32) -> int {
        self.walk.index_of(node)
    }

    /// How late a new local is made along the walk.
    pub open spec fn rank(self, origin: Origin) -> int {
        match origin {
            Origin::Start(n, _) => self.place(n) * 0x1_0000_0000_0000_0000,
            Origin::Written(n, t, _) => self.place(n) * 0x1_0000_0000_0000_0000 + t + 1,
        }
    }

    /// How far the targets of a block are new.
    pub open spec fn written(self, st: Numbering, progress: Progress, n: u32) -> int {
        if st.filled.contains(n) {
            self.cfg.blocks[n].len() as int
        } else if progress.node == Some(n) {
            progress.written
        } else {
            0
        }
    }

    /// How far a block is done.
    pub open spec fn whole(self, st: Numbering, progress: Progress, n: u32) -> int {
        if st.filled.contains(n) {
            self.cfg.blocks[n].len() as int
        } else if progress.node == Some(n) {
            progress.whole
        } else {
            0
        }
    }

    /// Where the statement at `t` looks for what it reads.
    pub open spec fn view_point(self, n: u32, t: int) -> int {
        if defines_closure(self.cfg.blocks[n][t]) {
            t + 1
        } else {
            t
        }
    }

    /// Whether a statement has new locals: its targets are made for it, and
    /// what it reads is what was written last, or came from the start of the
    /// block.
    pub open spec fn is_numbered(self, st: Numbering, n: u32, t: int) -> bool {
        let before = self.cfg.blocks[n][t];
        let after = st.cfg.blocks[n][t];
        &&& st.values.dom().contains((n, t))
        &&& after == before.reread(through(st.values[(n, t)])).rewritten_to(after.writes())
        &&& forall|k: int|
            0 <= k < before.reads().len() ==> st.values[(n, t)].dom().contains(
                (#[trigger] before.reads()[k]).id,
            ) && st.seen(n, before.reads()[k].id, self.view_point(n, t)) == Some(
                st.values[(n, t)][before.reads()[k].id],
            )
    }

    /// Whether the targets of a statement are made for it.
    pub open spec fn is_written(self, st: Numbering, n: u32, t: int) -> bool {
        let before = self.cfg.blocks[n][t].writes();
        let after = st.cfg.blocks[n][t].writes();
        &&& after.len() == before.len()
        &&& forall|k: int|
            0 <= k < after.len() ==> st.is_new((#[trigger] after[k]).id) && st.old[after[k].id]
                == before[k].id && st.made[after[k].id] == Origin::Written(n, t, k)
    }

    /// Whether the edges into a block pass a parameter the value that the local
    /// has at the end of the block that each comes from.
    pub open spec fn passes(self, st: Numbering, n: u32, local: u64, parameter: u64) -> bool {
        forall|i: int|
            0 <= i < st.cfg.edges.len() && (#[trigger] st.cfg.edges[i]).target == n
                ==> st.current.dom().contains((st.cfg.edges[i].source, local))
                && st.cfg.edges[i].arguments.contains(
                (
                    RcLocal { id: parameter },
                    RValueView::Local(
                        RcLocal { id: st.current[(st.cfg.edges[i].source, local)] },
                    ),
                ),
            )
    }

    /// Whether a block has one edge into it, from a block that has a value for
    /// a local.
    pub open spec fn takes_over(self, st: Numbering, n: u32, local: u64, value: u64) -> bool {
        let entering = EdgeView::entering(self.cfg.edges, n);
        entering.len() == 1 && found(st.current, (entering[0].source, local)) == Some(value)
    }

    /// Whether the value of a local at the start of a block stays to be passed.
    pub open spec fn is_listed(self, st: Numbering, n: u32, local: u64, value: u64) -> bool {
        st.incomplete.dom().contains(n) && st.incomplete[n].contains((local, value))
    }

    /// Whether no edge into a block passes a parameter.
    pub open spec fn is_unpassed(self, st: Numbering, n: u32, parameter: u64) -> bool {
        forall|i: int, k: int|
            0 <= i < st.cfg.edges.len() && 0 <= k < st.cfg.edges[i].arguments.len()
                && st.cfg.edges[i].target == n ==> (#[trigger] st.cfg.edges[i].arguments[k]).0.id
                != parameter
    }

    /// Whether the value of a local at the start of a block is what the blocks
    /// before it end with, or waits for them. A local from around the function
    /// is not passed where its value was asked for before the block was sealed.
    pub open spec fn is_settled(self, st: Numbering, n: u32, local: u64) -> bool {
        let value = st.starts[(n, local)];
        if n == self.entry || !st.sealed.contains(n) {
            &&& st.made[value] == Origin::Start(n, local)
            &&& self.is_listed(st, n, local, value)
            &&& self.is_unpassed(st, n, value)
        } else {
            ||| st.made[value] == Origin::Start(n, local) && (self.passes(st, n, local, value)
                || self.upvalues.contains(local) && value < st.sealed_at[n])
            ||| self.takes_over(st, n, local, value)
        }
    }

    /// Whether the value of a local at the start of a block is about to be
    /// passed.
    pub open spec fn is_pending(self, st: Numbering, n: u32, local: u64) -> bool {
        st.made[st.starts[(n, local)]] == Origin::Start(n, local) && self.is_unpassed(
            st,
            n,
            st.starts[(n, local)],
        )
    }

    /// Whether a value at the start of a block is one for it.
    pub open spec fn is_start(self, st: Numbering, n: u32, local: u64) -> bool {
        let value = st.starts[(n, local)];
        &&& self.cfg.blocks.dom().contains(n)
        &&& self.is_old(local)
        &&& st.is_new(value)
        &&& st.old[value] == local
        &&& self.rank(st.made[value]) <= self.place(n) * 0x1_0000_0000_0000_0000
    }

    /// Whether an argument passes a value at the end of one block to the start
    /// of another.
    pub open spec fn is_argument(self, st: Numbering, i: int, k: int) -> bool {
        let edge = st.cfg.edges[i];
        let parameter = edge.arguments[k].0.id;
        &&& st.is_new(parameter)
        &&& st.made[parameter] == Origin::Start(edge.target, st.old[parameter])
        &&& edge.arguments[k].1 is Local
        &&& ({
            let value = edge.arguments[k].1->Local_0.id;
            &&& st.is_new(value)
            &&& st.old[value] == st.old[parameter]
            &&& self.rank(st.made[value]) < (self.place(edge.source) + 1)
                * 0x1_0000_0000_0000_0000
        })
    }

    /// Whether the function is the one at hand, with other statements, other
    /// arguments and more that is known of locals.
    pub open spec fn keeps_function(self, st: Numbering) -> bool {
        &&& st.cfg == (CfgView {
            blocks: st.cfg.blocks,
            edges: st.cfg.edges,
            bindings: st.cfg.bindings,
            provenance: st.cfg.provenance,
            ..self.cfg
        })
        &&& st.cfg.blocks.dom() == self.cfg.blocks.dom()
        &&& forall|n: u32|
            self.cfg.blocks.dom().contains(n) ==> (#[trigger] st.cfg.blocks[n]).len()
                == self.cfg.blocks[n].len()
        &&& st.cfg.edges.len() == self.cfg.edges.len()
        &&& forall|i: int|
            0 <= i < st.cfg.edges.len() ==> is_joint(
                #[trigger] st.cfg.edges[i],
                self.cfg.edges[i],
            )
        &&& forall|id: u64|
            self.cfg.bindings.dom().contains(id) ==> #[trigger] st.cfg.bindings.dom().contains(id)
    }

    /// Whether new locals are new, bound, and stand for old ones.
    pub open spec fn keeps_numbers(self, st: Numbering) -> bool {
        &&& self.base <= st.count
        &&& st.made.dom() == st.old.dom()
        &&& forall|id: u64| #[trigger]
            st.is_new(id) ==> self.base <= id < st.count && st.cfg.bindings.dom().contains(id)
                && self.is_old(st.old[id]) && st.made.dom().contains(id)
    }

    /// Whether the statements have new locals as far as the blocks were gone
    /// through.
    pub open spec fn keeps_statements(self, st: Numbering, progress: Progress) -> bool {
        &&& forall|n: u32, t: int|
            self.cfg.blocks.dom().contains(n) && 0 <= t < self.written(st, progress, n)
                ==> #[trigger] self.is_written(st, n, t)
        &&& forall|n: u32, t: int|
            self.cfg.blocks.dom().contains(n) && 0 <= t < self.whole(st, progress, n)
                ==> #[trigger] self.is_numbered(st, n, t)
        &&& forall|n: u32, t: int|
            self.cfg.blocks.dom().contains(n) && self.written(st, progress, n) <= t
                < self.cfg.blocks[n].len() ==> #[trigger] st.cfg.blocks[n][t]
                == self.cfg.blocks[n][t]
    }

    /// Whether the values as far as the blocks were gone through are those that
    /// were written last, or came from the starts of the blocks.
    pub open spec fn keeps_current(self, st: Numbering, progress: Progress) -> bool {
        forall|n: u32, local: u64|
            self.cfg.blocks.dom().contains(n) ==> #[trigger] found(st.current, (n, local))
                == st.seen(n, local, self.written(st, progress, n))
    }

    /// Whether the values at the starts of blocks are settled.
    pub open spec fn keeps_starts(self, st: Numbering, pending: Set<(u32, u64)>) -> bool {
        &&& forall|n: u32, local: u64| #[trigger]
            st.starts.dom().contains((n, local)) ==> self.is_start(st, n, local)
        &&& forall|n: u32, local: u64| #[trigger]
            st.starts.dom().contains((n, local)) && !pending.contains((n, local))
                ==> self.is_settled(st, n, local)
        &&& forall|n: u32, local: u64| #[trigger]
            pending.contains((n, local)) ==> st.starts.dom().contains((n, local))
                && self.is_pending(st, n, local)
        &&& forall|n: u32, j: int|
            st.incomplete.dom().contains(n) && 0 <= j < st.incomplete[n].len() ==> found(
                st.starts,
                (n, (#[trigger] st.incomplete[n][j]).0),
            ) == Some(st.incomplete[n][j].1)
        &&& forall|n: u32, i: int, j: int|
            st.incomplete.dom().contains(n) && 0 <= i < j < st.incomplete[n].len() ==> (
            #[trigger] st.incomplete[n][i]).0 != (#[trigger] st.incomplete[n][j]).0
    }

    /// Whether arguments pass values, and the edges into a block have the same
    /// parameters, each once.
    pub open spec fn keeps_arguments(self, st: Numbering) -> bool {
        &&& forall|i: int, k: int|
            0 <= i < st.cfg.edges.len() && 0 <= k < st.cfg.edges[i].arguments.len()
                ==> #[trigger] self.is_argument(st, i, k)
        &&& forall|i: int, j: int|
            0 <= i < st.cfg.edges.len() && 0 <= j < st.cfg.edges.len() && (
            #[trigger] st.cfg.edges[i]).target == (#[trigger] st.cfg.edges[j]).target
                ==> parameters_of(st.cfg.edges[i]) == parameters_of(st.cfg.edges[j])
        &&& forall|i: int|
            0 <= i < st.cfg.edges.len() ==> parameters_of(
                #[trigger] st.cfg.edges[i],
            ).no_duplicates()
    }

    /// Whether sealed blocks get every value from blocks that were gone
    /// through.
    pub open spec fn keeps_sealed(self, st: Numbering) -> bool {
        &&& forall|n: u32| #[trigger]
            st.filled.contains(n) ==> self.cfg.blocks.dom().contains(n)
        &&& forall|n: u32| #[trigger]
            st.sealed.contains(n) ==> n != self.entry && self.cfg.blocks.dom().contains(n)
                && !st.incomplete.dom().contains(n)
        &&& forall|i: int|
            0 <= i < self.cfg.edges.len() && st.sealed.contains(
                (#[trigger] self.cfg.edges[i]).target,
            ) ==> st.filled.contains(self.cfg.edges[i].source)
    }

    /// The name of a new local: a definition has the one that its register
    /// carried.
    pub open spec fn new_name(self, local: u64, origin: Origin) -> Option<Seq<char>> {
        match origin {
            Origin::Start(_, _) => None,
            Origin::Written(n, t, _) => self.cfg.definition_name(
                RcLocal { id: local },
                self.cfg.origins_of(n, t)->0,
            ),
        }
    }

    /// Whether the locals that there were before keep their names, and new ones
    /// have theirs.
    #[verifier::opaque]
    pub open spec fn keeps_names(
        self,
        old: Map<u64, u64>,
        made: Map<u64, Origin>,
        names: Seq<Option<Seq<char>>>,
    ) -> bool {
        &&& self.base == self.names.len()
        &&& self.base <= names.len()
        &&& forall|i: int| 0 <= i < self.base ==> #[trigger] names[i] == self.names[i]
        &&& forall|id: u64| #[trigger]
            made.dom().contains(id) ==> self.base <= id < names.len() && names[id as int]
                == self.new_name(old[id], made[id])
    }

    /// A local for the start of a block has no name.
    pub proof fn lemma_start_named(
        self,
        old: Map<u64, u64>,
        made: Map<u64, Origin>,
        names: Seq<Option<Seq<char>>>,
        n: u32,
        local: u64,
        value: u64,
    )
        requires
            self.keeps_names(old, made, names),
            value == names.len(),
        ensures
            self.keeps_names(
                old.insert(value, local),
                made.insert(value, Origin::Start(n, local)),
                names.push(None),
            ),
    {
        reveal(Frame::keeps_names);
    }

    /// New targets have the names of their definitions.
    pub proof fn lemma_targets_named(
        self,
        old: Map<u64, u64>,
        made: Map<u64, Origin>,
        names: Seq<Option<Seq<char>>>,
        after: Seq<Option<Seq<char>>>,
        n: u32,
        t: int,
        targets: Seq<RcLocal>,
        before: Seq<RcLocal>,
        count: int,
    )
        requires
            self.keeps_names(old, made, names),
            0 <= count <= targets.len() == before.len(),
            after.len() == names.len() + targets.len(),
            names.is_prefix_of(after),
            come_next(targets, names.len()),
            forall|k: int|
                0 <= k < targets.len() ==> after[names.len() + k] == self.new_name(
                    (#[trigger] before[k]).id,
                    Origin::Written(n, t, k),
                ),
        ensures
            self.keeps_names(
                with_old(old, targets, before, count),
                with_made(made, n, t, targets, count),
                after.take(names.len() + count),
            ),
        decreases count,
    {
        if count <= 0 {
            assert(after.take(names.len() as int) =~= names);
        } else {
            self.lemma_targets_named(
                old,
                made,
                names,
                after,
                n,
                t,
                targets,
                before,
                count - 1,
            );
            reveal(Frame::keeps_names);
            assert(targets[count - 1].id == names.len() + count - 1);
            assert(before[count - 1] == before[count - 1]);
            assert(after.take(names.len() + count) =~= after.take(names.len() + count - 1).push(
                after[names.len() + count - 1],
            ));
        }
    }

    /// Whether a block and all blocks that lead to it stand before a place of
    /// the walk.
    pub open spec fn is_within(self, n: u32, at: int) -> bool {
        &&& self.place(n) < at
        &&& forall|i: int|
            0 <= i < self.cfg.edges.len() && (#[trigger] self.cfg.edges[i]).target == n
                ==> self.place(self.cfg.edges[i].source) < at
    }

    /// Whether the blocks were sealed in time: what a block writes is new only
    /// once the block was begun, and a block is sealed before anything is
    /// written that comes on the walk behind it and all blocks that lead to it.
    #[verifier::opaque]
    pub open spec fn keeps_seals(
        self,
        made: Map<u64, Origin>,
        sealed: Set<u32>,
        sealed_at: Map<u32, nat>,
        begun: Set<u32>,
        count: nat,
    ) -> bool {
        &&& forall|n: u32| #[trigger]
            sealed.contains(n) ==> sealed_at.dom().contains(n) && sealed_at[n] <= count
        &&& forall|id: u64| #[trigger]
            made.dom().contains(id) && made[id] is Written ==> begun.contains(
                made[id]->Written_0,
            )
        &&& forall|n: u32, id: u64| #[trigger]
            sealed.contains(n) && #[trigger] made.dom().contains(id) && made[id] is Written
                && self.is_within(n, self.place(made[id]->Written_0)) ==> sealed_at[n] <= id
    }

    /// A local for the start of a block is written nowhere.
    pub proof fn lemma_start_sealed(
        self,
        made: Map<u64, Origin>,
        sealed: Set<u32>,
        sealed_at: Map<u32, nat>,
        begun: Set<u32>,
        count: nat,
        n: u32,
        local: u64,
        value: u64,
    )
        requires
            self.keeps_seals(made, sealed, sealed_at, begun, count),
        ensures
            self.keeps_seals(
                made.insert(value, Origin::Start(n, local)),
                sealed,
                sealed_at,
                begun,
                count + 1,
            ),
    {
        reveal(Frame::keeps_seals);
    }

    /// New targets come after all blocks that were sealed.
    pub proof fn lemma_targets_sealed(
        self,
        made: Map<u64, Origin>,
        sealed: Set<u32>,
        sealed_at: Map<u32, nat>,
        begun: Set<u32>,
        first: nat,
        n: u32,
        t: int,
        targets: Seq<RcLocal>,
        count: nat,
    )
        requires
            self.keeps_seals(made, sealed, sealed_at, begun, first),
            begun.contains(n),
            count <= targets.len(),
            come_next(targets, first),
        ensures
            self.keeps_seals(
                with_made(made, n, t, targets, count as int),
                sealed,
                sealed_at,
                begun,
                first + count,
            ),
        decreases count,
    {
        reveal(Frame::keeps_seals);
        if count > 0 {
            let less = (count - 1) as nat;
            self.lemma_targets_sealed(
                made,
                sealed,
                sealed_at,
                begun,
                first,
                n,
                t,
                targets,
                less,
            );
            assert(targets[count - 1].id == first + count - 1);
        }
    }

    /// A block is begun.
    pub proof fn lemma_more_begun(
        self,
        made: Map<u64, Origin>,
        sealed: Set<u32>,
        sealed_at: Map<u32, nat>,
        begun: Set<u32>,
        count: nat,
        n: u32,
    )
        requires
            self.keeps_seals(made, sealed, sealed_at, begun, count),
        ensures
            self.keeps_seals(made, sealed, sealed_at, begun.insert(n), count),
    {
        reveal(Frame::keeps_seals);
    }

    /// A block is sealed before anything is written behind it.
    pub proof fn lemma_sealed_in_time(
        self,
        made: Map<u64, Origin>,
        sealed: Set<u32>,
        sealed_at: Map<u32, nat>,
        begun: Set<u32>,
        count: nat,
        n: u32,
    )
        requires
            self.keeps_seals(made, sealed, sealed_at, begun, count),
            !sealed.contains(n),
            forall|m: u32| #[trigger] begun.contains(m) ==> !self.is_within(n, self.place(m)),
        ensures
            self.keeps_seals(
                made,
                sealed.insert(n),
                sealed_at.insert(n, count),
                begun,
                count,
            ),
    {
        reveal(Frame::keeps_seals);
    }

    /// Whether the new locals are given as far as the blocks were gone through.
    #[verifier::opaque]
    pub open spec fn holds(
        self,
        st: Numbering,
        progress: Progress,
        pending: Set<(u32, u64)>,
    ) -> bool {
        &&& self.keeps_function(st)
        &&& self.keeps_numbers(st)
        &&& self.keeps_statements(st, progress)
        &&& self.keeps_current(st, progress)
        &&& self.keeps_starts(st, pending)
        &&& self.keeps_arguments(st)
        &&& self.keeps_sealed(st)
        &&& progress_fits(self, st, progress)
    }
}

impl Numbering {
    /// Whether a local is a new one.
    pub open spec fn is_new(self, id: u64) -> bool {
        self.old.dom().contains(id)
    }

    /// The value of a local after the first `count` statements of a block.
    pub open spec fn seen(self, n: u32, local: u64, count: int) -> Option<u64> {
        match last_before(self.cfg.blocks[n], self.old, local, count) {
            Some(id) => Some(id),
            None => found(self.starts, (n, local)),
        }
    }

    /// Whether all that a numbering says, another says too.
    pub open spec fn grows_to(self, after: Numbering) -> bool {
        &&& after.filled == self.filled
        &&& after.sealed == self.sealed
        &&& after.sealed_at == self.sealed_at
        &&& after.values == self.values
        &&& after.cfg.blocks == self.cfg.blocks
        &&& self.count <= after.count
        &&& is_part(self.old, after.old)
        &&& is_part(self.made, after.made)
        &&& is_part(self.starts, after.starts)
        &&& is_part(self.current, after.current)
        &&& self.cfg.bindings.dom().subset_of(after.cfg.bindings.dom())
        &&& forall|n: u32| #[trigger]
            self.incomplete.dom().contains(n) ==> after.incomplete.dom().contains(n)
                && self.incomplete[n].is_prefix_of(after.incomplete[n])
        &&& self.cfg.edges.len() == after.cfg.edges.len()
        &&& forall|i: int|
            0 <= i < self.cfg.edges.len() ==> (#[trigger] self.cfg.edges[i]).arguments.is_prefix_of(
                after.cfg.edges[i].arguments,
            )
    }
}

/// Whether an edge is another with other arguments.
pub open spec fn is_joint(edge: EdgeView, other: EdgeView) -> bool {
    edge.id == other.id && edge.source == other.source && edge.target == other.target
        && edge.branch == other.branch
}

/// The parameters that an edge gives arguments for.
pub open spec fn parameters_of(edge: EdgeView) -> Seq<RcLocal> {
    edge.arguments.map_values(|argument: (RcLocal, RValueView)| argument.0)
}

proof fn lemma_submap_trans<K, V>(a: Map<K, V>, b: Map<K, V>, c: Map<K, V>)
    requires
        is_part(a, b),
        is_part(b, c),
    ensures
        is_part(a, c),
{
    assert forall|key: K| #[trigger] a.dom().contains(key) implies c.dom().contains(key) && a[key]
        == c[key] by {
        assert(b.dom().contains(key));
    }
}

pub proof fn lemma_grows_trans(a: Numbering, b: Numbering, c: Numbering)
    requires
        a.grows_to(b),
        b.grows_to(c),
    ensures
        a.grows_to(c),
{
    lemma_submap_trans(a.old, b.old, c.old);
    lemma_submap_trans(a.made, b.made, c.made);
    lemma_submap_trans(a.starts, b.starts, c.starts);
    lemma_submap_trans(a.current, b.current, c.current);
    assert forall|n: u32| #[trigger] a.incomplete.dom().contains(n) implies
        c.incomplete.dom().contains(n) && a.incomplete[n].is_prefix_of(c.incomplete[n]) by {
        assert(b.incomplete.dom().contains(n));
        assert forall|j: int| 0 <= j < a.incomplete[n].len() implies a.incomplete[n][j]
            == c.incomplete[n][j] by {
            assert(a.incomplete[n][j] == b.incomplete[n][j]);
        }
        assert(a.incomplete[n] =~= c.incomplete[n].subrange(0, a.incomplete[n].len() as int));
    }
    assert forall|i: int| 0 <= i < a.cfg.edges.len() implies (
    #[trigger] a.cfg.edges[i]).arguments.is_prefix_of(c.cfg.edges[i].arguments) by {
        let x = a.cfg.edges[i].arguments;
        let y = b.cfg.edges[i].arguments;
        let z = c.cfg.edges[i].arguments;
        assert(x.is_prefix_of(y) && y.is_prefix_of(z));
        assert forall|j: int| 0 <= j < x.len() implies x[j] == z[j] by {
            assert(x[j] == y[j]);
        }
        assert(x =~= z.subrange(0, x.len() as int));
    }
}

pub proof fn lemma_grows_self(a: Numbering)
    ensures
        a.grows_to(a),
{
    assert forall|n: u32| #[trigger] a.incomplete.dom().contains(n) implies
        a.incomplete[n].is_prefix_of(a.incomplete[n]) by {
        assert(a.incomplete[n] =~= a.incomplete[n].subrange(0, a.incomplete[n].len() as int));
    }
    assert forall|i: int| 0 <= i < a.cfg.edges.len() implies (
    #[trigger] a.cfg.edges[i]).arguments.is_prefix_of(a.cfg.edges[i].arguments) by {
        let x = a.cfg.edges[i].arguments;
        assert(x =~= x.subrange(0, x.len() as int));
    }
}

/// Whether every one of some targets is a new local.
pub open spec fn are_new(old: Map<u64, u64>, writes: Seq<RcLocal>) -> bool {
    forall|k: int| 0 <= k < writes.len() ==> old.dom().contains((#[trigger] writes[k]).id)
}

pub proof fn lemma_last_in_grows(
    writes: Seq<RcLocal>,
    old: Map<u64, u64>,
    more: Map<u64, u64>,
    local: u64,
    count: int,
)
    requires
        are_new(old, writes),
        is_part(old, more),
        count <= writes.len(),
    ensures
        last_in(writes, old, local, count) == last_in(writes, more, local, count),
    decreases count,
{
    if count > 0 {
        assert(old.dom().contains(writes[count - 1].id));
        lemma_last_in_grows(writes, old, more, local, count - 1);
    }
}

/// More new locals change nothing about what was written last.
pub proof fn lemma_last_grows(
    block: Seq<StatementView>,
    old: Map<u64, u64>,
    more: Map<u64, u64>,
    local: u64,
    count: int,
)
    requires
        is_part(old, more),
        count <= block.len(),
        forall|t: int| 0 <= t < count ==> are_new(old, (#[trigger] block[t]).writes()),
    ensures
        last_before(block, old, local, count) == last_before(block, more, local, count),
    decreases count,
{
    if count > 0 {
        let writes = block[count - 1].writes();
        lemma_last_in_grows(writes, old, more, local, writes.len() as int);
        lemma_last_grows(block, old, more, local, count - 1);
    }
}

/// Later statements change nothing about what was written last.
pub proof fn lemma_last_prefix(
    a: Seq<StatementView>,
    b: Seq<StatementView>,
    old: Map<u64, u64>,
    local: u64,
    count: int,
)
    requires
        count <= a.len(),
        a.len() == b.len(),
        forall|t: int| 0 <= t < count ==> (#[trigger] a[t]).writes() == b[t].writes(),
    ensures
        last_before(a, old, local, count) == last_before(b, old, local, count),
    decreases count,
{
    if count > 0 {
        assert(a[count - 1].writes() == b[count - 1].writes());
        lemma_last_prefix(a, b, old, local, count - 1);
    }
}

proof fn lemma_last_in_member(
    writes: Seq<RcLocal>,
    old: Map<u64, u64>,
    local: u64,
    count: int,
) -> (k: int)
    ensures
        match last_in(writes, old, local, count) {
            Some(id) => 0 <= k < count && count <= writes.len() && writes[k].id == id
                && old.dom().contains(id) && old[id] == local,
            None => true,
        },
    decreases count,
{
    if count <= 0 || count > writes.len() {
        0
    } else if old.dom().contains(writes[count - 1].id) && old[writes[count - 1].id] == local {
        count - 1
    } else {
        lemma_last_in_member(writes, old, local, count - 1)
    }
}

/// What was written last was written by a statement.
pub proof fn lemma_last_member(
    block: Seq<StatementView>,
    old: Map<u64, u64>,
    local: u64,
    count: int,
) -> (place: (int, int))
    ensures
        match last_before(block, old, local, count) {
            Some(id) => 0 <= place.0 < count && count <= block.len() && 0 <= place.1
                < block[place.0].writes().len() && block[place.0].writes()[place.1].id == id
                && old.dom().contains(id) && old[id] == local,
            None => true,
        },
    decreases count,
{
    if count <= 0 || count > block.len() {
        (0, 0)
    } else {
        let writes = block[count - 1].writes();
        let k = lemma_last_in_member(writes, old, local, writes.len() as int);
        match last_in(writes, old, local, writes.len() as int) {
            Some(_) => (count - 1, k),
            None => lemma_last_member(block, old, local, count - 1),
        }
    }
}

impl Frame {
    pub proof fn lemma_place(self, i: int)
        requires
            self.is_valid(),
            0 <= i < self.walk.len(),
        ensures
            self.place(self.walk[i]) == i,
    {
        let node = self.walk[i];
        assert(self.walk.contains(node));
        let j = self.walk.index_of(node);
        assert(self.walk[j] == node);
        if i != j {
            assert(self.walk[i] != self.walk[j]);
        }
    }

    pub proof fn lemma_placed(self, node: u32)
        requires
            self.is_valid(),
            self.cfg.blocks.dom().contains(node),
        ensures
            0 <= self.place(node) < self.walk.len(),
            self.walk[self.place(node)] == node,
    {
        assert(self.walk.to_set().contains(node));
        let i = choose|i: int| 0 <= i < self.walk.len() && self.walk[i] == node;
        self.lemma_place(i);
    }

    /// The targets of the statements that have new ones are new.
    pub proof fn lemma_new_targets(self, st: Numbering, progress: Progress, n: u32, count: int)
        requires
            self.keeps_statements(st, progress),
            self.cfg.blocks.dom().contains(n),
            count <= self.written(st, progress, n),
        ensures
            forall|t: int| 0 <= t < count ==> are_new(
                st.old,
                (#[trigger] st.cfg.blocks[n][t]).writes(),
            ),
    {
        assert forall|t: int| 0 <= t < count implies are_new(
            st.old,
            (#[trigger] st.cfg.blocks[n][t]).writes(),
        ) by {
            assert(self.is_written(st, n, t));
            assert forall|k: int| 0 <= k < st.cfg.blocks[n][t].writes().len() implies
                st.old.dom().contains((#[trigger] st.cfg.blocks[n][t].writes()[k]).id) by {
                assert(st.is_new(st.cfg.blocks[n][t].writes()[k].id));
            }
        }
    }

    /// A value that is known stays.
    pub proof fn lemma_seen_grows(
        self,
        st: Numbering,
        after: Numbering,
        progress: Progress,
        n: u32,
        local: u64,
        count: int,
    )
        requires
            self.keeps_function(st),
            self.keeps_statements(st, progress),
            self.cfg.blocks.dom().contains(n),
            count <= self.written(st, progress, n) <= self.cfg.blocks[n].len(),
            st.grows_to(after),
        ensures
            last_before(st.cfg.blocks[n], st.old, local, count) == last_before(
                after.cfg.blocks[n],
                after.old,
                local,
                count,
            ),
            st.seen(n, local, count) is Some ==> after.seen(n, local, count) == st.seen(
                n,
                local,
                count,
            ),
    {
        self.lemma_new_targets(st, progress, n, count);
        assert(st.cfg.blocks[n].len() == self.cfg.blocks[n].len());
        lemma_last_grows(st.cfg.blocks[n], st.old, after.old, local, count);
    }

    proof fn lemma_written_grows(self, st: Numbering, after: Numbering, n: u32, t: int)
        requires
            self.keeps_numbers(st),
            self.is_written(st, n, t),
            st.grows_to(after),
        ensures
            self.is_written(after, n, t),
    {
        let targets = st.cfg.blocks[n][t].writes();
        assert forall|k: int| 0 <= k < targets.len() implies after.is_new(
            (#[trigger] targets[k]).id,
        ) && after.old[targets[k].id] == self.cfg.blocks[n][t].writes()[k].id
            && after.made[targets[k].id] == Origin::Written(n, t, k) by {
            assert(st.is_new(targets[k].id));
            assert(st.old.dom().contains(targets[k].id));
            assert(st.made.dom().contains(targets[k].id));
        }
    }

    proof fn lemma_numbered_grows(
        self,
        st: Numbering,
        after: Numbering,
        progress: Progress,
        n: u32,
        t: int,
    )
        requires
            self.keeps_function(st),
            self.keeps_statements(st, progress),
            self.cfg.blocks.dom().contains(n),
            0 <= t < self.cfg.blocks[n].len(),
            self.view_point(n, t) <= self.written(st, progress, n) <= self.cfg.blocks[n].len(),
            self.is_numbered(st, n, t),
            st.grows_to(after),
        ensures
            self.is_numbered(after, n, t),
    {
        let before = self.cfg.blocks[n][t];
        assert forall|k: int| 0 <= k < before.reads().len() implies
            after.values[(n, t)].dom().contains((#[trigger] before.reads()[k]).id) && after.seen(
            n,
            before.reads()[k].id,
            self.view_point(n, t),
        ) == Some(after.values[(n, t)][before.reads()[k].id]) by {
            self.lemma_seen_grows(
                st,
                after,
                progress,
                n,
                before.reads()[k].id,
                self.view_point(n, t),
            );
        }
    }

    /// Statements that have new locals keep them.
    pub proof fn lemma_statements_grow(
        self,
        st: Numbering,
        after: Numbering,
        progress: Progress,
    )
        requires
            self.keeps_function(st),
            self.keeps_numbers(st),
            self.keeps_statements(st, progress),
            st.grows_to(after),
            progress_fits(self, st, progress),
        ensures
            self.keeps_statements(after, progress),
    {
        assert forall|n: u32, t: int|
            self.cfg.blocks.dom().contains(n) && 0 <= t < self.written(
                after,
                progress,
                n,
            ) implies #[trigger] self.is_written(after, n, t) by {
            assert(self.is_written(st, n, t));
            self.lemma_written_grows(st, after, n, t);
        }
        assert forall|n: u32, t: int|
            self.cfg.blocks.dom().contains(n) && 0 <= t < self.whole(
                after,
                progress,
                n,
            ) implies #[trigger] self.is_numbered(after, n, t) by {
            assert(self.is_numbered(st, n, t));
            self.lemma_numbered_grows(st, after, progress, n, t);
        }
    }
}

/// Whether the block at hand is one, and no more of it is done than there is.
pub open spec fn progress_fits(frame: Frame, st: Numbering, progress: Progress) -> bool {
    match progress.node {
        Some(n) => frame.cfg.blocks.dom().contains(n) && !st.filled.contains(n) && 0
            <= progress.whole <= progress.written <= frame.cfg.blocks[n].len(),
        None => true,
    }
}

impl Frame {
    /// What is known of a value as far as a block was gone through.
    pub proof fn lemma_current(
        self,
        st: Numbering,
        progress: Progress,
        pending: Set<(u32, u64)>,
        n: u32,
        local: u64,
    )
        requires
            self.is_valid(),
            self.holds(st, progress, pending),
            self.cfg.blocks.dom().contains(n),
            st.current.dom().contains((n, local)),
        ensures
            st.is_new(st.current[(n, local)]),
            st.old[st.current[(n, local)]] == local,
            st.made.dom().contains(st.current[(n, local)]),
            self.rank(st.made[st.current[(n, local)]]) < (self.place(n) + 1)
                * 0x1_0000_0000_0000_0000,
    {
        reveal(Frame::holds);
        let count = self.written(st, progress, n);
        let value = st.current[(n, local)];
        assert(found(st.current, (n, local)) == st.seen(n, local, count));
        let place = lemma_last_member(st.cfg.blocks[n], st.old, local, count);
        assert(st.cfg.blocks[n].len() == self.cfg.blocks[n].len());
        match last_before(st.cfg.blocks[n], st.old, local, count) {
            Some(id) => {
                assert(self.is_written(st, n, place.0));
                let targets = st.cfg.blocks[n][place.0].writes();
                assert(st.made[targets[place.1].id] == Origin::Written(n, place.0, place.1));
                assert(self.cfg.blocks[n].len() <= usize::MAX);
            },
            None => {
                assert(st.starts.dom().contains((n, local)));
                assert(self.is_start(st, n, local));
            },
        }
        assert(st.is_new(value));
    }

    proof fn lemma_start_grows(self, st: Numbering, after: Numbering, n: u32, local: u64)
        requires
            self.keeps_numbers(st),
            st.grows_to(after),
            st.starts.dom().contains((n, local)),
            self.is_start(st, n, local),
        ensures
            after.starts.dom().contains((n, local)),
            after.starts[(n, local)] == st.starts[(n, local)],
            self.is_start(after, n, local),
            after.made[st.starts[(n, local)]] == st.made[st.starts[(n, local)]],
    {
        let value = st.starts[(n, local)];
        assert(st.is_new(value));
        assert(st.old.dom().contains(value));
        assert(st.made.dom().contains(value));
    }

    proof fn lemma_settled_grows(self, st: Numbering, after: Numbering, n: u32, local: u64)
        requires
            self.keeps_numbers(st),
            self.keeps_function(st),
            self.keeps_function(after),
            st.grows_to(after),
            st.starts.dom().contains((n, local)),
            self.is_start(st, n, local),
            self.is_settled(st, n, local),
            self.is_unpassed(st, n, st.starts[(n, local)]) ==> self.is_unpassed(
                after,
                n,
                st.starts[(n, local)],
            ),
        ensures
            self.is_settled(after, n, local),
    {
        self.lemma_start_grows(st, after, n, local);
        let value = st.starts[(n, local)];
        if n == self.entry || !st.sealed.contains(n) {
            let j = choose|j: int|
                0 <= j < st.incomplete[n].len() && st.incomplete[n][j] == (local, value);
            assert(st.incomplete[n].is_prefix_of(after.incomplete[n]));
            assert(after.incomplete[n][j] == (local, value));
        } else {
            if self.passes(st, n, local, value) {
                assert forall|i: int|
                    0 <= i < after.cfg.edges.len() && (#[trigger] after.cfg.edges[i]).target
                        == n implies after.current.dom().contains(
                    (after.cfg.edges[i].source, local),
                ) && after.cfg.edges[i].arguments.contains(
                    (
                        RcLocal { id: value },
                        RValueView::Local(
                            RcLocal { id: after.current[(after.cfg.edges[i].source, local)] },
                        ),
                    ),
                ) by {
                    let edge = st.cfg.edges[i];
                    assert(is_joint(edge, self.cfg.edges[i]));
                    assert(is_joint(after.cfg.edges[i], self.cfg.edges[i]));
                    assert(st.current.dom().contains((edge.source, local)));
                    let argument = (
                        RcLocal { id: value },
                        RValueView::Local(RcLocal { id: st.current[(edge.source, local)] }),
                    );
                    let k = choose|k: int|
                        0 <= k < edge.arguments.len() && edge.arguments[k] == argument;
                    assert(edge.arguments.is_prefix_of(after.cfg.edges[i].arguments));
                    assert(after.cfg.edges[i].arguments[k] == argument);
                }
                assert(self.passes(after, n, local, value));
            }
        }
    }

    proof fn lemma_argument_grows(self, st: Numbering, after: Numbering, i: int, k: int)
        requires
            self.keeps_numbers(st),
            self.keeps_function(st),
            self.keeps_function(after),
            st.grows_to(after),
            0 <= i < st.cfg.edges.len(),
            0 <= k < st.cfg.edges[i].arguments.len(),
            self.is_argument(st, i, k),
        ensures
            k < after.cfg.edges[i].arguments.len(),
            after.cfg.edges[i].arguments[k] == st.cfg.edges[i].arguments[k],
            self.is_argument(after, i, k),
    {
        let edge = st.cfg.edges[i];
        assert(edge.arguments.is_prefix_of(after.cfg.edges[i].arguments));
        assert(is_joint(edge, self.cfg.edges[i]));
        assert(is_joint(after.cfg.edges[i], self.cfg.edges[i]));
        let parameter = edge.arguments[k].0.id;
        let value = edge.arguments[k].1->Local_0.id;
        assert(st.is_new(parameter) && st.is_new(value));
        assert(st.old.dom().contains(parameter) && st.old.dom().contains(value));
        assert(st.made.dom().contains(parameter) && st.made.dom().contains(value));
    }

    proof fn lemma_current_grows(
        self,
        st: Numbering,
        after: Numbering,
        progress: Progress,
        n: u32,
        local: u64,
        value: u64,
    )
        requires
            self.keeps_function(st),
            self.keeps_statements(st, progress),
            self.keeps_current(st, progress),
            progress_fits(self, st, progress),
            st.grows_to(after),
            self.cfg.blocks.dom().contains(n),
            !st.current.dom().contains((n, local)),
            after.starts == st.starts.insert((n, local), value),
            after.current == st.current.insert((n, local), value),
        ensures
            self.keeps_current(after, progress),
    {
        assert forall|m: u32, other: u64| self.cfg.blocks.dom().contains(m) implies
            #[trigger] found(after.current, (m, other)) == after.seen(
            m,
            other,
            self.written(after, progress, m),
        ) by {
            let count = self.written(st, progress, m);
            assert(found(st.current, (m, other)) == st.seen(m, other, count));
            assert(st.cfg.blocks[m].len() == self.cfg.blocks[m].len());
            self.lemma_seen_grows(st, after, progress, m, other, count);
        }
    }

    /// A new local for the value of a local at the start of a block.
    pub proof fn lemma_new_start(
        self,
        st: Numbering,
        after: Numbering,
        progress: Progress,
        pending: Set<(u32, u64)>,
        n: u32,
        local: u64,
        value: u64,
    )
        requires
            self.is_valid(),
            self.holds(st, progress, pending),
            self.cfg.blocks.dom().contains(n),
            self.is_old(local),
            !st.current.dom().contains((n, local)),
            value == st.count,
            after.cfg == (CfgView {
                bindings: after.cfg.bindings,
                provenance: after.cfg.provenance,
                ..st.cfg
            }),
            st.cfg.bindings.dom().insert(value).subset_of(after.cfg.bindings.dom()),
            after == (Numbering {
                cfg: after.cfg,
                starts: st.starts.insert((n, local), value),
                current: st.current.insert((n, local), value),
                old: st.old.insert(value, local),
                made: st.made.insert(value, Origin::Start(n, local)),
                incomplete: after.incomplete,
                count: st.count + 1,
                ..st
            }),
            if st.sealed.contains(n) {
                after.incomplete == st.incomplete
            } else {
                after.incomplete == st.incomplete.insert(
                    n,
                    (if st.incomplete.dom().contains(n) {
                        st.incomplete[n]
                    } else {
                        Seq::empty()
                    }).push((local, value)),
                )
            },
        ensures
            st.grows_to(after),
            self.holds(
                after,
                progress,
                if st.sealed.contains(n) {
                    pending.insert((n, local))
                } else {
                    pending
                },
            ),
    {
        reveal(Frame::holds);
        assert(!st.is_new(value));
        let count = self.written(st, progress, n);
        assert(found(st.current, (n, local)) == st.seen(n, local, count));
        assert(!st.starts.dom().contains((n, local)));
        lemma_grows_self(st);
        assert forall|m: u32| #[trigger] st.incomplete.dom().contains(m) implies
            after.incomplete.dom().contains(m) && st.incomplete[m].is_prefix_of(
            after.incomplete[m],
        ) by {
            assert(st.incomplete[m] =~= after.incomplete[m].subrange(
                0,
                st.incomplete[m].len() as int,
            ));
        }
        assert(st.grows_to(after));
        assert(self.keeps_function(after));
        assert forall|id: u64| #[trigger] after.is_new(id) implies self.base <= id < after.count
            && after.cfg.bindings.dom().contains(id) && self.is_old(after.old[id])
            && after.made.dom().contains(id) by {
            if id != value {
                assert(st.is_new(id));
            }
        }
        assert(after.made.dom() =~= after.old.dom());
        assert(self.keeps_numbers(after));
        self.lemma_statements_grow(st, after, progress);
        self.lemma_current_grows(st, after, progress, n, local, value);
        self.lemma_arguments_stay(st, after);
        self.lemma_starts_stay(st, after, pending, n, local, value);
    }

    proof fn lemma_numbers_stay(self, st: Numbering, after: Numbering)
        requires
            self.keeps_numbers(st),
            after.old == st.old,
            after.made == st.made,
            st.count <= after.count,
            st.cfg.bindings.dom().subset_of(after.cfg.bindings.dom()),
        ensures
            self.keeps_numbers(after),
    {
        assert forall|id: u64| #[trigger] after.is_new(id) implies self.base <= id < after.count
            && after.cfg.bindings.dom().contains(id) && self.is_old(after.old[id])
            && after.made.dom().contains(id) by {
            assert(st.is_new(id));
        }
    }

    proof fn lemma_arguments_stay(self, st: Numbering, after: Numbering)
        requires
            self.keeps_numbers(st),
            self.keeps_function(st),
            self.keeps_function(after),
            self.keeps_arguments(st),
            st.grows_to(after),
            after.cfg.edges == st.cfg.edges,
        ensures
            self.keeps_arguments(after),
    {
        assert forall|i: int, k: int|
            0 <= i < after.cfg.edges.len() && 0 <= k < after.cfg.edges[i].arguments.len() implies
            #[trigger] self.is_argument(after, i, k) by {
            assert(self.is_argument(st, i, k));
            self.lemma_argument_grows(st, after, i, k);
        }
    }

    proof fn lemma_starts_stay(
        self,
        st: Numbering,
        after: Numbering,
        pending: Set<(u32, u64)>,
        n: u32,
        local: u64,
        value: u64,
    )
        requires
            self.keeps_numbers(st),
            self.keeps_function(st),
            self.keeps_function(after),
            self.keeps_starts(st, pending),
            self.keeps_arguments(st),
            self.keeps_sealed(st),
            st.grows_to(after),
            after.cfg.edges == st.cfg.edges,
            self.cfg.blocks.dom().contains(n),
            self.is_old(local),
            !st.starts.dom().contains((n, local)),
            value == st.count,
            after.starts == st.starts.insert((n, local), value),
            after.old == st.old.insert(value, local),
            after.made == st.made.insert(value, Origin::Start(n, local)),
            after.sealed == st.sealed,
            if st.sealed.contains(n) {
                after.incomplete == st.incomplete
            } else {
                after.incomplete == st.incomplete.insert(
                    n,
                    (if st.incomplete.dom().contains(n) {
                        st.incomplete[n]
                    } else {
                        Seq::empty()
                    }).push((local, value)),
                )
            },
        ensures
            self.keeps_starts(
                after,
                if st.sealed.contains(n) {
                    pending.insert((n, local))
                } else {
                    pending
                },
            ),
            self.keeps_sealed(after),
    {
        let open = if st.sealed.contains(n) {
            pending.insert((n, local))
        } else {
            pending
        };
        assert(!st.is_new(value));
        assert(after.is_new(value));
        assert(self.is_unpassed(after, n, value)) by {
            assert forall|i: int, k: int|
                0 <= i < after.cfg.edges.len() && 0 <= k < after.cfg.edges[i].arguments.len()
                    && after.cfg.edges[i].target == n implies (
            #[trigger] after.cfg.edges[i].arguments[k]).0.id != value by {
                assert(self.is_argument(st, i, k));
            }
        }
        assert forall|m: u32, other: u64| #[trigger]
            after.starts.dom().contains((m, other)) implies self.is_start(after, m, other) by {
            if (m, other) != (n, local) {
                assert(st.starts.dom().contains((m, other)));
                self.lemma_start_grows(st, after, m, other);
            }
        }
        assert forall|m: u32, other: u64| #[trigger]
            after.starts.dom().contains((m, other)) && !open.contains(
                (m, other),
            ) implies self.is_settled(after, m, other) by {
            if (m, other) != (n, local) {
                assert(st.starts.dom().contains((m, other)));
                self.lemma_settled_grows(st, after, m, other);
            } else {
                let list = after.incomplete[n];
                assert(list[list.len() - 1] == (local, value));
            }
        }
        assert forall|m: u32, other: u64| #[trigger] open.contains((m, other)) implies
            after.starts.dom().contains((m, other)) && self.is_pending(after, m, other) by {
            if (m, other) != (n, local) {
                assert(pending.contains((m, other)));
                self.lemma_start_grows(st, after, m, other);
                assert(self.is_pending(st, m, other));
            }
        }
        assert forall|m: u32, j: int|
            after.incomplete.dom().contains(m) && 0 <= j < after.incomplete[m].len() implies found(
            after.starts,
            (m, (#[trigger] after.incomplete[m][j]).0),
        ) == Some(after.incomplete[m][j].1) by {
            if m == n && !st.sealed.contains(n) && j == after.incomplete[n].len() - 1 {
            } else {
                assert(st.incomplete.dom().contains(m));
                assert(found(st.starts, (m, st.incomplete[m][j].0)) == Some(
                    st.incomplete[m][j].1,
                ));
            }
        }
        assert forall|m: u32, i: int, j: int|
            after.incomplete.dom().contains(m) && 0 <= i < j < after.incomplete[m].len() implies (
        #[trigger] after.incomplete[m][i]).0 != (#[trigger] after.incomplete[m][j]).0 by {
            assert(st.incomplete.dom().contains(m));
            if m == n && !st.sealed.contains(n) && j == after.incomplete[n].len() - 1 {
                assert(found(st.starts, (m, st.incomplete[m][i].0)) == Some(
                    st.incomplete[m][i].1,
                ));
            } else {
                assert(st.incomplete[m][i].0 != st.incomplete[m][j].0);
            }
        }
    }

    /// A block with one edge into it takes a value over.
    pub proof fn lemma_taken_over(
        self,
        st: Numbering,
        after: Numbering,
        progress: Progress,
        pending: Set<(u32, u64)>,
        n: u32,
        local: u64,
        value: u64,
    )
        requires
            self.is_valid(),
            self.holds(st, progress, pending),
            self.cfg.blocks.dom().contains(n),
            n != self.entry,
            self.is_old(local),
            st.sealed.contains(n),
            !st.current.dom().contains((n, local)),
            self.takes_over(st, n, local, value),
            after == (Numbering {
                starts: st.starts.insert((n, local), value),
                current: st.current.insert((n, local), value),
                ..st
            }),
        ensures
            st.grows_to(after),
            self.holds(after, progress, pending),
    {
        let count = self.written(st, progress, n);
        let entering = EdgeView::entering(self.cfg.edges, n);
        let source = entering[0].source;
        EdgeView::entering_edges(self.cfg.edges, n, entering[0]);
        assert(entering.contains(entering[0]));
        let e = choose|e: int| 0 <= e < self.cfg.edges.len() && self.cfg.edges[e] == entering[0];
        assert(self.cfg.blocks.dom().contains(self.cfg.edges[e].source));
        self.lemma_current(st, progress, pending, source, local);
        self.lemma_source_before(n, source);
        reveal(Frame::holds);
        assert(found(st.current, (n, local)) == st.seen(n, local, count));
        assert(!st.starts.dom().contains((n, local)));
        lemma_grows_self(st);
        assert(st.grows_to(after));
        self.lemma_numbers_stay(st, after);
        self.lemma_statements_grow(st, after, progress);
        self.lemma_current_grows(st, after, progress, n, local, value);
        self.lemma_arguments_stay(st, after);
        assert forall|m: u32, other: u64| #[trigger]
            after.starts.dom().contains((m, other)) implies self.is_start(after, m, other) by {
            if (m, other) != (n, local) {
                assert(st.starts.dom().contains((m, other)));
                self.lemma_start_grows(st, after, m, other);
            }
        }
        assert forall|m: u32, other: u64| #[trigger]
            after.starts.dom().contains((m, other)) && !pending.contains(
                (m, other),
            ) implies self.is_settled(after, m, other) by {
            if (m, other) != (n, local) {
                assert(st.starts.dom().contains((m, other)));
                self.lemma_settled_grows(st, after, m, other);
            } else {
                assert(after.current[(source, local)] == value);
            }
        }
        assert forall|m: u32, other: u64| #[trigger] pending.contains((m, other)) implies
            after.starts.dom().contains((m, other)) && self.is_pending(after, m, other) by {
            self.lemma_start_grows(st, after, m, other);
        }
        assert forall|m: u32, j: int|
            after.incomplete.dom().contains(m) && 0 <= j < after.incomplete[m].len() implies found(
            after.starts,
            (m, (#[trigger] after.incomplete[m][j]).0),
        ) == Some(after.incomplete[m][j].1) by {
            assert(found(st.starts, (m, st.incomplete[m][j].0)) == Some(st.incomplete[m][j].1));
        }
    }

    /// The only block that leads to another comes before it on the walk.
    pub proof fn lemma_source_before(self, n: u32, source: u32)
        requires
            self.is_valid(),
            self.cfg.blocks.dom().contains(n),
            n != self.entry,
            EdgeView::entering(self.cfg.edges, n).len() == 1,
            EdgeView::entering(self.cfg.edges, n)[0].source == source,
        ensures
            self.place(source) < self.place(n),
            0 <= self.place(source),
    {
        let entering = EdgeView::entering(self.cfg.edges, n);
        self.lemma_placed(n);
        let j = self.place(n);
        assert(self.walk[0] == self.entry);
        assert(j != 0);
        assert(graph::follows_earlier(EdgeView::arcs(self.cfg.edges), self.walk, j));
        let i = choose|i: int|
            0 <= i < j && EdgeView::arcs(self.cfg.edges).contains(
                (#[trigger] self.walk[i], self.walk[j]),
            );
        let e = choose|e: int|
            0 <= e < self.cfg.edges.len() && (#[trigger] self.cfg.edges[e]).source == self.walk[i]
                && self.cfg.edges[e].target == n;
        EdgeView::entering_edges(self.cfg.edges, n, self.cfg.edges[e]);
        assert(self.cfg.edges.contains(self.cfg.edges[e]));
        assert(entering.contains(self.cfg.edges[e]));
        assert(entering[0] == self.cfg.edges[e]);
        self.lemma_place(i);
    }

    /// The edges into a block pass a value.
    pub proof fn lemma_passed(
        self,
        st: Numbering,
        after: Numbering,
        progress: Progress,
        pending: Set<(u32, u64)>,
        n: u32,
        local: u64,
        value: u64,
    )
        requires
            self.is_valid(),
            self.holds(st, progress, pending),
            pending.contains((n, local)),
            n != self.entry,
            st.sealed.contains(n),
            st.starts[(n, local)] == value,
            forall|i: int|
                0 <= i < self.cfg.edges.len() && (#[trigger] self.cfg.edges[i]).target == n
                    ==> st.current.dom().contains((self.cfg.edges[i].source, local)),
            after == (Numbering { cfg: after.cfg, ..st }),
            after.cfg == (CfgView { edges: after.cfg.edges, ..st.cfg }),
            after.cfg.edges.len() == st.cfg.edges.len(),
            forall|i: int|
                0 <= i < st.cfg.edges.len() ==> #[trigger] after.cfg.edges[i] == (
                if st.cfg.edges[i].target == n {
                    with_argument(
                        st.cfg.edges[i],
                        value,
                        st.current[(st.cfg.edges[i].source, local)],
                    )
                } else {
                    st.cfg.edges[i]
                }),
        ensures
            st.grows_to(after),
            self.holds(after, progress, pending.remove((n, local))),
    {
        assert forall|i: int|
            0 <= i < self.cfg.edges.len() && (#[trigger] self.cfg.edges[i]).target
                == n implies ({
            let x = st.current[(self.cfg.edges[i].source, local)];
            &&& st.is_new(x)
            &&& st.old[x] == local
            &&& self.rank(st.made[x]) < (self.place(self.cfg.edges[i].source) + 1)
                * 0x1_0000_0000_0000_0000
        }) by {
            assert(self.cfg.blocks.dom().contains(self.cfg.edges[i].source));
            self.lemma_current(st, progress, pending, self.cfg.edges[i].source, local);
        }
        reveal(Frame::holds);
        lemma_grows_self(st);
        assert forall|i: int| 0 <= i < st.cfg.edges.len() implies (
        #[trigger] st.cfg.edges[i]).arguments.is_prefix_of(after.cfg.edges[i].arguments) by {
            let x = st.cfg.edges[i].arguments;
            assert(after.cfg.edges[i].arguments.len() >= x.len());
            assert(x =~= after.cfg.edges[i].arguments.subrange(0, x.len() as int));
        }
        assert(st.grows_to(after));
        assert forall|i: int| 0 <= i < after.cfg.edges.len() implies is_joint(
            #[trigger] after.cfg.edges[i],
            self.cfg.edges[i],
        ) by {
            assert(is_joint(st.cfg.edges[i], self.cfg.edges[i]));
        }
        assert(self.keeps_function(after));
        self.lemma_numbers_stay(st, after);
        self.lemma_statements_grow(st, after, progress);
        assert(self.keeps_current(after, progress)) by {
            assert forall|m: u32, other: u64| self.cfg.blocks.dom().contains(m) implies
                #[trigger] found(after.current, (m, other)) == after.seen(
                m,
                other,
                self.written(after, progress, m),
            ) by {
                assert(found(st.current, (m, other)) == st.seen(
                    m,
                    other,
                    self.written(st, progress, m),
                ));
            }
        }
        self.lemma_passed_arguments(st, after, n, local, value);
        self.lemma_passed_starts(st, after, pending, n, local, value);
    }

    proof fn lemma_passed_arguments(
        self,
        st: Numbering,
        after: Numbering,
        n: u32,
        local: u64,
        value: u64,
    )
        requires
            self.keeps_numbers(st),
            self.keeps_function(st),
            self.keeps_function(after),
            self.keeps_arguments(st),
            st.grows_to(after),
            st.is_new(value),
            st.old[value] == local,
            st.made[value] == Origin::Start(n, local),
            self.is_unpassed(st, n, value),
            after == (Numbering { cfg: after.cfg, ..st }),
            after.cfg.edges.len() == st.cfg.edges.len(),
            forall|i: int|
                0 <= i < self.cfg.edges.len() && (#[trigger] self.cfg.edges[i]).target == n ==> ({
                    let x = st.current[(self.cfg.edges[i].source, local)];
                    &&& st.is_new(x)
                    &&& st.old[x] == local
                    &&& self.rank(st.made[x]) < (self.place(self.cfg.edges[i].source) + 1)
                        * 0x1_0000_0000_0000_0000
                }),
            forall|i: int|
                0 <= i < st.cfg.edges.len() ==> #[trigger] after.cfg.edges[i] == (
                if st.cfg.edges[i].target == n {
                    with_argument(
                        st.cfg.edges[i],
                        value,
                        st.current[(st.cfg.edges[i].source, local)],
                    )
                } else {
                    st.cfg.edges[i]
                }),
        ensures
            self.keeps_arguments(after),
    {
        assert forall|i: int, k: int|
            0 <= i < after.cfg.edges.len() && 0 <= k < after.cfg.edges[i].arguments.len() implies
            #[trigger] self.is_argument(after, i, k) by {
            assert(is_joint(st.cfg.edges[i], self.cfg.edges[i]));
            if k < st.cfg.edges[i].arguments.len() {
                assert(self.is_argument(st, i, k));
                self.lemma_argument_grows(st, after, i, k);
            } else {
                assert(self.cfg.edges[i].target == n);
            }
        }
        assert forall|i: int| 0 <= i < after.cfg.edges.len() implies parameters_of(
            #[trigger] after.cfg.edges[i],
        ) == (if st.cfg.edges[i].target == n {
            parameters_of(st.cfg.edges[i]).push(RcLocal { id: value })
        } else {
            parameters_of(st.cfg.edges[i])
        }) by {
            if st.cfg.edges[i].target == n {
                assert(parameters_of(after.cfg.edges[i]) =~= parameters_of(
                    st.cfg.edges[i],
                ).push(RcLocal { id: value }));
            }
        }
        assert forall|i: int, j: int|
            0 <= i < after.cfg.edges.len() && 0 <= j < after.cfg.edges.len() && (
            #[trigger] after.cfg.edges[i]).target == (
            #[trigger] after.cfg.edges[j]).target implies parameters_of(after.cfg.edges[i])
            == parameters_of(after.cfg.edges[j]) by {
            assert(st.cfg.edges[i].target == st.cfg.edges[j].target);
            assert(parameters_of(st.cfg.edges[i]) == parameters_of(st.cfg.edges[j]));
        }
        assert forall|i: int| 0 <= i < after.cfg.edges.len() implies parameters_of(
            #[trigger] after.cfg.edges[i],
        ).no_duplicates() by {
            let held = parameters_of(st.cfg.edges[i]);
            assert(held.no_duplicates());
            if st.cfg.edges[i].target == n {
                assert forall|k: int| 0 <= k < held.len() implies held[k] != (RcLocal {
                    id: value,
                }) by {
                    assert(held[k] == st.cfg.edges[i].arguments[k].0);
                }
            }
        }
    }

    proof fn lemma_passed_starts(
        self,
        st: Numbering,
        after: Numbering,
        pending: Set<(u32, u64)>,
        n: u32,
        local: u64,
        value: u64,
    )
        requires
            self.keeps_numbers(st),
            self.keeps_function(st),
            self.keeps_function(after),
            self.keeps_starts(st, pending),
            st.grows_to(after),
            pending.contains((n, local)),
            n != self.entry,
            st.sealed.contains(n),
            st.starts[(n, local)] == value,
            forall|i: int|
                0 <= i < self.cfg.edges.len() && (#[trigger] self.cfg.edges[i]).target == n
                    ==> st.current.dom().contains((self.cfg.edges[i].source, local)),
            after == (Numbering { cfg: after.cfg, ..st }),
            after.cfg.edges.len() == st.cfg.edges.len(),
            forall|i: int|
                0 <= i < st.cfg.edges.len() ==> #[trigger] after.cfg.edges[i] == (
                if st.cfg.edges[i].target == n {
                    with_argument(
                        st.cfg.edges[i],
                        value,
                        st.current[(st.cfg.edges[i].source, local)],
                    )
                } else {
                    st.cfg.edges[i]
                }),
        ensures
            self.keeps_starts(after, pending.remove((n, local))),
    {
        let rest = pending.remove((n, local));
        assert(self.is_pending(st, n, local));
        assert forall|m: u32, other: u64| #[trigger]
            after.starts.dom().contains((m, other)) implies self.is_start(after, m, other) by {
            self.lemma_start_grows(st, after, m, other);
        }
        assert forall|m: u32, other: u64|
            st.starts.dom().contains((m, other)) && (m, other) != (n, local)
                && st.made[st.starts[(m, other)]] == Origin::Start(m, other) && #[trigger]
            self.is_unpassed(st, m, st.starts[(m, other)]) implies self.is_unpassed(
            after,
            m,
            st.starts[(m, other)],
        ) by {
            let kept = st.starts[(m, other)];
            assert(kept != value);
            assert forall|i: int, k: int|
                0 <= i < after.cfg.edges.len() && 0 <= k < after.cfg.edges[i].arguments.len()
                    && after.cfg.edges[i].target == m implies (
            #[trigger] after.cfg.edges[i].arguments[k]).0.id != kept by {
                if k < st.cfg.edges[i].arguments.len() {
                    assert(st.cfg.edges[i].arguments[k].0.id != kept);
                    assert(after.cfg.edges[i].arguments[k] == st.cfg.edges[i].arguments[k]);
                }
            }
        }
        assert forall|m: u32, other: u64| #[trigger]
            after.starts.dom().contains((m, other)) && !rest.contains(
                (m, other),
            ) implies self.is_settled(after, m, other) by {
            if (m, other) != (n, local) {
                assert(st.starts.dom().contains((m, other)));
                if m == self.entry || !st.sealed.contains(m) {
                    assert(self.is_unpassed(st, m, st.starts[(m, other)]));
                    self.lemma_settled_grows(st, after, m, other);
                } else {
                    self.lemma_settled_sealed(st, after, m, other);
                }
            } else {
                assert forall|i: int|
                    0 <= i < after.cfg.edges.len() && (#[trigger] after.cfg.edges[i]).target
                        == n implies after.current.dom().contains(
                    (after.cfg.edges[i].source, local),
                ) && after.cfg.edges[i].arguments.contains(
                    (
                        RcLocal { id: value },
                        RValueView::Local(
                            RcLocal { id: after.current[(after.cfg.edges[i].source, local)] },
                        ),
                    ),
                ) by {
                    assert(is_joint(st.cfg.edges[i], self.cfg.edges[i]));
                    let list = after.cfg.edges[i].arguments;
                    assert(list[list.len() - 1] == (
                        RcLocal { id: value },
                        RValueView::Local(
                            RcLocal { id: st.current[(st.cfg.edges[i].source, local)] },
                        ),
                    ));
                }
                assert(self.passes(after, n, local, value));
            }
        }
        assert forall|m: u32, other: u64| #[trigger] rest.contains((m, other)) implies
            after.starts.dom().contains((m, other)) && self.is_pending(after, m, other) by {
            assert(pending.contains((m, other)));
            assert(self.is_pending(st, m, other));
            assert(self.is_unpassed(st, m, st.starts[(m, other)]));
        }
    }

    proof fn lemma_settled_sealed(self, st: Numbering, after: Numbering, n: u32, local: u64)
        requires
            self.keeps_numbers(st),
            self.keeps_function(st),
            self.keeps_function(after),
            st.grows_to(after),
            st.starts.dom().contains((n, local)),
            self.is_start(st, n, local),
            self.is_settled(st, n, local),
            n != self.entry,
            st.sealed.contains(n),
        ensures
            self.is_settled(after, n, local),
    {
        self.lemma_start_grows(st, after, n, local);
        let value = st.starts[(n, local)];
        if self.passes(st, n, local, value) {
            assert forall|i: int|
                0 <= i < after.cfg.edges.len() && (#[trigger] after.cfg.edges[i]).target
                    == n implies after.current.dom().contains((after.cfg.edges[i].source, local))
                && after.cfg.edges[i].arguments.contains(
                (
                    RcLocal { id: value },
                    RValueView::Local(
                        RcLocal { id: after.current[(after.cfg.edges[i].source, local)] },
                    ),
                ),
            ) by {
                let edge = st.cfg.edges[i];
                assert(is_joint(edge, self.cfg.edges[i]));
                assert(is_joint(after.cfg.edges[i], self.cfg.edges[i]));
                assert(st.current.dom().contains((edge.source, local)));
                let argument = (
                    RcLocal { id: value },
                    RValueView::Local(RcLocal { id: st.current[(edge.source, local)] }),
                );
                let k = choose|k: int|
                    0 <= k < edge.arguments.len() && edge.arguments[k] == argument;
                assert(edge.arguments.is_prefix_of(after.cfg.edges[i].arguments));
                assert(after.cfg.edges[i].arguments[k] == argument);
            }
            assert(self.passes(after, n, local, value));
        }
    }
}

/// An edge that passes one more value.
pub open spec fn with_argument(edge: EdgeView, parameter: u64, value: u64) -> EdgeView {
    EdgeView {
        arguments: edge.arguments.push(
            (RcLocal { id: parameter }, RValueView::Local(RcLocal { id: value })),
        ),
        ..edge
    }
}

/// The old locals, with those of the first `count` new targets.
pub open spec fn with_old(
    old: Map<u64, u64>,
    targets: Seq<RcLocal>,
    before: Seq<RcLocal>,
    count: int,
) -> Map<u64, u64>
    decreases count,
{
    if count <= 0 {
        old
    } else {
        with_old(old, targets, before, count - 1).insert(
            targets[count - 1].id,
            before[count - 1].id,
        )
    }
}

/// What locals were made for, with the first `count` new targets.
pub open spec fn with_made(
    made: Map<u64, Origin>,
    n: u32,
    t: int,
    targets: Seq<RcLocal>,
    count: int,
) -> Map<u64, Origin>
    decreases count,
{
    if count <= 0 {
        made
    } else {
        with_made(made, n, t, targets, count - 1).insert(
            targets[count - 1].id,
            Origin::Written(n, t, count - 1),
        )
    }
}

/// The values as far as a block was gone through, with the first `count` new
/// targets.
pub open spec fn with_targets(
    current: Map<(u32, u64), u64>,
    n: u32,
    targets: Seq<RcLocal>,
    before: Seq<RcLocal>,
    count: int,
) -> Map<(u32, u64), u64>
    decreases count,
{
    if count <= 0 {
        current
    } else {
        with_targets(current, n, targets, before, count - 1).insert(
            (n, before[count - 1].id),
            targets[count - 1].id,
        )
    }
}

/// Whether targets are the locals that come next.
pub open spec fn come_next(targets: Seq<RcLocal>, count: nat) -> bool {
    forall|k: int| 0 <= k < targets.len() ==> (#[trigger] targets[k]).id == count + k
}

proof fn lemma_with_old(
    old: Map<u64, u64>,
    targets: Seq<RcLocal>,
    before: Seq<RcLocal>,
    first: nat,
    count: int,
)
    requires
        0 <= count <= targets.len(),
        targets.len() == before.len(),
        come_next(targets, first),
    ensures
        forall|k: int|
            0 <= k < count ==> with_old(old, targets, before, count).dom().contains(
                (#[trigger] targets[k]).id,
            ) && with_old(old, targets, before, count)[targets[k].id] == before[k].id,
        forall|id: u64|
            !(first <= id < first + count) ==> (#[trigger] with_old(
                old,
                targets,
                before,
                count,
            ).dom().contains(id) == old.dom().contains(id)) && with_old(
                old,
                targets,
                before,
                count,
            )[id] == old[id],
        forall|id: u64|
            first <= id < first + count ==> #[trigger] with_old(
                old,
                targets,
                before,
                count,
            ).dom().contains(id),
    decreases count,
{
    if count > 0 {
        lemma_with_old(old, targets, before, first, count - 1);
        let held = with_old(old, targets, before, count - 1);
        let after = with_old(old, targets, before, count);
        assert(targets[count - 1].id == first + (count - 1));
        assert(after == held.insert(targets[count - 1].id, before[count - 1].id));
        assert forall|id: u64| !(first <= id < first + count) implies (
        #[trigger] after.dom().contains(id) == old.dom().contains(id)) && after[id]
            == old[id] by {
            assert(held.dom().contains(id) == old.dom().contains(id));
        }
        assert forall|id: u64| first <= id < first + count implies
            #[trigger] after.dom().contains(id) by {
            if id < first + count - 1 {
                assert(held.dom().contains(id));
            }
        }
        assert forall|k: int| 0 <= k < count implies with_old(
            old,
            targets,
            before,
            count,
        ).dom().contains((#[trigger] targets[k]).id) && with_old(
            old,
            targets,
            before,
            count,
        )[targets[k].id] == before[k].id by {
            assert(targets[k].id == first + k);
        }
    }
}

proof fn lemma_with_made(
    made: Map<u64, Origin>,
    n: u32,
    t: int,
    targets: Seq<RcLocal>,
    first: nat,
    count: int,
)
    requires
        0 <= count <= targets.len(),
        come_next(targets, first),
    ensures
        forall|k: int|
            0 <= k < count ==> with_made(made, n, t, targets, count).dom().contains(
                (#[trigger] targets[k]).id,
            ) && with_made(made, n, t, targets, count)[targets[k].id] == Origin::Written(n, t, k),
        forall|id: u64|
            !(first <= id < first + count) ==> (#[trigger] with_made(
                made,
                n,
                t,
                targets,
                count,
            ).dom().contains(id) == made.dom().contains(id)) && with_made(
                made,
                n,
                t,
                targets,
                count,
            )[id] == made[id],
        forall|id: u64|
            first <= id < first + count ==> #[trigger] with_made(
                made,
                n,
                t,
                targets,
                count,
            ).dom().contains(id),
    decreases count,
{
    if count > 0 {
        lemma_with_made(made, n, t, targets, first, count - 1);
        assert(targets[count - 1].id == first + (count - 1));
        assert forall|k: int| 0 <= k < count implies with_made(
            made,
            n,
            t,
            targets,
            count,
        ).dom().contains((#[trigger] targets[k]).id) && with_made(
            made,
            n,
            t,
            targets,
            count,
        )[targets[k].id] == Origin::Written(n, t, k) by {
            assert(targets[k].id == first + k);
        }
    }
}

proof fn lemma_with_targets(
    current: Map<(u32, u64), u64>,
    n: u32,
    targets: Seq<RcLocal>,
    before: Seq<RcLocal>,
    old: Map<u64, u64>,
    count: int,
)
    requires
        0 <= count <= targets.len(),
        targets.len() == before.len(),
        forall|k: int|
            0 <= k < targets.len() ==> old.dom().contains((#[trigger] targets[k]).id)
                && old[targets[k].id] == before[k].id,
    ensures
        forall|local: u64| #[trigger]
            found(with_targets(current, n, targets, before, count), (n, local)) == (match last_in(
                targets,
                old,
                local,
                count,
            ) {
                Some(id) => Some(id),
                None => found(current, (n, local)),
            }),
        forall|m: u32, local: u64|
            m != n ==> #[trigger] found(
                with_targets(current, n, targets, before, count),
                (m, local),
            ) == found(current, (m, local)),
        forall|key: (u32, u64)| #[trigger]
            current.dom().contains(key) ==> with_targets(
                current,
                n,
                targets,
                before,
                count,
            ).dom().contains(key),
    decreases count,
{
    if count > 0 {
        lemma_with_targets(current, n, targets, before, old, count - 1);
        let held = with_targets(current, n, targets, before, count - 1);
        let after = with_targets(current, n, targets, before, count);
        assert(old[targets[count - 1].id] == before[count - 1].id);
        assert forall|local: u64| #[trigger] found(after, (n, local)) == (match last_in(
            targets,
            old,
            local,
            count,
        ) {
            Some(id) => Some(id),
            None => found(current, (n, local)),
        }) by {
            assert(found(held, (n, local)) == (match last_in(targets, old, local, count - 1) {
                Some(id) => Some(id),
                None => found(current, (n, local)),
            }));
        }
        assert forall|m: u32, local: u64| m != n implies #[trigger] found(after, (m, local))
            == found(current, (m, local)) by {
            assert(found(held, (m, local)) == found(current, (m, local)));
        }
    }
}

impl Frame {
    /// More that is known of locals changes nothing.
    pub proof fn lemma_known_more(
        self,
        st: Numbering,
        after: Numbering,
        progress: Progress,
        pending: Set<(u32, u64)>,
    )
        requires
            self.holds(st, progress, pending),
            after == (Numbering { cfg: after.cfg, ..st }),
            after.cfg == (CfgView {
                bindings: after.cfg.bindings,
                provenance: after.cfg.provenance,
                ..st.cfg
            }),
            st.cfg.bindings.dom().subset_of(after.cfg.bindings.dom()),
        ensures
            st.grows_to(after),
            self.holds(after, progress, pending),
    {
        reveal(Frame::holds);
        lemma_grows_self(st);
        assert(st.grows_to(after));
        assert(self.keeps_function(after));
        self.lemma_numbers_stay(st, after);
        self.lemma_statements_grow(st, after, progress);
        assert(self.keeps_current(after, progress)) by {
            assert forall|m: u32, other: u64| self.cfg.blocks.dom().contains(m) implies
                #[trigger] found(after.current, (m, other)) == after.seen(
                m,
                other,
                self.written(after, progress, m),
            ) by {
                assert(found(st.current, (m, other)) == st.seen(
                    m,
                    other,
                    self.written(st, progress, m),
                ));
            }
        }
        self.lemma_arguments_stay(st, after);
        self.lemma_starts_same(st, after, pending);
    }

    proof fn lemma_starts_same(
        self,
        st: Numbering,
        after: Numbering,
        pending: Set<(u32, u64)>,
    )
        requires
            self.keeps_numbers(st),
            self.keeps_function(st),
            self.keeps_function(after),
            self.keeps_starts(st, pending),
            st.grows_to(after),
            after.cfg.edges == st.cfg.edges,
            after.starts == st.starts,
            after.incomplete == st.incomplete,
        ensures
            self.keeps_starts(after, pending),
    {
        assert forall|m: u32, other: u64| #[trigger]
            after.starts.dom().contains((m, other)) implies self.is_start(after, m, other) by {
            self.lemma_start_grows(st, after, m, other);
        }
        assert forall|m: u32, other: u64| #[trigger]
            after.starts.dom().contains((m, other)) && !pending.contains(
                (m, other),
            ) implies self.is_settled(after, m, other) by {
            self.lemma_settled_grows(st, after, m, other);
        }
        assert forall|m: u32, other: u64| #[trigger] pending.contains((m, other)) implies
            after.starts.dom().contains((m, other)) && self.is_pending(after, m, other) by {
            self.lemma_start_grows(st, after, m, other);
        }
    }

    /// A block gets every value from blocks that were gone through: the values
    /// at its start are about to be passed.
    pub proof fn lemma_sealed(
        self,
        st: Numbering,
        after: Numbering,
        progress: Progress,
        n: u32,
        list: Seq<(u64, u64)>,
        pending: Set<(u32, u64)>,
    )
        requires
            self.is_valid(),
            self.holds(st, progress, Set::empty()),
            self.cfg.blocks.dom().contains(n),
            n != self.entry,
            !st.sealed.contains(n),
            forall|i: int|
                0 <= i < self.cfg.edges.len() && (#[trigger] self.cfg.edges[i]).target == n
                    ==> st.filled.contains(self.cfg.edges[i].source),
            after == (Numbering {
                sealed: st.sealed.insert(n),
                sealed_at: st.sealed_at.insert(n, st.count),
                incomplete: st.incomplete.remove(n),
                ..st
            }),
            list == (if st.incomplete.dom().contains(n) {
                st.incomplete[n]
            } else {
                Seq::empty()
            }),
            forall|m: u32, local: u64|
                pending.contains((m, local)) <==> m == n && !self.upvalues.contains(local)
                    && exists|j: int| 0 <= j < list.len() && (#[trigger] list[j]).0 == local,
        ensures
            self.holds(after, progress, pending),
            forall|j: int|
                0 <= j < list.len() ==> found(after.starts, (n, (#[trigger] list[j]).0)) == Some(
                    list[j].1,
                ) && self.is_old(list[j].0),
            forall|i: int, j: int|
                0 <= i < j < list.len() ==> (#[trigger] list[i]).0 != (#[trigger] list[j]).0,
    {
        reveal(Frame::holds);
        self.lemma_numbers_stay(st, after);
        assert(self.keeps_function(after));
        assert(self.keeps_statements(after, progress)) by {
            assert forall|m: u32, t: int|
                self.cfg.blocks.dom().contains(m) && 0 <= t < self.written(
                    after,
                    progress,
                    m,
                ) implies #[trigger] self.is_written(after, m, t) by {
                assert(self.is_written(st, m, t));
                assert forall|k: int| 0 <= k < after.cfg.blocks[m][t].writes().len() implies
                    after.is_new((#[trigger] after.cfg.blocks[m][t].writes()[k]).id)
                    && after.old[after.cfg.blocks[m][t].writes()[k].id]
                    == self.cfg.blocks[m][t].writes()[k].id
                    && after.made[after.cfg.blocks[m][t].writes()[k].id] == Origin::Written(
                    m,
                    t,
                    k,
                ) by {
                    assert(st.is_new(st.cfg.blocks[m][t].writes()[k].id));
                }
            }
            assert forall|m: u32, t: int|
                self.cfg.blocks.dom().contains(m) && 0 <= t < self.whole(
                    after,
                    progress,
                    m,
                ) implies #[trigger] self.is_numbered(after, m, t) by {
                assert(self.is_numbered(st, m, t));
                let before = self.cfg.blocks[m][t];
                assert forall|k: int| 0 <= k < before.reads().len() implies
                    after.values[(m, t)].dom().contains((#[trigger] before.reads()[k]).id)
                    && after.seen(m, before.reads()[k].id, self.view_point(m, t)) == Some(
                    after.values[(m, t)][before.reads()[k].id],
                ) by {
                    assert(st.seen(m, before.reads()[k].id, self.view_point(m, t)) == Some(
                        st.values[(m, t)][before.reads()[k].id],
                    ));
                }
            }
        }
        assert(self.keeps_current(after, progress)) by {
            assert forall|m: u32, other: u64| self.cfg.blocks.dom().contains(m) implies
                #[trigger] found(after.current, (m, other)) == after.seen(
                m,
                other,
                self.written(after, progress, m),
            ) by {
                assert(found(st.current, (m, other)) == st.seen(
                    m,
                    other,
                    self.written(st, progress, m),
                ));
            }
        }
        assert(self.keeps_arguments(after)) by {
            assert forall|i: int, k: int|
                0 <= i < after.cfg.edges.len() && 0 <= k
                    < after.cfg.edges[i].arguments.len() implies #[trigger] self.is_argument(
                after,
                i,
                k,
            ) by {
                assert(self.is_argument(st, i, k));
                assert(st.is_new(st.cfg.edges[i].arguments[k].0.id));
                assert(st.is_new(st.cfg.edges[i].arguments[k].1->Local_0.id));
            }
        }
        assert forall|j: int| 0 <= j < list.len() implies found(
            after.starts,
            (n, (#[trigger] list[j]).0),
        ) == Some(list[j].1) && self.is_old(list[j].0) by {
            assert(found(st.starts, (n, st.incomplete[n][j].0)) == Some(st.incomplete[n][j].1));
            assert(self.is_start(st, n, list[j].0));
        }
        assert forall|i: int, j: int| 0 <= i < j < list.len() implies (#[trigger] list[i]).0 != (
        #[trigger] list[j]).0 by {
            assert(st.incomplete[n][i].0 != st.incomplete[n][j].0);
        }
        self.lemma_sealed_starts(st, after, n, list, pending);
    }

    proof fn lemma_sealed_starts(
        self,
        st: Numbering,
        after: Numbering,
        n: u32,
        list: Seq<(u64, u64)>,
        pending: Set<(u32, u64)>,
    )
        requires
            self.keeps_numbers(st),
            self.keeps_function(st),
            self.keeps_starts(st, Set::empty()),
            n != self.entry,
            !st.sealed.contains(n),
            after == (Numbering {
                sealed: st.sealed.insert(n),
                sealed_at: st.sealed_at.insert(n, st.count),
                incomplete: st.incomplete.remove(n),
                ..st
            }),
            list == (if st.incomplete.dom().contains(n) {
                st.incomplete[n]
            } else {
                Seq::empty()
            }),
            forall|m: u32, local: u64|
                pending.contains((m, local)) <==> m == n && !self.upvalues.contains(local)
                    && exists|j: int| 0 <= j < list.len() && (#[trigger] list[j]).0 == local,
        ensures
            self.keeps_starts(after, pending),
    {
        assert forall|m: u32, other: u64| #[trigger]
            after.starts.dom().contains((m, other)) implies self.is_start(after, m, other) by {
            assert(self.is_start(st, m, other));
            assert(st.is_new(st.starts[(m, other)]));
        }
        assert forall|m: u32, other: u64| #[trigger]
            after.starts.dom().contains((m, other)) && !pending.contains(
                (m, other),
            ) implies self.is_settled(after, m, other) by {
            assert(self.is_settled(st, m, other));
            let value = st.starts[(m, other)];
            if m == n {
                assert(self.is_listed(st, n, other, value));
                let j = choose|j: int|
                    0 <= j < st.incomplete[n].len() && st.incomplete[n][j] == (other, value);
                assert(list[j].0 == other);
                assert(self.upvalues.contains(other));
                assert(self.is_start(st, n, other));
                assert(st.is_new(value));
                assert(value < after.sealed_at[n]);
            } else if m == self.entry || !st.sealed.contains(m) {
                assert(self.is_listed(st, m, other, value));
                assert(self.is_listed(after, m, other, value));
                assert(self.is_unpassed(after, m, value)) by {
                    assert forall|i: int, k: int|
                        0 <= i < after.cfg.edges.len() && 0 <= k
                            < after.cfg.edges[i].arguments.len() && after.cfg.edges[i].target
                            == m implies (#[trigger] after.cfg.edges[i].arguments[k]).0.id
                        != value by {
                        assert(st.cfg.edges[i].arguments[k].0.id != value);
                    }
                }
            } else {
                if self.passes(st, m, other, value) {
                    assert(self.passes(after, m, other, value)) by {
                        assert forall|i: int|
                            0 <= i < after.cfg.edges.len() && (
                            #[trigger] after.cfg.edges[i]).target
                                == m implies after.current.dom().contains(
                            (after.cfg.edges[i].source, other),
                        ) && after.cfg.edges[i].arguments.contains(
                            (
                                RcLocal { id: value },
                                RValueView::Local(
                                    RcLocal {
                                        id: after.current[(after.cfg.edges[i].source, other)],
                                    },
                                ),
                            ),
                        ) by {
                            assert(st.cfg.edges[i].target == m);
                        }
                    }
                }
            }
        }
        assert forall|m: u32, other: u64| #[trigger] pending.contains((m, other)) implies
            after.starts.dom().contains((m, other)) && self.is_pending(after, m, other) by {
            let j = choose|j: int| 0 <= j < list.len() && (#[trigger] list[j]).0 == other;
            assert(found(st.starts, (n, st.incomplete[n][j].0)) == Some(st.incomplete[n][j].1));
            assert(self.is_settled(st, n, other));
            let value = st.starts[(n, other)];
            assert forall|i: int, k: int|
                0 <= i < after.cfg.edges.len() && 0 <= k < after.cfg.edges[i].arguments.len()
                    && after.cfg.edges[i].target == n implies (
            #[trigger] after.cfg.edges[i].arguments[k]).0.id != value by {
                assert(st.cfg.edges[i].arguments[k].0.id != value);
            }
        }
        assert forall|m: u32, j: int|
            after.incomplete.dom().contains(m) && 0 <= j < after.incomplete[m].len() implies found(
            after.starts,
            (m, (#[trigger] after.incomplete[m][j]).0),
        ) == Some(after.incomplete[m][j].1) by {
            assert(found(st.starts, (m, st.incomplete[m][j].0)) == Some(st.incomplete[m][j].1));
        }
        assert forall|m: u32, i: int, j: int|
            after.incomplete.dom().contains(m) && 0 <= i < j < after.incomplete[m].len() implies (
        #[trigger] after.incomplete[m][i]).0 != (#[trigger] after.incomplete[m][j]).0 by {
            assert(st.incomplete[m][i].0 != st.incomplete[m][j].0);
        }
    }
}

/// Whether new locals were only added, and the values of the blocks that were
/// gone through stay.
spec fn is_kept(frame: Frame, st: Numbering, after: Numbering, n: u32) -> bool {
    &&& is_part(st.old, after.old)
    &&& is_part(st.made, after.made)
    &&& after.starts == st.starts
    &&& after.incomplete == st.incomplete
    &&& after.filled == st.filled
    &&& after.sealed == st.sealed
    &&& after.sealed_at == st.sealed_at
    &&& after.cfg.edges == st.cfg.edges
    &&& !st.filled.contains(n)
    &&& forall|m: u32, local: u64|
        m != n ==> #[trigger] found(after.current, (m, local)) == found(st.current, (m, local))
    &&& forall|m: u32|
        frame.cfg.blocks.dom().contains(m) && m != n ==> #[trigger] after.cfg.blocks[m]
            == st.cfg.blocks[m]
}

impl Frame {
    proof fn lemma_kept_starts(self, st: Numbering, after: Numbering, n: u32)
        requires
            self.is_valid(),
            self.keeps_numbers(st),
            self.keeps_function(st),
            self.keeps_function(after),
            self.keeps_starts(st, Set::empty()),
            self.keeps_arguments(st),
            self.keeps_sealed(st),
            is_kept(self, st, after, n),
        ensures
            self.keeps_starts(after, Set::empty()),
            self.keeps_arguments(after),
            self.keeps_sealed(after),
    {
        assert forall|m: u32, other: u64| #[trigger]
            after.starts.dom().contains((m, other)) implies self.is_start(after, m, other)
            && self.is_settled(after, m, other) by {
            assert(self.is_start(st, m, other));
            assert(self.is_settled(st, m, other));
            let value = st.starts[(m, other)];
            assert(st.is_new(value));
            assert(st.old.dom().contains(value) && st.made.dom().contains(value));
            assert(after.made[value] == st.made[value]);
            assert(after.is_new(value));
            assert(self.is_start(after, m, other));
            if m == self.entry || !st.sealed.contains(m) {
                assert(self.is_listed(after, m, other, value));
                assert(self.is_unpassed(after, m, value)) by {
                    assert forall|i: int, k: int|
                        0 <= i < after.cfg.edges.len() && 0 <= k
                            < after.cfg.edges[i].arguments.len() && after.cfg.edges[i].target
                            == m implies (#[trigger] after.cfg.edges[i].arguments[k]).0.id
                        != value by {
                        assert(st.cfg.edges[i].arguments[k].0.id != value);
                    }
                }
            } else if self.passes(st, m, other, value) {
                assert forall|i: int|
                    0 <= i < after.cfg.edges.len() && (#[trigger] after.cfg.edges[i]).target
                        == m implies after.current.dom().contains(
                    (after.cfg.edges[i].source, other),
                ) && after.cfg.edges[i].arguments.contains(
                    (
                        RcLocal { id: value },
                        RValueView::Local(
                            RcLocal { id: after.current[(after.cfg.edges[i].source, other)] },
                        ),
                    ),
                ) by {
                    assert(st.cfg.edges[i].target == m);
                    assert(is_joint(st.cfg.edges[i], self.cfg.edges[i]));
                    assert(self.cfg.edges[i].target == m);
                    let source = st.cfg.edges[i].source;
                    assert(st.filled.contains(source));
                    assert(found(after.current, (source, other)) == found(
                        st.current,
                        (source, other),
                    ));
                }
                assert(self.passes(after, m, other, value));
            }
            if st.sealed.contains(m) && self.takes_over(st, m, other, value) {
                let entering = EdgeView::entering(self.cfg.edges, m);
                EdgeView::entering_edges(self.cfg.edges, m, entering[0]);
                assert(entering.contains(entering[0]));
                let e = choose|e: int|
                    0 <= e < self.cfg.edges.len() && self.cfg.edges[e] == entering[0];
                assert(st.filled.contains(self.cfg.edges[e].source));
                assert(found(after.current, (entering[0].source, other)) == found(
                    st.current,
                    (entering[0].source, other),
                ));
            }
        }
        assert forall|i: int, k: int|
            0 <= i < after.cfg.edges.len() && 0 <= k < after.cfg.edges[i].arguments.len() implies
            #[trigger] self.is_argument(after, i, k) by {
            assert(self.is_argument(st, i, k));
            let parameter = st.cfg.edges[i].arguments[k].0.id;
            let value = st.cfg.edges[i].arguments[k].1->Local_0.id;
            assert(st.is_new(parameter) && st.is_new(value));
            assert(st.old.dom().contains(parameter) && st.made.dom().contains(parameter));
            assert(st.old.dom().contains(value) && st.made.dom().contains(value));
        }
        assert forall|m: u32, j: int|
            after.incomplete.dom().contains(m) && 0 <= j < after.incomplete[m].len() implies found(
            after.starts,
            (m, (#[trigger] after.incomplete[m][j]).0),
        ) == Some(after.incomplete[m][j].1) by {
            assert(found(st.starts, (m, st.incomplete[m][j].0)) == Some(st.incomplete[m][j].1));
        }
        assert forall|m: u32, i: int, j: int|
            after.incomplete.dom().contains(m) && 0 <= i < j < after.incomplete[m].len() implies (
        #[trigger] after.incomplete[m][i]).0 != (#[trigger] after.incomplete[m][j]).0 by {
            assert(st.incomplete[m][i].0 != st.incomplete[m][j].0);
        }
    }

    /// What was seen before a statement is seen after it got new targets.
    proof fn lemma_kept_seen(
        self,
        st: Numbering,
        after: Numbering,
        progress: Progress,
        n: u32,
        m: u32,
        local: u64,
        count: int,
    )
        requires
            self.keeps_function(st),
            self.keeps_function(after),
            self.keeps_statements(st, progress),
            is_kept(self, st, after, n),
            self.cfg.blocks.dom().contains(m),
            count <= self.written(st, progress, m) <= self.cfg.blocks[m].len(),
            m == n ==> forall|t: int|
                0 <= t < count ==> (#[trigger] after.cfg.blocks[n][t]).writes()
                    == st.cfg.blocks[n][t].writes(),
        ensures
            after.seen(m, local, count) == st.seen(m, local, count),
    {
        self.lemma_new_targets(st, progress, m, count);
        assert(st.cfg.blocks[m].len() == self.cfg.blocks[m].len());
        assert(after.cfg.blocks[m].len() == self.cfg.blocks[m].len());
        lemma_last_grows(st.cfg.blocks[m], st.old, after.old, local, count);
        if m == n {
            lemma_last_prefix(
                after.cfg.blocks[n],
                st.cfg.blocks[n],
                after.old,
                local,
                count,
            );
        }
    }

    proof fn lemma_kept_written(
        self,
        st: Numbering,
        after: Numbering,
        n: u32,
        m: u32,
        t: int,
    )
        requires
            self.keeps_numbers(st),
            is_kept(self, st, after, n),
            self.is_written(st, m, t),
            after.cfg.blocks[m][t].writes() == st.cfg.blocks[m][t].writes(),
        ensures
            self.is_written(after, m, t),
    {
        let targets = st.cfg.blocks[m][t].writes();
        assert forall|k: int| 0 <= k < targets.len() implies after.is_new(
            (#[trigger] targets[k]).id,
        ) && after.old[targets[k].id] == self.cfg.blocks[m][t].writes()[k].id
            && after.made[targets[k].id] == Origin::Written(m, t, k) by {
            assert(st.is_new(targets[k].id));
            assert(st.old.dom().contains(targets[k].id));
            assert(st.made.dom().contains(targets[k].id));
        }
    }

    proof fn lemma_kept_numbered(
        self,
        st: Numbering,
        after: Numbering,
        progress: Progress,
        n: u32,
        m: u32,
        t: int,
    )
        requires
            self.keeps_function(st),
            self.keeps_function(after),
            self.keeps_statements(st, progress),
            is_kept(self, st, after, n),
            self.cfg.blocks.dom().contains(m),
            0 <= t < self.cfg.blocks[m].len(),
            self.view_point(m, t) <= self.written(st, progress, m) <= self.cfg.blocks[m].len(),
            m == n ==> forall|i: int|
                0 <= i < self.view_point(m, t) ==> (#[trigger] after.cfg.blocks[n][i]).writes()
                    == st.cfg.blocks[n][i].writes(),
            after.cfg.blocks[m][t] == st.cfg.blocks[m][t],
            st.values.dom().contains((m, t)),
            after.values.dom().contains((m, t)),
            after.values[(m, t)] == st.values[(m, t)],
            self.is_numbered(st, m, t),
        ensures
            self.is_numbered(after, m, t),
    {
        let before = self.cfg.blocks[m][t];
        assert forall|k: int| 0 <= k < before.reads().len() implies
            after.values[(m, t)].dom().contains((#[trigger] before.reads()[k]).id) && after.seen(
            m,
            before.reads()[k].id,
            self.view_point(m, t),
        ) == Some(after.values[(m, t)][before.reads()[k].id]) by {
            self.lemma_kept_seen(
                st,
                after,
                progress,
                n,
                m,
                before.reads()[k].id,
                self.view_point(m, t),
            );
        }
    }

    /// A statement gets new targets.
    pub proof fn lemma_targets_written(
        self,
        st: Numbering,
        after: Numbering,
        n: u32,
        t: int,
        statement: StatementView,
    )
        requires
            self.is_valid(),
            self.holds(st, (Progress { node: Some(n), written: t, whole: t }), Set::empty()),
            0 <= t < self.cfg.blocks[n].len(),
            statement.writes().len() == self.cfg.blocks[n][t].writes().len(),
            come_next(statement.writes(), st.count),
            after.cfg == (CfgView {
                blocks: st.cfg.blocks.insert(n, st.cfg.blocks[n].update(t, statement)),
                bindings: after.cfg.bindings,
                provenance: after.cfg.provenance,
                ..st.cfg
            }),
            st.cfg.bindings.dom().subset_of(after.cfg.bindings.dom()),
            forall|k: int|
                0 <= k < statement.writes().len() ==> after.cfg.bindings.dom().contains(
                    (#[trigger] statement.writes()[k]).id,
                ),
            after == (Numbering {
                cfg: after.cfg,
                old: with_old(
                    st.old,
                    statement.writes(),
                    self.cfg.blocks[n][t].writes(),
                    statement.writes().len() as int,
                ),
                made: with_made(
                    st.made,
                    n,
                    t,
                    statement.writes(),
                    statement.writes().len() as int,
                ),
                current: with_targets(
                    st.current,
                    n,
                    statement.writes(),
                    self.cfg.blocks[n][t].writes(),
                    statement.writes().len() as int,
                ),
                count: st.count + statement.writes().len(),
                ..st
            }),
        ensures
            self.holds(
                after,
                (Progress { node: Some(n), written: t + 1, whole: t }),
                Set::empty(),
            ),
            forall|local: u64| #[trigger] after.seen(n, local, t) == st.seen(n, local, t),
    {
        reveal(Frame::holds);
        let progress = Progress { node: Some(n), written: t, whole: t };
        let next = Progress { node: Some(n), written: t + 1, whole: t };
        let targets = statement.writes();
        let before = self.cfg.blocks[n][t].writes();
        let count = targets.len() as int;
        lemma_with_old(st.old, targets, before, st.count, count);
        lemma_with_made(st.made, n, t, targets, st.count, count);
        lemma_with_targets(st.current, n, targets, before, after.old, count);
        assert forall|id: u64| #[trigger] st.old.dom().contains(id) implies
            after.old.dom().contains(id) && after.old[id] == st.old[id] by {
            assert(st.is_new(id));
            assert(with_old(st.old, targets, before, count).dom().contains(id)
                == st.old.dom().contains(id));
        }
        assert forall|id: u64| #[trigger] st.made.dom().contains(id) implies
            after.made.dom().contains(id) && after.made[id] == st.made[id] by {
            assert(st.is_new(id));
            assert(with_made(st.made, n, t, targets, count).dom().contains(id)
                == st.made.dom().contains(id));
        }
        assert(after.cfg.blocks.dom() =~= self.cfg.blocks.dom());
        assert forall|m: u32| self.cfg.blocks.dom().contains(m) implies (
        #[trigger] after.cfg.blocks[m]).len() == self.cfg.blocks[m].len() by {
            assert(st.cfg.blocks[m].len() == self.cfg.blocks[m].len());
        }
        assert(self.keeps_function(after));
        assert(is_kept(self, st, after, n));
        self.lemma_written_numbers(st, after, n, t, targets, before);
        self.lemma_kept_starts(st, after, n);
        assert forall|local: u64| #[trigger] after.seen(n, local, t) == st.seen(
            n,
            local,
            t,
        ) by {
            self.lemma_kept_seen(st, after, progress, n, n, local, t);
        }
        assert(self.keeps_statements(after, next)) by {
            assert forall|m: u32, i: int|
                self.cfg.blocks.dom().contains(m) && 0 <= i < self.written(
                    after,
                    next,
                    m,
                ) implies #[trigger] self.is_written(after, m, i) by {
                if m == n && i == t {
                    assert(after.cfg.blocks[n][t] == statement);
                    assert forall|k: int| 0 <= k < targets.len() implies after.is_new(
                        (#[trigger] targets[k]).id,
                    ) && after.old[targets[k].id] == before[k].id && after.made[targets[k].id]
                        == Origin::Written(n, t, k) by {
                        assert(after.old.dom().contains(targets[k].id));
                    }
                } else {
                    assert(self.is_written(st, m, i));
                    self.lemma_kept_written(st, after, n, m, i);
                }
            }
            assert forall|m: u32, i: int|
                self.cfg.blocks.dom().contains(m) && 0 <= i < self.whole(
                    after,
                    next,
                    m,
                ) implies #[trigger] self.is_numbered(after, m, i) by {
                assert(self.is_numbered(st, m, i));
                self.lemma_kept_numbered(st, after, progress, n, m, i);
            }
            assert forall|m: u32, i: int|
                self.cfg.blocks.dom().contains(m) && self.written(after, next, m) <= i
                    < self.cfg.blocks[m].len() implies #[trigger] after.cfg.blocks[m][i]
                == self.cfg.blocks[m][i] by {
                assert(st.cfg.blocks[m][i] == self.cfg.blocks[m][i]);
            }
        }
        assert(self.keeps_current(after, next)) by {
            assert forall|m: u32, local: u64| self.cfg.blocks.dom().contains(m) implies
                #[trigger] found(after.current, (m, local)) == after.seen(
                m,
                local,
                self.written(after, next, m),
            ) by {
                assert(found(st.current, (m, local)) == st.seen(
                    m,
                    local,
                    self.written(st, progress, m),
                ));
                if m == n {
                    assert(after.seen(n, local, t) == st.seen(n, local, t));
                    assert(after.cfg.blocks[n][t] == statement);
                } else {
                    self.lemma_kept_seen(
                        st,
                        after,
                        progress,
                        n,
                        m,
                        local,
                        self.written(st, progress, m),
                    );
                }
            }
        }
    }

    proof fn lemma_written_numbers(
        self,
        st: Numbering,
        after: Numbering,
        n: u32,
        t: int,
        targets: Seq<RcLocal>,
        before: Seq<RcLocal>,
    )
        requires
            self.is_valid(),
            self.keeps_numbers(st),
            self.cfg.blocks.dom().contains(n),
            0 <= t < self.cfg.blocks[n].len(),
            before == self.cfg.blocks[n][t].writes(),
            targets.len() == before.len(),
            come_next(targets, st.count),
            after.old == with_old(st.old, targets, before, targets.len() as int),
            after.made == with_made(st.made, n, t, targets, targets.len() as int),
            after.count == st.count + targets.len(),
            st.cfg.bindings.dom().subset_of(after.cfg.bindings.dom()),
            forall|k: int|
                0 <= k < targets.len() ==> after.cfg.bindings.dom().contains(
                    (#[trigger] targets[k]).id,
                ),
        ensures
            self.keeps_numbers(after),
    {
        let count = targets.len() as int;
        lemma_with_old(st.old, targets, before, st.count, count);
        lemma_with_made(st.made, n, t, targets, st.count, count);
        assert forall|id: u64| #[trigger] after.is_new(id) implies self.base <= id < after.count
            && after.cfg.bindings.dom().contains(id) && self.is_old(after.old[id])
            && after.made.dom().contains(id) by {
            if st.count <= id < st.count + count {
                let k = id - st.count;
                assert(targets[k].id == id);
                let all = self.cfg.blocks[n][t].locals();
                let place = self.cfg.blocks[n][t].reads().len() + k;
                assert(all[place] == before[k]);
                assert(self.is_old(self.cfg.blocks[n][t].locals()[place].id));
                assert(with_made(st.made, n, t, targets, count).dom().contains(id));
            } else {
                assert(with_old(st.old, targets, before, count).dom().contains(id)
                    == st.old.dom().contains(id));
                assert(with_made(st.made, n, t, targets, count).dom().contains(id)
                    == st.made.dom().contains(id));
                assert(st.is_new(id));
            }
        }
        assert forall|id: u64| after.made.dom().contains(id) == after.old.dom().contains(id) by {
            if st.count <= id < st.count + count {
                assert(with_made(st.made, n, t, targets, count).dom().contains(id));
                assert(with_old(st.old, targets, before, count).dom().contains(id));
            } else {
                assert(with_old(st.old, targets, before, count).dom().contains(id)
                    == st.old.dom().contains(id));
                assert(with_made(st.made, n, t, targets, count).dom().contains(id)
                    == st.made.dom().contains(id));
            }
        }
        assert(after.made.dom() =~= after.old.dom());
    }

    /// A statement that has new targets gets new locals to read.
    pub proof fn lemma_statement_done(
        self,
        st: Numbering,
        after: Numbering,
        n: u32,
        t: int,
        statement: StatementView,
        values: Map<u64, u64>,
    )
        requires
            self.is_valid(),
            self.holds(st, (Progress { node: Some(n), written: t + 1, whole: t }), Set::empty()),
            0 <= t < self.cfg.blocks[n].len(),
            statement.writes() == st.cfg.blocks[n][t].writes(),
            statement == self.cfg.blocks[n][t].reread(through(values)).rewritten_to(
                statement.writes(),
            ),
            forall|k: int|
                0 <= k < self.cfg.blocks[n][t].reads().len() ==> values.dom().contains(
                    (#[trigger] self.cfg.blocks[n][t].reads()[k]).id,
                ) && st.seen(
                    n,
                    self.cfg.blocks[n][t].reads()[k].id,
                    self.view_point(n, t),
                ) == Some(values[self.cfg.blocks[n][t].reads()[k].id]),
            after.cfg == (CfgView {
                blocks: st.cfg.blocks.insert(n, st.cfg.blocks[n].update(t, statement)),
                ..st.cfg
            }),
            after == (Numbering {
                cfg: after.cfg,
                values: st.values.insert((n, t), values),
                ..st
            }),
        ensures
            self.holds(
                after,
                (Progress { node: Some(n), written: t + 1, whole: t + 1 }),
                Set::empty(),
            ),
    {
        reveal(Frame::holds);
        let progress = Progress { node: Some(n), written: t + 1, whole: t };
        let next = Progress { node: Some(n), written: t + 1, whole: t + 1 };
        assert(after.cfg.blocks.dom() =~= self.cfg.blocks.dom());
        assert forall|m: u32| self.cfg.blocks.dom().contains(m) implies (
        #[trigger] after.cfg.blocks[m]).len() == self.cfg.blocks[m].len() by {
            assert(st.cfg.blocks[m].len() == self.cfg.blocks[m].len());
        }
        assert(self.keeps_function(after));
        assert(is_kept(self, st, after, n));
        self.lemma_numbers_stay(st, after);
        self.lemma_kept_starts(st, after, n);
        assert forall|i: int| 0 <= i < t + 1 implies (
        #[trigger] after.cfg.blocks[n][i]).writes() == st.cfg.blocks[n][i].writes() by {
        }
        assert(self.keeps_statements(after, next)) by {
            assert forall|m: u32, i: int|
                self.cfg.blocks.dom().contains(m) && 0 <= i < self.written(
                    after,
                    next,
                    m,
                ) implies #[trigger] self.is_written(after, m, i) by {
                assert(self.is_written(st, m, i));
                self.lemma_kept_written(st, after, n, m, i);
            }
            assert forall|m: u32, i: int|
                self.cfg.blocks.dom().contains(m) && 0 <= i < self.whole(
                    after,
                    next,
                    m,
                ) implies #[trigger] self.is_numbered(after, m, i) by {
                if m == n && i == t {
                    let before = self.cfg.blocks[n][t];
                    assert(after.cfg.blocks[n][t] == statement);
                    assert forall|k: int| 0 <= k < before.reads().len() implies
                        after.values[(n, t)].dom().contains((#[trigger] before.reads()[k]).id)
                        && after.seen(n, before.reads()[k].id, self.view_point(n, t)) == Some(
                        after.values[(n, t)][before.reads()[k].id],
                    ) by {
                        self.lemma_kept_seen(
                            st,
                            after,
                            progress,
                            n,
                            n,
                            before.reads()[k].id,
                            self.view_point(n, t),
                        );
                    }
                } else {
                    assert(self.is_numbered(st, m, i));
                    self.lemma_kept_numbered(st, after, progress, n, m, i);
                }
            }
            assert forall|m: u32, i: int|
                self.cfg.blocks.dom().contains(m) && self.written(after, next, m) <= i
                    < self.cfg.blocks[m].len() implies #[trigger] after.cfg.blocks[m][i]
                == self.cfg.blocks[m][i] by {
                assert(st.cfg.blocks[m][i] == self.cfg.blocks[m][i]);
            }
        }
        assert(self.keeps_current(after, next)) by {
            assert forall|m: u32, local: u64| self.cfg.blocks.dom().contains(m) implies
                #[trigger] found(after.current, (m, local)) == after.seen(
                m,
                local,
                self.written(after, next, m),
            ) by {
                assert(found(st.current, (m, local)) == st.seen(
                    m,
                    local,
                    self.written(st, progress, m),
                ));
                self.lemma_kept_seen(
                    st,
                    after,
                    progress,
                    n,
                    m,
                    local,
                    self.written(st, progress, m),
                );
            }
        }
    }

    /// Going through another block starts and ends.
    pub proof fn lemma_begun(self, st: Numbering, n: u32)
        requires
            self.holds(st, (Progress { node: None, written: 0, whole: 0 }), Set::empty()),
            self.cfg.blocks.dom().contains(n),
            !st.filled.contains(n),
        ensures
            self.holds(st, (Progress { node: Some(n), written: 0, whole: 0 }), Set::empty()),
    {
        reveal(Frame::holds);
        let none = Progress { node: None, written: 0, whole: 0 };
        let some = Progress { node: Some(n), written: 0, whole: 0 };
        assert forall|m: u32| #[trigger] self.written(st, some, m) == self.written(
            st,
            none,
            m,
        ) by {
        }
        assert forall|m: u32| #[trigger] self.whole(st, some, m) == self.whole(st, none, m) by {
        }
        assert(self.keeps_current(st, some)) by {
            assert forall|m: u32, local: u64| self.cfg.blocks.dom().contains(m) implies
                #[trigger] found(st.current, (m, local)) == st.seen(
                m,
                local,
                self.written(st, some, m),
            ) by {
                assert(found(st.current, (m, local)) == st.seen(
                    m,
                    local,
                    self.written(st, none, m),
                ));
            }
        }
    }

    pub proof fn lemma_filled(self, st: Numbering, after: Numbering, n: u32)
        requires
            self.holds(
                st,
                (Progress {
                    node: Some(n),
                    written: self.cfg.blocks[n].len() as int,
                    whole: self.cfg.blocks[n].len() as int,
                }),
                Set::empty(),
            ),
            after == (Numbering { filled: st.filled.insert(n), ..st }),
        ensures
            self.holds(after, (Progress { node: None, written: 0, whole: 0 }), Set::empty()),
    {
        reveal(Frame::holds);
        let length = self.cfg.blocks[n].len() as int;
        let some = Progress { node: Some(n), written: length, whole: length };
        let none = Progress { node: None, written: 0, whole: 0 };
        assert forall|m: u32| #[trigger] self.written(after, none, m) == self.written(
            st,
            some,
            m,
        ) by {
        }
        assert forall|m: u32| #[trigger] self.whole(after, none, m) == self.whole(st, some, m) by {
        }
        self.lemma_numbers_stay(st, after);
        assert(self.keeps_function(after));
        self.lemma_same_values(st, after, some, none);
    }

    proof fn lemma_same_values(
        self,
        st: Numbering,
        after: Numbering,
        progress: Progress,
        next: Progress,
    )
        requires
            self.keeps_numbers(st),
            self.keeps_statements(st, progress),
            self.keeps_current(st, progress),
            self.keeps_starts(st, Set::empty()),
            self.keeps_arguments(st),
            self.keeps_sealed(st),
            after == (Numbering { filled: after.filled, ..st }),
            st.filled.subset_of(after.filled),
            forall|m: u32| #[trigger]
                after.filled.contains(m) ==> self.cfg.blocks.dom().contains(m),
            forall|m: u32| #[trigger]
                self.written(after, next, m) == self.written(st, progress, m),
            forall|m: u32| #[trigger] self.whole(after, next, m) == self.whole(st, progress, m),
        ensures
            self.keeps_statements(after, next),
            self.keeps_current(after, next),
            self.keeps_starts(after, Set::empty()),
            self.keeps_arguments(after),
            self.keeps_sealed(after),
    {
        assert forall|m: u32, t: int|
            self.cfg.blocks.dom().contains(m) && 0 <= t < self.written(after, next, m) implies
            #[trigger] self.is_written(after, m, t) by {
            assert(self.is_written(st, m, t));
            let targets = st.cfg.blocks[m][t].writes();
            assert forall|k: int| 0 <= k < targets.len() implies after.is_new(
                (#[trigger] targets[k]).id,
            ) && after.old[targets[k].id] == self.cfg.blocks[m][t].writes()[k].id
                && after.made[targets[k].id] == Origin::Written(m, t, k) by {
                assert(st.is_new(targets[k].id));
            }
        }
        assert forall|m: u32, t: int|
            self.cfg.blocks.dom().contains(m) && 0 <= t < self.whole(after, next, m) implies
            #[trigger] self.is_numbered(after, m, t) by {
            assert(self.is_numbered(st, m, t));
            let before = self.cfg.blocks[m][t];
            assert forall|k: int| 0 <= k < before.reads().len() implies
                after.values[(m, t)].dom().contains((#[trigger] before.reads()[k]).id)
                && after.seen(m, before.reads()[k].id, self.view_point(m, t)) == Some(
                after.values[(m, t)][before.reads()[k].id],
            ) by {
                assert(st.seen(m, before.reads()[k].id, self.view_point(m, t)) == Some(
                    st.values[(m, t)][before.reads()[k].id],
                ));
            }
        }
        assert forall|m: u32, local: u64| self.cfg.blocks.dom().contains(m) implies
            #[trigger] found(after.current, (m, local)) == after.seen(
            m,
            local,
            self.written(after, next, m),
        ) by {
            assert(found(st.current, (m, local)) == st.seen(
                m,
                local,
                self.written(st, progress, m),
            ));
        }
        assert forall|m: u32, other: u64| #[trigger]
            after.starts.dom().contains((m, other)) implies self.is_start(after, m, other)
            && self.is_settled(after, m, other) by {
            assert(self.is_start(st, m, other));
            assert(self.is_settled(st, m, other));
            let value = st.starts[(m, other)];
            assert(st.is_new(value));
            if self.is_unpassed(st, m, value) {
                assert forall|i: int, k: int|
                    0 <= i < after.cfg.edges.len() && 0 <= k < after.cfg.edges[i].arguments.len()
                        && after.cfg.edges[i].target == m implies (
                #[trigger] after.cfg.edges[i].arguments[k]).0.id != value by {
                    assert(st.cfg.edges[i].arguments[k].0.id != value);
                }
            }
            if self.passes(st, m, other, value) {
                assert forall|i: int|
                    0 <= i < after.cfg.edges.len() && (#[trigger] after.cfg.edges[i]).target
                        == m implies after.current.dom().contains(
                    (after.cfg.edges[i].source, other),
                ) && after.cfg.edges[i].arguments.contains(
                    (
                        RcLocal { id: value },
                        RValueView::Local(
                            RcLocal { id: after.current[(after.cfg.edges[i].source, other)] },
                        ),
                    ),
                ) by {
                    assert(st.cfg.edges[i].target == m);
                }
            }
        }
        assert forall|i: int, k: int|
            0 <= i < after.cfg.edges.len() && 0 <= k < after.cfg.edges[i].arguments.len() implies
            #[trigger] self.is_argument(after, i, k) by {
            assert(self.is_argument(st, i, k));
            assert(st.is_new(st.cfg.edges[i].arguments[k].0.id));
            assert(st.is_new(st.cfg.edges[i].arguments[k].1->Local_0.id));
        }
        assert forall|m: u32, j: int|
            after.incomplete.dom().contains(m) && 0 <= j < after.incomplete[m].len() implies found(
            after.starts,
            (m, (#[trigger] after.incomplete[m][j]).0),
        ) == Some(after.incomplete[m][j].1) by {
            assert(found(st.starts, (m, st.incomplete[m][j].0)) == Some(st.incomplete[m][j].1));
        }
        assert forall|m: u32, i: int, j: int|
            after.incomplete.dom().contains(m) && 0 <= i < j < after.incomplete[m].len() implies (
        #[trigger] after.incomplete[m][i]).0 != (#[trigger] after.incomplete[m][j]).0 by {
            assert(st.incomplete[m][i].0 != st.incomplete[m][j].0);
        }
    }

    /// Nothing is new at first.
    pub proof fn lemma_started(self, st: Numbering)
        requires
            self.is_valid(),
            st == (Numbering {
                cfg: self.cfg,
                starts: Map::empty(),
                current: Map::empty(),
                old: Map::empty(),
                made: Map::empty(),
                values: Map::empty(),
                filled: Set::empty(),
                sealed: Set::empty(),
                sealed_at: Map::empty(),
                incomplete: Map::empty(),
                count: self.base,
            }),
        ensures
            self.holds(st, (Progress { node: None, written: 0, whole: 0 }), Set::empty()),
    {
        reveal(Frame::holds);
        assert forall|i: int, k: int|
            0 <= i < st.cfg.edges.len() && 0 <= k < st.cfg.edges[i].arguments.len() implies
            #[trigger] self.is_argument(st, i, k) by {
            assert(self.cfg.edges[i].arguments.len() == 0);
        }
        assert forall|i: int, j: int|
            0 <= i < st.cfg.edges.len() && 0 <= j < st.cfg.edges.len() && (
            #[trigger] st.cfg.edges[i]).target == (
            #[trigger] st.cfg.edges[j]).target implies parameters_of(st.cfg.edges[i])
            == parameters_of(st.cfg.edges[j]) by {
            assert(self.cfg.edges[i].arguments.len() == 0);
            assert(self.cfg.edges[j].arguments.len() == 0);
            assert(parameters_of(st.cfg.edges[i]) =~= parameters_of(st.cfg.edges[j]));
        }
        assert forall|i: int| 0 <= i < st.cfg.edges.len() implies parameters_of(
            #[trigger] st.cfg.edges[i],
        ).no_duplicates() by {
            assert(self.cfg.edges[i].arguments.len() == 0);
        }
    }
}

} // verus!
