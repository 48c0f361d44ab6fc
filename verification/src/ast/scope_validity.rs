//! That grouping declarations into scopes leaves every local declared where it
//! is used.

use vstd::prelude::*;

use crate::ast::binding_validation;
use crate::ast::local::RcLocal;
use crate::ast::nodes::{AssignView, LValueView, RValueView, StatementView};
use crate::ast::{model, name_locals, rewrite, scope_narrowing, shape_laws, tally};

verus! {

impl StatementView {
    /// The locals that a loop binds for its body.
    pub open spec fn loop_bound(self) -> Set<u64> {
        match self {
            StatementView::NumericFor { counter, .. } => binding_validation::ids(seq![counter]),
            StatementView::GenericFor { res_locals, .. } => binding_validation::ids(res_locals),
            _ => Set::empty(),
        }
    }

    /// The locals that are bound somewhere inside a statement: by a loop, or by
    /// a declaration in a nested block.
    pub open spec fn inner_bound(self) -> Set<u64>
        decreases self.size(), 0int, 0int,
    {
        proof {
            model::lemma_statement_parts(self);
        }
        self.loop_bound().union(Self::blocks_bound(self.blocks(), 0))
    }

    /// The locals that are bound in the blocks from position `from` on.
    pub open spec fn blocks_bound(blocks: Seq<Seq<StatementView>>, from: int) -> Set<u64>
        decreases Self::block_sizes_from(blocks, from), 3int, blocks.len() - from,
    {
        if 0 <= from < blocks.len() {
            Self::bound_from(blocks[from], 0).union(Self::blocks_bound(blocks, from + 1))
        } else {
            Set::empty()
        }
    }

    /// The locals that are bound by the statements from position `from` on or
    /// inside them.
    pub open spec fn bound_from(statements: Seq<StatementView>, from: int) -> Set<u64>
        decreases Self::sizes_from(statements, from), 2int, 0int,
    {
        proof {
            model::lemma_statement_sizes_step(statements, from);
        }
        if 0 <= from < statements.len() {
            binding_validation::ids(statements[from].own_declared()).union(
                statements[from].inner_bound(),
            ).union(Self::bound_from(statements, from + 1))
        } else {
            Set::empty()
        }
    }

    /// The locals that the statements from position `from` on declare in their
    /// own block.
    pub open spec fn own_declared_from(statements: Seq<StatementView>, from: int) -> Set<u64>
        decreases statements.len() - from,
    {
        if 0 <= from < statements.len() {
            binding_validation::ids(statements[from].own_declared()).union(
                Self::own_declared_from(statements, from + 1),
            )
        } else {
            Set::empty()
        }
    }

    /// Whether narrowing a statement moves no declaration ahead of a statement
    /// that binds one of its locals inside.
    pub open spec fn moves_freely(self, budget: usize, depth: usize) -> bool
        decreases self.size(), 0int, 0int,
    {
        proof {
            model::lemma_statement_parts(self);
        }
        let (inner, level, pinned) = self.nested_terms(budget, depth);
        Self::blocks_move_freely(self.blocks(), 0, inner, level, pinned)
    }

    /// The same of the blocks from position `from` on.
    pub open spec fn blocks_move_freely(
        blocks: Seq<Seq<StatementView>>,
        from: int,
        budget: usize,
        depth: usize,
        pinned: Set<u64>,
    ) -> bool
        decreases Self::block_sizes_from(blocks, from), 5int, blocks.len() - from,
    {
        if 0 <= from < blocks.len() {
            Self::block_moves_freely(blocks[from], budget, depth, pinned)
                && Self::blocks_move_freely(blocks, from + 1, budget, depth, pinned)
        } else {
            true
        }
    }

    /// The same of a block.
    pub open spec fn block_moves_freely(
        block: Seq<StatementView>,
        budget: usize,
        depth: usize,
        pinned: Set<u64>,
    ) -> bool
        decreases Self::sizes_from(block, 0), 4int, 0int,
    {
        let total = scope_narrowing::counted(block, 0, block.len() as int);
        if depth < scope_narrowing::MAX_ADDED_DEPTH && scope_narrowing::is_grouped(
            block,
            budget,
            pinned,
        ) {
            let kept = scope_narrowing::kept_back(
                block,
                budget,
                pinned,
                scope_narrowing::class_targets(block),
            );
            let runs = scope_narrowing::runs_of(block, kept);
            let held = scope_narrowing::lowered(
                total,
                scope_narrowing::relieved_from(block, runs, 0, kept) as nat,
            );
            Self::groups_move_freely(
                block,
                runs,
                0,
                0,
                kept,
                scope_narrowing::left_over(budget, held),
                depth,
            )
        } else {
            Self::range_moves_freely(
                block,
                0,
                block.len() as int,
                scope_narrowing::left_over(budget, total),
                depth,
            )
        }
    }

    /// The same of a block from position `at` on, with the runs from position
    /// `from` on put into scopes.
    pub open spec fn groups_move_freely(
        block: Seq<StatementView>,
        runs: Seq<(int, int)>,
        from: int,
        at: int,
        kept: Set<u64>,
        budget: usize,
        depth: usize,
    ) -> bool
        decreases Self::sizes_from(block, 0), 3int, runs.len() - from,
    {
        if 0 <= from < runs.len() {
            let run = runs[from];
            if scope_narrowing::is_worth(block, run) {
                proof {
                    scope_narrowing::lemma_run_smaller(block, run, kept);
                }
                let body = block.subrange(run.0, run.1 + 1);
                &&& Self::range_moves_freely(block, at, run.0, budget, depth)
                &&& Self::run_moves_freely(body, kept)
                &&& Self::block_moves_freely(
                    scope_narrowing::split_from(body, 0, kept),
                    budget,
                    tally::bumped(depth),
                    Set::empty(),
                )
                &&& Self::groups_move_freely(
                    block,
                    runs,
                    from + 1,
                    run.1 + 1,
                    kept,
                    budget,
                    depth,
                )
            } else {
                Self::groups_move_freely(block, runs, from + 1, at, kept, budget, depth)
            }
        } else {
            Self::range_moves_freely(block, at, block.len() as int, budget, depth)
        }
    }

    /// The same of the statements of a block before `to` from `at` on.
    pub open spec fn range_moves_freely(
        block: Seq<StatementView>,
        at: int,
        to: int,
        budget: usize,
        depth: usize,
    ) -> bool
        decreases Self::sizes_from(block, 0), 2int, to - at,
    {
        if 0 <= at < to <= block.len() {
            proof {
                model::lemma_statement_sizes_member(block, 0, at);
            }
            block[at].moves_freely(budget, depth) && Self::range_moves_freely(
                block,
                at + 1,
                to,
                budget,
                depth,
            )
        } else {
            true
        }
    }

    /// Whether no statement of a run binds inside it a local whose declaration
    /// comes behind it and is taken out of the run.
    pub open spec fn run_moves_freely(body: Seq<StatementView>, kept: Set<u64>) -> bool {
        forall|i: int, j: int|
            #![trigger body[i].inner_bound(), body[j].own_declared()]
            0 <= i < j < body.len() && scope_narrowing::declares_kept(body[j], kept)
                ==> body[i].inner_bound().disjoint(binding_validation::ids(body[j].own_declared()))
    }
}

/// Whether code that mentions and binds locals sees from `other` what it sees
/// from `visible`: all that it mentions, and nothing more of what it binds.
pub open spec fn sees_alike(
    visible: Set<u64>,
    other: Set<u64>,
    mentioned: Seq<RcLocal>,
    bound: Set<u64>,
) -> bool {
    &&& forall|id: u64|
        visible.contains(id) && mentioned.contains(RcLocal { id }) ==> #[trigger] other.contains(id)
    &&& forall|id: u64| #[trigger]
        other.contains(id) && !visible.contains(id) ==> !bound.contains(id)
}

/// Whether expressions read the same, and are closures at the same places.
pub open spec fn read_alike(left: Seq<RValueView>, right: Seq<RValueView>) -> bool {
    &&& left.len() == right.len()
    &&& forall|i: int|
        0 <= i < left.len() ==> (#[trigger] left[i]).reads() == right[i].reads() && (
        left[i] is Closure) == (right[i] is Closure)
}

proof fn lemma_first(locals: Seq<RcLocal>, from: int, visible: Set<u64>, sought: bool)
    requires
        0 <= from,
    ensures
        (binding_validation::first_from(locals, from, visible, sought) is None) <==> forall|i: int|
            from <= i < locals.len() ==> visible.contains((#[trigger] locals[i]).id) != sought,
    decreases locals.len() - from,
{
    if from < locals.len() {
        lemma_first(locals, from + 1, visible, sought);
        if visible.contains(locals[from].id) == sought {
            assert(visible.contains(locals[from].id) == sought);
        }
    }
}

/// Uses that find their locals find them where the same are visible.
proof fn lemma_needing(
    locals: Seq<RcLocal>,
    visible: Set<u64>,
    other: Set<u64>,
    access: binding_validation::BindingAccess,
    at: nat,
    to: nat,
)
    requires
        binding_validation::needing(locals, visible, access, at) is Ok,
        forall|i: int|
            0 <= i < locals.len() && visible.contains((#[trigger] locals[i]).id)
                ==> other.contains(locals[i].id),
    ensures
        binding_validation::needing(locals, visible, access, at)
            == binding_validation::Scoped::Ok(visible),
        binding_validation::needing(locals, other, access, to)
            == binding_validation::Scoped::Ok(other),
        forall|i: int| 0 <= i < locals.len() ==> visible.contains((#[trigger] locals[i]).id),
{
    lemma_first(locals, 0, visible, false);
    lemma_first(locals, 0, other, false);
}

proof fn lemma_in_turn(
    locals: Seq<RcLocal>,
    from: int,
    visible: Set<u64>,
    other: Set<u64>,
    at: nat,
    to: nat,
)
    requires
        0 <= from <= locals.len(),
        binding_validation::declaring_in_turn(locals, from, visible, at) is Ok,
        forall|i: int|
            from <= i < locals.len() && other.contains((#[trigger] locals[i]).id)
                ==> visible.contains(locals[i].id),
    ensures
        ({
            let bound = binding_validation::ids(locals.skip(from));
            &&& binding_validation::declaring_in_turn(locals, from, visible, at)
                == binding_validation::Scoped::Ok(visible.union(bound))
            &&& binding_validation::declaring_in_turn(locals, from, other, to)
                == binding_validation::Scoped::Ok(other.union(bound))
            &&& visible.disjoint(bound)
        }),
    decreases locals.len() - from,
{
    let bound = binding_validation::ids(locals.skip(from));
    if from < locals.len() {
        let id = locals[from].id;
        assert(!visible.contains(id));
        assert(!other.contains(id));
        lemma_in_turn(locals, from + 1, visible.insert(id), other.insert(id), at, to);
        let rest = binding_validation::ids(locals.skip(from + 1));
        assert forall|x: u64| bound.contains(x) == (rest.contains(x) || x == id) by {
            if bound.contains(x) {
                let i = choose|i: int|
                    0 <= i < locals.skip(from).len() && (#[trigger] locals.skip(from)[i]).id == x;
                if i > 0 {
                    assert(locals.skip(from + 1)[i - 1].id == x);
                }
            }
            if rest.contains(x) {
                let i = choose|i: int|
                    0 <= i < locals.skip(from + 1).len() && (#[trigger] locals.skip(
                        from + 1,
                    )[i]).id == x;
                assert(locals.skip(from)[i + 1].id == x);
            }
            if x == id {
                assert(locals.skip(from)[0].id == x);
            }
        }
        assert(visible.insert(id).union(rest) =~= visible.union(bound));
        assert(other.insert(id).union(rest) =~= other.union(bound));
    } else {
        assert(bound =~= Set::empty()) by {
            assert(locals.skip(from).len() == 0);
        }
        assert(visible.union(bound) =~= visible);
        assert(other.union(bound) =~= other);
    }
}

proof fn lemma_reads_alike(left: Seq<RValueView>, right: Seq<RValueView>, from: int)
    requires
        read_alike(left, right),
        0 <= from,
    ensures
        RValueView::reads_from(left, from) == RValueView::reads_from(right, from),
    decreases left.len() - from,
{
    if from < left.len() {
        lemma_reads_alike(left, right, from + 1);
        assert(left[from].reads() == right[from].reads());
    }
}

proof fn lemma_unresolved(
    left: Seq<RValueView>,
    right: Seq<RValueView>,
    from: int,
    visible: Set<u64>,
    other: Set<u64>,
    declared: Set<u64>,
)
    requires
        read_alike(left, right),
        0 <= from,
        binding_validation::unresolved_from(left, from, visible, declared) is None,
        forall|i: int|
            0 <= i < RValueView::reads_from(left, from).len() && visible.contains(
                (#[trigger] RValueView::reads_from(left, from)[i]).id,
            ) ==> other.contains(RValueView::reads_from(left, from)[i].id),
    ensures
        binding_validation::unresolved_from(right, from, other, declared) is None,
        forall|i: int|
            0 <= i < RValueView::reads_from(left, from).len() ==> visible.union(declared).contains(
                (#[trigger] RValueView::reads_from(left, from)[i]).id,
            ),
    decreases left.len() - from,
{
    if from < left.len() {
        let all = RValueView::reads_from(left, from);
        let mine = left[from].reads();
        let rest = RValueView::reads_from(left, from + 1);
        assert(all == mine + rest);
        assert(mine == right[from].reads());
        let seen = if left[from] is Closure {
            visible.union(declared)
        } else {
            visible
        };
        let seen_other = if right[from] is Closure {
            other.union(declared)
        } else {
            other
        };
        lemma_first(mine, 0, seen, false);
        lemma_first(mine, 0, seen_other, false);
        assert forall|i: int| 0 <= i < mine.len() implies seen_other.contains(
            (#[trigger] mine[i]).id,
        ) by {
            assert(seen.contains(mine[i].id));
            assert(all[i] == mine[i]);
        }
        assert forall|i: int|
            0 <= i < rest.len() && visible.contains((#[trigger] rest[i]).id) implies other.contains(
            rest[i].id,
        ) by {
            assert(all[mine.len() + i] == rest[i]);
        }
        lemma_unresolved(left, right, from + 1, visible, other, declared);
        assert forall|i: int| 0 <= i < all.len() implies visible.union(declared).contains(
            (#[trigger] all[i]).id,
        ) by {
            if i < mine.len() {
                assert(seen.contains(mine[i].id));
            } else {
                assert(all[i] == rest[i - mine.len()]);
            }
        }
    }
}

/// The locals among targets are those that they write.
proof fn lemma_target_locals(targets: Seq<LValueView>, from: int)
    requires
        0 <= from,
    ensures
        LValueView::locals_from(targets, from) == LValueView::writes_from(targets, from),
    decreases targets.len() - from,
{
    if from < targets.len() {
        lemma_target_locals(targets, from + 1);
        assert(LValueView::locals_from(targets, from) =~= LValueView::writes_from(targets, from));
    }
}

/// What a statement reads and writes does not change with expressions that read
/// the same.
proof fn lemma_given(statement: StatementView, roots: Seq<RValueView>)
    requires
        read_alike(statement.roots(), roots),
    ensures
        statement.takes(roots.len() as int),
        statement.with_roots(roots).reads() == statement.reads(),
        statement.with_roots(roots).writes() == statement.writes(),
        statement.with_roots(roots).own_declared() == statement.own_declared(),
        statement matches StatementView::Assign(assign) ==> {
            let made = assign.with_roots(roots);
            &&& LValueView::reads_from(made.left, 0) == LValueView::reads_from(assign.left, 0)
            &&& LValueView::writes_from(made.left, 0) == LValueView::writes_from(assign.left, 0)
            &&& read_alike(assign.right, made.right)
        },
{
    shape_laws::same_roots(statement);
    shape_laws::given_roots(statement, roots);
    rewrite::statements_read_their_expressions(statement);
    rewrite::statements_read_their_expressions(statement.with_roots(roots));
    lemma_reads_alike(statement.roots(), roots, 0);
    match statement {
        StatementView::Assign(assign) | StatementView::NumForInit(assign)
        | StatementView::GenericForInit(assign) => {
            let made = assign.with_roots(roots);
            rewrite::lemma_refilled_writes(assign.left, 0, roots, 0);
            lemma_target_locals(assign.left, 0);
            lemma_target_locals(made.left, 0);
            model::lemma_target_arity(assign.left, 0);
            let arity = LValueView::arity_from(assign.left, 0) as int;
            shape_laws::lemma_refilled_targets(assign.left, 0, roots, 0);
            let old = LValueView::children_from(assign.left, 0);
            let new = roots.subrange(0, arity);
            rewrite::lemma_target_reads(assign.left, 0);
            rewrite::lemma_target_reads(made.left, 0);
            assert forall|i: int| 0 <= i < old.len() implies (#[trigger] old[i]).reads()
                == new[i].reads() && (old[i] is Closure) == (new[i] is Closure) by {
                assert(statement.roots()[i] == old[i]);
                assert(roots[i] == new[i]);
            }
            lemma_reads_alike(old, new, 0);
            assert forall|i: int| 0 <= i < assign.right.len() implies (
            #[trigger] assign.right[i]).reads() == made.right[i].reads() && (
            assign.right[i] is Closure) == (made.right[i] is Closure) by {
                assert(statement.roots()[arity + i] == assign.right[i]);
                assert(roots[arity + i] == made.right[i]);
            }
        },
        _ => {},
    }
}

proof fn lemma_one_read(value: RValueView)
    ensures
        RValueView::reads_from(seq![value], 0) == value.reads(),
{
    assert(RValueView::reads_from(seq![value], 1) =~= Seq::empty());
    assert(RValueView::reads_from(seq![value], 0) =~= value.reads());
}

/// A statement mentions what it reads and writes.
proof fn lemma_mentions(statement: StatementView)
    ensures
        forall|i: int|
            0 <= i < statement.reads().len() ==> statement.touched().contains(
                #[trigger] statement.reads()[i],
            ),
        forall|i: int|
            0 <= i < statement.writes().len() ==> statement.touched().contains(
                #[trigger] statement.writes()[i],
            ),
{
    let reads = statement.reads();
    let writes = statement.writes();
    let touched = statement.touched();
    assert forall|i: int| 0 <= i < reads.len() implies touched.contains(#[trigger] reads[i]) by {
        assert(touched[i] == reads[i]);
    }
    assert forall|i: int| 0 <= i < writes.len() implies touched.contains(
        #[trigger] writes[i],
    ) by {
        assert(touched[reads.len() + i] == writes[i]);
    }
}

proof fn lemma_no_ids()
    ensures
        binding_validation::ids(Seq::empty()) == Set::<u64>::empty(),
{
    assert(binding_validation::ids(Seq::empty()) =~= Set::empty());
}

/// Uses of a statement find their locals where the same are visible.
proof fn lemma_mentioned_seen(
    statement: StatementView,
    locals: Seq<RcLocal>,
    visible: Set<u64>,
    other: Set<u64>,
    bound: Set<u64>,
)
    requires
        sees_alike(visible, other, statement.touched(), bound),
        locals == statement.reads() || locals == statement.writes(),
    ensures
        forall|i: int|
            0 <= i < locals.len() && visible.contains((#[trigger] locals[i]).id)
                ==> other.contains(locals[i].id),
{
    lemma_mentions(statement);
    assert forall|i: int|
        0 <= i < locals.len() && visible.contains((#[trigger] locals[i]).id) implies other.contains(
        locals[i].id,
    ) by {
        if locals == statement.reads() {
            assert(statement.touched().contains(statement.reads()[i]));
        } else {
            assert(statement.touched().contains(statement.writes()[i]));
        }
        assert(locals[i] == (RcLocal { id: locals[i].id }));
    }
}

/// An assignment has no fault where the same is visible.
proof fn lemma_assign_transferred(
    assign: AssignView,
    made: AssignView,
    visible: Set<u64>,
    other: Set<u64>,
    at: nat,
    to: nat,
)
    requires
        assign.scoped(visible, at) is Ok,
        sees_alike(
            visible,
            other,
            StatementView::Assign(assign).touched(),
            binding_validation::ids(StatementView::Assign(assign).own_declared()),
        ),
        made.prefix == assign.prefix,
        LValueView::reads_from(made.left, 0) == LValueView::reads_from(assign.left, 0),
        LValueView::writes_from(made.left, 0) == LValueView::writes_from(assign.left, 0),
        read_alike(assign.right, made.right),
    ensures
        ({
            let declared = binding_validation::ids(StatementView::Assign(assign).own_declared());
            &&& assign.scoped(visible, at) == binding_validation::Scoped::Ok(
                visible.union(declared),
            )
            &&& made.scoped(other, to) == binding_validation::Scoped::Ok(other.union(declared))
        }),
{
    let statement = StatementView::Assign(assign);
    let bound = binding_validation::ids(statement.own_declared());
    lemma_reads_alike(assign.right, made.right, 0);
    lemma_mentioned_seen(statement, assign.reads(), visible, other, bound);
    lemma_mentioned_seen(statement, assign.writes(), visible, other, bound);
    lemma_target_locals(assign.left, 0);
    if !assign.prefix {
        lemma_needing(
            assign.reads(),
            visible,
            other,
            binding_validation::BindingAccess::Read,
            at,
            to,
        );
        lemma_needing(
            assign.writes(),
            visible,
            other,
            binding_validation::BindingAccess::Write,
            at,
            to,
        );
        lemma_no_ids();
        assert(visible.union(Set::empty()) =~= visible);
        assert(other.union(Set::empty()) =~= other);
    } else {
        let first = LValueView::reads_from(assign.left, 0);
        let second = RValueView::reads_from(assign.right, 0);
        let declared = LValueView::writes_from(assign.left, 0);
        assert forall|i: int|
            0 <= i < first.len() && visible.contains((#[trigger] first[i]).id) implies other.contains(
            first[i].id,
        ) by {
            assert(assign.reads()[i] == first[i]);
        }
        assert forall|i: int|
            0 <= i < second.len() && visible.contains(
                (#[trigger] second[i]).id,
            ) implies other.contains(second[i].id) by {
            assert(assign.reads()[first.len() + i] == second[i]);
        }
        lemma_needing(first, visible, other, binding_validation::BindingAccess::Read, at, to);
        lemma_unresolved(
            assign.right,
            made.right,
            0,
            visible,
            other,
            binding_validation::ids(declared),
        );
        lemma_first(declared, 0, visible, true);
        lemma_first(declared, 0, other, true);
        assert forall|i: int| 0 <= i < declared.len() implies !other.contains(
            (#[trigger] declared[i]).id,
        ) by {
            assert(!visible.contains(declared[i].id));
            assert(bound.contains(declared[i].id));
        }
    }
}

/// A statement has no fault where the same is visible as where it has none,
/// whatever its blocks are, as long as those have none.
proof fn lemma_transferred(
    statement: StatementView,
    roots: Seq<RValueView>,
    blocks: Seq<Seq<StatementView>>,
    visible: Set<u64>,
    other: Set<u64>,
    at: nat,
    to: nat,
)
    requires
        statement.scoped(visible, at) is Ok,
        sees_alike(
            visible,
            other,
            statement.touched(),
            binding_validation::ids(statement.own_declared()).union(statement.inner_bound()),
        ),
        read_alike(statement.roots(), roots),
        blocks.len() == statement.blocks().len(),
        forall|k: int|
            0 <= k < blocks.len() ==> StatementView::scoped_from(
                #[trigger] blocks[k],
                0,
                other.union(statement.loop_bound()),
            ) is Ok,
        statement matches StatementView::Repeat { condition, .. } ==> forall|i: int|
            0 <= i < condition.reads().len() ==> StatementView::scoped_from(
                blocks[0],
                0,
                other.union(statement.loop_bound()),
            )->Ok_0.contains((#[trigger] condition.reads()[i]).id),
    ensures
        statement.scoped(visible, at) == binding_validation::Scoped::Ok(
            visible.union(binding_validation::ids(statement.own_declared())),
        ),
        statement.with_roots(roots).with_blocks(blocks).scoped(other, to)
            == binding_validation::Scoped::Ok(
            other.union(binding_validation::ids(statement.own_declared())),
        ),
{
    let bound = binding_validation::ids(statement.own_declared()).union(statement.inner_bound());
    let made = statement.with_roots(roots).with_blocks(blocks);
    let read = binding_validation::BindingAccess::Read;
    lemma_given(statement, roots);
    shape_laws::same_roots(statement);
    shape_laws::given_roots(statement, roots);
    lemma_mentioned_seen(statement, statement.reads(), visible, other, bound);
    lemma_mentioned_seen(statement, statement.writes(), visible, other, bound);
    lemma_no_ids();
    assert(visible.union(Set::empty()) =~= visible);
    assert(other.union(Set::empty()) =~= other);
    match statement {
        StatementView::Assign(assign) => {
            lemma_assign_transferred(
                assign,
                assign.with_roots(roots),
                visible,
                other,
                at,
                to,
            );
        },
        StatementView::Class(class) => {
            let id = class.target.id;
            assert(statement.own_declared()[0].id == id);
            assert(bound.contains(id));
            assert(!other.contains(id));
            lemma_needing(
                statement.reads(),
                visible.insert(id),
                other.insert(id),
                read,
                at,
                to,
            );
            let declared = binding_validation::ids(statement.own_declared());
            assert(declared =~= set![id]) by {
                assert forall|x: u64| declared.contains(x) == (x == id) by {
                    if x == id {
                        assert(statement.own_declared()[0].id == x);
                    }
                }
            }
            assert(visible.insert(id) =~= visible.union(declared));
            assert(other.insert(id) =~= other.union(declared));
        },
        StatementView::If { condition, .. } => {
            lemma_one_read(condition);
            assert(statement.roots()[0] == condition);
            assert(roots[0].reads() == condition.reads());
            lemma_needing(condition.reads(), visible, other, read, at, to);
            assert(StatementView::scoped_from(blocks[0], 0, other) is Ok);
            assert(StatementView::scoped_from(blocks[1], 0, other) is Ok);
        },
        StatementView::While { condition, .. } => {
            lemma_one_read(condition);
            assert(statement.roots()[0] == condition);
            assert(roots[0].reads() == condition.reads());
            lemma_needing(condition.reads(), visible, other, read, at, to);
            assert(StatementView::scoped_from(blocks[0], 0, other) is Ok);
        },
        StatementView::Do(_) => {
            assert(StatementView::scoped_from(blocks[0], 0, other) is Ok);
        },
        StatementView::Repeat { condition, .. } => {
            assert(statement.roots()[0] == condition);
            assert(roots[0].reads() == condition.reads());
            assert(StatementView::scoped_from(blocks[0], 0, other) is Ok);
            let inside = StatementView::scoped_from(blocks[0], 0, other)->Ok_0;
            lemma_first(condition.reads(), 0, inside, false);
        },
        StatementView::NumericFor { counter, .. } => {
            lemma_needing(statement.reads(), visible, other, read, at, to);
            let locals = seq![counter];
            assert forall|i: int|
                0 <= i < locals.len() && other.contains(
                    (#[trigger] locals[i]).id,
                ) implies visible.contains(locals[i].id) by {
                assert(statement.loop_bound().contains(locals[i].id));
                assert(bound.contains(locals[i].id));
            }
            lemma_in_turn(locals, 0, visible, other, at, to);
            assert(locals.skip(0) =~= locals);
            assert(StatementView::scoped_from(
                blocks[0],
                0,
                other.union(statement.loop_bound()),
            ) is Ok);
        },
        StatementView::GenericFor { res_locals, .. } => {
            lemma_needing(statement.reads(), visible, other, read, at, to);
            assert forall|i: int|
                0 <= i < res_locals.len() && other.contains(
                    (#[trigger] res_locals[i]).id,
                ) implies visible.contains(res_locals[i].id) by {
                assert(statement.loop_bound().contains(res_locals[i].id));
                assert(bound.contains(res_locals[i].id));
            }
            lemma_in_turn(res_locals, 0, visible, other, at, to);
            assert(res_locals.skip(0) =~= res_locals);
            assert(StatementView::scoped_from(
                blocks[0],
                0,
                other.union(statement.loop_bound()),
            ) is Ok);
        },
        _ => {
            lemma_needing(statement.reads(), visible, other, read, at, to);
            lemma_needing(
                statement.writes(),
                visible,
                other,
                binding_validation::BindingAccess::Write,
                at,
                to,
            );
        },
    }
}

/// Where a statement has no fault, neither have its blocks, and what the
/// condition of a repeat loop reads is visible past the body.
proof fn lemma_nested_faultless(statement: StatementView, visible: Set<u64>, at: nat)
    requires
        statement.scoped(visible, at) is Ok,
    ensures
        forall|k: int|
            0 <= k < statement.blocks().len() ==> StatementView::scoped_from(
                #[trigger] statement.blocks()[k],
                0,
                visible.union(statement.loop_bound()),
            ) is Ok,
        statement matches StatementView::Repeat { condition, .. } ==> forall|i: int|
            0 <= i < condition.reads().len() ==> StatementView::scoped_from(
                statement.blocks()[0],
                0,
                visible.union(statement.loop_bound()),
            )->Ok_0.contains((#[trigger] condition.reads()[i]).id),
{
    assert(visible.union(Set::empty()) =~= visible);
    match statement {
        StatementView::Repeat { condition, block } => {
            assert(statement.blocks()[0] == block);
            let inside = StatementView::scoped_from(block, 0, visible)->Ok_0;
            lemma_first(condition.reads(), 0, inside, false);
        },
        StatementView::NumericFor { counter, .. } => {
            lemma_in_turn(seq![counter], 0, visible, visible, at, at);
            assert(seq![counter].skip(0) =~= seq![counter]);
        },
        StatementView::GenericFor { res_locals, .. } => {
            lemma_in_turn(res_locals, 0, visible, visible, at, at);
            assert(res_locals.skip(0) =~= res_locals);
        },
        _ => {},
    }
}

/// What is mentioned from a position on is mentioned by a statement there, and
/// the other way round.
proof fn lemma_touched_from(statements: Seq<StatementView>, from: int, local: RcLocal)
    requires
        0 <= from,
    ensures
        StatementView::touched_from(statements, from).contains(local) <==> exists|i: int|
            from <= i < statements.len() && (#[trigger] statements[i]).touched().contains(local),
    decreases statements.len() - from,
{
    if from < statements.len() {
        lemma_touched_from(statements, from + 1, local);
        let first = statements[from].touched();
        let rest = StatementView::touched_from(statements, from + 1);
        let all = StatementView::touched_from(statements, from);
        assert(all == first + rest);
        if all.contains(local) {
            let k = choose|k: int| 0 <= k < all.len() && all[k] == local;
            if k < first.len() {
                assert(first[k] == local);
                assert(statements[from].touched().contains(local));
            } else {
                assert(rest[k - first.len()] == local);
            }
        }
        if first.contains(local) {
            let k = choose|k: int| 0 <= k < first.len() && first[k] == local;
            assert(all[k] == local);
        }
        if rest.contains(local) {
            let k = choose|k: int| 0 <= k < rest.len() && rest[k] == local;
            assert(all[first.len() + k] == local);
        }
        if exists|i: int|
            from <= i < statements.len() && (#[trigger] statements[i]).touched().contains(local) {
            let i = choose|i: int|
                from <= i < statements.len() && (#[trigger] statements[i]).touched().contains(
                    local,
                );
            if i > from {
                assert(from + 1 <= i);
            }
        }
    }
}

proof fn lemma_bound_from(statements: Seq<StatementView>, from: int, id: u64)
    requires
        0 <= from,
    ensures
        StatementView::bound_from(statements, from).contains(id) <==> exists|i: int|
            from <= i < statements.len() && ((binding_validation::ids(
                (#[trigger] statements[i]).own_declared(),
            )).contains(id) || statements[i].inner_bound().contains(id)),
    decreases statements.len() - from,
{
    if from < statements.len() {
        lemma_bound_from(statements, from + 1, id);
        if exists|i: int|
            from <= i < statements.len() && ((binding_validation::ids(
                (#[trigger] statements[i]).own_declared(),
            )).contains(id) || statements[i].inner_bound().contains(id)) {
            let i = choose|i: int|
                from <= i < statements.len() && ((binding_validation::ids(
                    (#[trigger] statements[i]).own_declared(),
                )).contains(id) || statements[i].inner_bound().contains(id));
            if i > from {
                assert(from + 1 <= i);
            }
        }
    }
}

proof fn lemma_declared_member(statements: Seq<StatementView>, from: int, id: u64)
    requires
        0 <= from,
    ensures
        StatementView::own_declared_from(statements, from).contains(id) <==> exists|i: int|
            from <= i < statements.len() && binding_validation::ids(
                (#[trigger] statements[i]).own_declared(),
            ).contains(id),
    decreases statements.len() - from,
{
    if from < statements.len() {
        lemma_declared_member(statements, from + 1, id);
        if exists|i: int|
            from <= i < statements.len() && binding_validation::ids(
                (#[trigger] statements[i]).own_declared(),
            ).contains(id) {
            let i = choose|i: int|
                from <= i < statements.len() && binding_validation::ids(
                    (#[trigger] statements[i]).own_declared(),
                ).contains(id);
            if i > from {
                assert(from + 1 <= i);
            }
        }
    }
}

proof fn lemma_blocks_free(
    blocks: Seq<Seq<StatementView>>,
    from: int,
    budget: usize,
    depth: usize,
    pinned: Set<u64>,
)
    requires
        0 <= from,
    ensures
        StatementView::blocks_move_freely(blocks, from, budget, depth, pinned) <==> forall|k: int|
            from <= k < blocks.len() ==> StatementView::block_moves_freely(
                #[trigger] blocks[k],
                budget,
                depth,
                pinned,
            ),
    decreases blocks.len() - from,
{
    if from < blocks.len() {
        lemma_blocks_free(blocks, from + 1, budget, depth, pinned);
        if StatementView::blocks_move_freely(blocks, from, budget, depth, pinned) {
            assert forall|k: int|
                from <= k < blocks.len() implies StatementView::block_moves_freely(
                #[trigger] blocks[k],
                budget,
                depth,
                pinned,
            ) by {
                if k > from {
                    assert(from + 1 <= k);
                }
            }
        }
    }
}

/// What a nested block mentions and binds, the statement that holds it mentions
/// and binds.
proof fn lemma_nested_part(statement: StatementView, k: int)
    requires
        0 <= k < statement.blocks().len(),
    ensures
        forall|local: RcLocal| #[trigger]
            StatementView::touched_from(statement.blocks()[k], 0).contains(local)
                ==> statement.touched().contains(local),
        StatementView::bound_from(statement.blocks()[k], 0).subset_of(statement.inner_bound()),
{
    let blocks = statement.blocks();
    lemma_blocks_part(blocks, 0, k);
    let rest = StatementView::blocks_touched(blocks, 0);
    let front = statement.locals() + RValueView::touched_from(statement.rvalues(), 0);
    assert(statement.touched() == front + rest);
    assert forall|local: RcLocal| #[trigger]
        StatementView::touched_from(blocks[k], 0).contains(local) implies
        statement.touched().contains(local) by {
        assert(rest.contains(local));
        let i = choose|i: int| 0 <= i < rest.len() && rest[i] == local;
        assert(statement.touched()[front.len() + i] == local);
    }
}

proof fn lemma_blocks_part(blocks: Seq<Seq<StatementView>>, from: int, k: int)
    requires
        0 <= from <= k < blocks.len(),
    ensures
        forall|local: RcLocal| #[trigger]
            StatementView::touched_from(blocks[k], 0).contains(local)
                ==> StatementView::blocks_touched(blocks, from).contains(local),
        StatementView::bound_from(blocks[k], 0).subset_of(
            StatementView::blocks_bound(blocks, from),
        ),
    decreases k - from,
{
    let first = StatementView::touched_from(blocks[from], 0);
    let rest = StatementView::blocks_touched(blocks, from + 1);
    let all = StatementView::blocks_touched(blocks, from);
    assert(all == first + rest);
    if from < k {
        lemma_blocks_part(blocks, from + 1, k);
    }
    assert forall|local: RcLocal| #[trigger]
        StatementView::touched_from(blocks[k], 0).contains(local) implies all.contains(local) by {
        if from < k {
            assert(rest.contains(local));
            let i = choose|i: int| 0 <= i < rest.len() && rest[i] == local;
            assert(all[first.len() + i] == local);
        } else {
            let i = choose|i: int| 0 <= i < first.len() && first[i] == local;
            assert(all[i] == local);
        }
    }
}

/// A nested block sees alike where the statement that holds it does.
proof fn lemma_nested_alike(
    statement: StatementView,
    visible: Set<u64>,
    other: Set<u64>,
    k: int,
)
    requires
        0 <= k < statement.blocks().len(),
        sees_alike(
            visible,
            other,
            statement.touched(),
            binding_validation::ids(statement.own_declared()).union(statement.inner_bound()),
        ),
    ensures
        sees_alike(
            visible.union(statement.loop_bound()),
            other.union(statement.loop_bound()),
            StatementView::touched_from(statement.blocks()[k], 0),
            StatementView::bound_from(statement.blocks()[k], 0),
        ),
{
    lemma_nested_part(statement, k);
    let block = statement.blocks()[k];
    let more = other.union(statement.loop_bound());
    assert forall|id: u64|
        visible.union(statement.loop_bound()).contains(id) && StatementView::touched_from(
            block,
            0,
        ).contains(RcLocal { id }) implies #[trigger] more.contains(id) by {
        if visible.contains(id) {
            assert(statement.touched().contains(RcLocal { id }));
            assert(other.contains(id));
        }
    }
    assert forall|id: u64| #[trigger]
        more.contains(id) && !visible.union(statement.loop_bound()).contains(id) implies
        !StatementView::bound_from(block, 0).contains(id) by {
        assert(other.contains(id));
    }
}

/// A statement has no fault where the same is visible as where it has none.
proof fn lemma_transfer_statement(
    statement: StatementView,
    visible: Set<u64>,
    other: Set<u64>,
    at: nat,
    to: nat,
)
    requires
        statement.scoped(visible, at) is Ok,
        sees_alike(
            visible,
            other,
            statement.touched(),
            binding_validation::ids(statement.own_declared()).union(statement.inner_bound()),
        ),
    ensures
        statement.scoped(visible, at) == binding_validation::Scoped::Ok(
            visible.union(binding_validation::ids(statement.own_declared())),
        ),
        statement.scoped(other, to) == binding_validation::Scoped::Ok(
            other.union(binding_validation::ids(statement.own_declared())),
        ),
    decreases statement.size(), 0int,
{
    model::lemma_nested_smaller(statement);
    lemma_nested_faultless(statement, visible, at);
    let inner = visible.union(statement.loop_bound());
    let inside = other.union(statement.loop_bound());
    assert forall|k: int| 0 <= k < statement.blocks().len() implies StatementView::scoped_from(
        #[trigger] statement.blocks()[k],
        0,
        inside,
    ) is Ok by {
        lemma_nested_alike(statement, visible, other, k);
        lemma_transfer_block(statement.blocks()[k], 0, inner, inside);
    }
    if let StatementView::Repeat { condition, block } = statement {
        assert(statement.blocks()[0] == block);
        lemma_nested_alike(statement, visible, other, 0);
        lemma_transfer_block(block, 0, inner, inside);
        lemma_one_read(condition);
        lemma_mentions(statement);
        assert forall|i: int| 0 <= i < condition.reads().len() implies StatementView::scoped_from(
            block,
            0,
            inside,
        )->Ok_0.contains((#[trigger] condition.reads()[i]).id) by {
            let id = condition.reads()[i].id;
            assert(StatementView::scoped_from(block, 0, inner)->Ok_0.contains(id));
            assert(statement.reads()[i] == condition.reads()[i]);
            assert(statement.touched().contains(statement.reads()[i]));
            assert(condition.reads()[i] == (RcLocal { id }));
            if visible.contains(id) {
                assert(other.contains(id));
            }
        }
    }
    shape_laws::same_roots(statement);
    shape_laws::same_blocks(statement);
    lemma_transferred(
        statement,
        statement.roots(),
        statement.blocks(),
        visible,
        other,
        at,
        to,
    );
}

/// Statements have no fault where the same is visible as where they have none.
proof fn lemma_transfer_block(
    block: Seq<StatementView>,
    from: int,
    visible: Set<u64>,
    other: Set<u64>,
)
    requires
        0 <= from <= block.len(),
        StatementView::scoped_from(block, from, visible) is Ok,
        sees_alike(
            visible,
            other,
            StatementView::touched_from(block, from),
            StatementView::bound_from(block, from),
        ),
    ensures
        StatementView::scoped_from(block, from, visible) == binding_validation::Scoped::Ok(
            visible.union(StatementView::own_declared_from(block, from)),
        ),
        StatementView::scoped_from(block, from, other) == binding_validation::Scoped::Ok(
            other.union(StatementView::own_declared_from(block, from)),
        ),
    decreases StatementView::sizes_from(block, from), 1int,
{
    model::lemma_statement_sizes_step(block, from);
    if from < block.len() {
        lemma_alike_step(block, from, visible, other);
        lemma_transfer_statement(block[from], visible, other, from as nat, from as nat);
        let declared = binding_validation::ids(block[from].own_declared());
        let rest = StatementView::own_declared_from(block, from + 1);
        lemma_transfer_block(block, from + 1, visible.union(declared), other.union(declared));
        assert(visible.union(declared).union(rest) =~= visible.union(
            StatementView::own_declared_from(block, from),
        ));
        assert(other.union(declared).union(rest) =~= other.union(
            StatementView::own_declared_from(block, from),
        ));
    } else {
        assert(visible.union(Set::empty()) =~= visible);
        assert(other.union(Set::empty()) =~= other);
    }
}

/// What sees alike from a position on does so at the statement there, and past
/// it.
proof fn lemma_alike_step(
    block: Seq<StatementView>,
    from: int,
    visible: Set<u64>,
    other: Set<u64>,
)
    requires
        0 <= from < block.len(),
        sees_alike(
            visible,
            other,
            StatementView::touched_from(block, from),
            StatementView::bound_from(block, from),
        ),
    ensures
        sees_alike(
            visible,
            other,
            block[from].touched(),
            binding_validation::ids(block[from].own_declared()).union(block[from].inner_bound()),
        ),
        ({
            let declared = binding_validation::ids(block[from].own_declared());
            sees_alike(
                visible.union(declared),
                other.union(declared),
                StatementView::touched_from(block, from + 1),
                StatementView::bound_from(block, from + 1),
            )
        }),
{
    let first = block[from].touched();
    let rest = StatementView::touched_from(block, from + 1);
    let all = StatementView::touched_from(block, from);
    assert(all == first + rest);
    assert forall|local: RcLocal| #[trigger] first.contains(local) implies all.contains(local) by {
        let k = choose|k: int| 0 <= k < first.len() && first[k] == local;
        assert(all[k] == local);
    }
    assert forall|local: RcLocal| #[trigger] rest.contains(local) implies all.contains(local) by {
        let k = choose|k: int| 0 <= k < rest.len() && rest[k] == local;
        assert(all[first.len() + k] == local);
    }
    let declared = binding_validation::ids(block[from].own_declared());
    let more = other.union(declared);
    assert forall|id: u64|
        visible.union(declared).contains(id) && rest.contains(RcLocal { id }) implies
        #[trigger] more.contains(id) by {
        if visible.contains(id) {
            assert(all.contains(RcLocal { id }));
            assert(other.contains(id));
        }
    }
    assert forall|id: u64| #[trigger]
        more.contains(id) && !visible.union(declared).contains(id) implies
        !StatementView::bound_from(block, from + 1).contains(id) by {
        assert(other.contains(id));
    }
}

/// A statement without a fault has none wherever it stands.
proof fn lemma_known(statement: StatementView, visible: Set<u64>, at: nat, to: nat)
    requires
        statement.scoped(visible, at) is Ok,
    ensures
        statement.scoped(visible, at) == binding_validation::Scoped::Ok(
            visible.union(binding_validation::ids(statement.own_declared())),
        ),
        statement.scoped(visible, to) == statement.scoped(visible, at),
{
    lemma_transfer_statement(statement, visible, visible, at, to);
}

proof fn lemma_scoped_shift(
    left: Seq<StatementView>,
    right: Seq<StatementView>,
    from: int,
    visible: Set<u64>,
)
    requires
        0 <= from <= right.len(),
        StatementView::scoped_from(right, from, visible) is Ok,
    ensures
        StatementView::scoped_from(left + right, left.len() + from, visible)
            == StatementView::scoped_from(right, from, visible),
    decreases right.len() - from,
{
    if from < right.len() {
        assert((left + right)[left.len() + from] == right[from]);
        lemma_known(right[from], visible, from as nat, (left.len() + from) as nat);
        let next = right[from].scoped(visible, from as nat)->Ok_0;
        lemma_scoped_shift(left, right, from + 1, next);
    }
}

proof fn lemma_scoped_join(
    left: Seq<StatementView>,
    right: Seq<StatementView>,
    from: int,
    visible: Set<u64>,
)
    requires
        0 <= from <= left.len(),
        StatementView::scoped_from(left, from, visible) is Ok,
        StatementView::scoped_from(
            right,
            0,
            StatementView::scoped_from(left, from, visible)->Ok_0,
        ) is Ok,
    ensures
        StatementView::scoped_from(left + right, from, visible) == StatementView::scoped_from(
            right,
            0,
            StatementView::scoped_from(left, from, visible)->Ok_0,
        ),
    decreases left.len() - from,
{
    if from < left.len() {
        assert((left + right)[from] == left[from]);
        let next = left[from].scoped(visible, from as nat)->Ok_0;
        lemma_scoped_join(left, right, from + 1, next);
    } else {
        lemma_scoped_shift(left, right, 0, visible);
    }
}

/// One statement before others.
proof fn lemma_scoped_first(
    statement: StatementView,
    rest: Seq<StatementView>,
    visible: Set<u64>,
    at: nat,
)
    requires
        statement.scoped(visible, at) is Ok,
        StatementView::scoped_from(rest, 0, statement.scoped(visible, at)->Ok_0) is Ok,
    ensures
        StatementView::scoped_from(seq![statement] + rest, 0, visible)
            == StatementView::scoped_from(rest, 0, statement.scoped(visible, at)->Ok_0),
{
    lemma_known(statement, visible, at, 0);
    let one = seq![statement];
    assert(one[0] == statement);
    let next = statement.scoped(visible, at)->Ok_0;
    assert(StatementView::scoped_from(one, 1, next) == binding_validation::Scoped::Ok(next));
    assert(StatementView::scoped_from(one, 0, visible) == binding_validation::Scoped::Ok(next));
    lemma_scoped_join(one, rest, 0, visible);
}

/// The locals that the statements before `to` from `from` on declare.
spec fn declared_between(block: Seq<StatementView>, from: int, to: int) -> Set<u64>
    decreases to - from,
{
    if from < to {
        binding_validation::ids(block[from].own_declared()).union(
            declared_between(block, from + 1, to),
        )
    } else {
        Set::empty()
    }
}

proof fn lemma_between(block: Seq<StatementView>, from: int, to: int, id: u64)
    ensures
        declared_between(block, from, to).contains(id) <==> exists|i: int|
            from <= i < to && binding_validation::ids(
                (#[trigger] block[i]).own_declared(),
            ).contains(id),
    decreases to - from,
{
    if from < to {
        lemma_between(block, from + 1, to, id);
        if exists|i: int|
            from <= i < to && binding_validation::ids(
                (#[trigger] block[i]).own_declared(),
            ).contains(id) {
            let i = choose|i: int|
                from <= i < to && binding_validation::ids(
                    (#[trigger] block[i]).own_declared(),
                ).contains(id);
            if i > from {
                assert(from + 1 <= i);
            }
        }
    }
}

/// A part of a block has no fault where the block has none, nor has what comes
/// after it.
proof fn lemma_part(block: Seq<StatementView>, from: int, to: int, visible: Set<u64>)
    requires
        0 <= from <= to <= block.len(),
        StatementView::scoped_from(block, from, visible) is Ok,
    ensures
        StatementView::scoped_from(block.subrange(from, to), 0, visible)
            == binding_validation::Scoped::Ok(visible.union(declared_between(block, from, to))),
        StatementView::scoped_from(block, to, visible.union(declared_between(block, from, to)))
            is Ok,
    decreases to - from,
{
    if from < to {
        let declared = binding_validation::ids(block[from].own_declared());
        let rest = declared_between(block, from + 1, to);
        lemma_known(block[from], visible, from as nat, 0);
        lemma_part(block, from + 1, to, visible.union(declared));
        assert(visible.union(declared).union(rest) =~= visible.union(
            declared_between(block, from, to),
        ));
        assert(block.subrange(from, to) =~= seq![block[from]] + block.subrange(from + 1, to));
        lemma_scoped_first(block[from], block.subrange(from + 1, to), visible, from as nat);
    } else {
        assert(block.subrange(from, to).len() == 0);
        assert(visible.union(Set::empty()) =~= visible);
    }
}

/// What sees alike from a position on does so past a part of the block.
proof fn lemma_alike_past(
    block: Seq<StatementView>,
    from: int,
    to: int,
    visible: Set<u64>,
    other: Set<u64>,
)
    requires
        0 <= from <= to <= block.len(),
        sees_alike(
            visible,
            other,
            StatementView::touched_from(block, from),
            StatementView::bound_from(block, from),
        ),
    ensures
        ({
            let declared = declared_between(block, from, to);
            sees_alike(
                visible.union(declared),
                other.union(declared),
                StatementView::touched_from(block, to),
                StatementView::bound_from(block, to),
            )
        }),
    decreases to - from,
{
    if from < to {
        let declared = binding_validation::ids(block[from].own_declared());
        let rest = declared_between(block, from + 1, to);
        lemma_alike_step(block, from, visible, other);
        lemma_alike_past(block, from + 1, to, visible.union(declared), other.union(declared));
        let all = declared_between(block, from, to);
        assert(visible.union(declared).union(rest) =~= visible.union(all));
        assert(other.union(declared).union(rest) =~= other.union(all));
    } else {
        assert(visible.union(Set::empty()) =~= visible);
        assert(other.union(Set::empty()) =~= other);
    }
}

/// What a statement declares is not visible before it.
proof fn lemma_fresh(block: Seq<StatementView>, from: int, visible: Set<u64>, j: int)
    requires
        0 <= from <= j < block.len(),
        StatementView::scoped_from(block, from, visible) is Ok,
    ensures
        visible.disjoint(binding_validation::ids(block[j].own_declared())),
    decreases j - from,
{
    let declared = binding_validation::ids(block[from].own_declared());
    if from < j {
        lemma_known(block[from], visible, from as nat, 0);
        lemma_fresh(block, from + 1, visible.union(declared), j);
        assert forall|id: u64| #[trigger] visible.contains(id) implies !binding_validation::ids(
            block[j].own_declared(),
        ).contains(id) by {
            assert(visible.union(declared).contains(id));
        }
    } else {
        let own = block[from].own_declared();
        assert(block[from].scoped(visible, from as nat) is Ok);
        if let StatementView::Assign(assign) = block[from] {
            lemma_target_locals(assign.left, 0);
            if assign.prefix {
                lemma_first(LValueView::writes_from(assign.left, 0), 0, visible, true);
            }
        }
        assert forall|id: u64| #[trigger] visible.contains(id) implies !binding_validation::ids(
            own,
        ).contains(id) by {
            if binding_validation::ids(own).contains(id) {
                let i = choose|i: int| 0 <= i < own.len() && (#[trigger] own[i]).id == id;
                assert(visible.contains(own[i].id));
            }
        }
    }
}

/// A statement binds no local inside it that is visible before it.
proof fn lemma_inner_unseen(statement: StatementView, visible: Set<u64>, at: nat)
    requires
        statement.scoped(visible, at) is Ok,
    ensures
        visible.disjoint(statement.inner_bound()),
    decreases statement.size(), 0int, 0int,
{
    model::lemma_nested_smaller(statement);
    lemma_nested_faultless(statement, visible, at);
    match statement {
        StatementView::NumericFor { counter, .. } => {
            lemma_in_turn(seq![counter], 0, visible, visible, at, at);
            assert(seq![counter].skip(0) =~= seq![counter]);
        },
        StatementView::GenericFor { res_locals, .. } => {
            lemma_in_turn(res_locals, 0, visible, visible, at, at);
            assert(res_locals.skip(0) =~= res_locals);
        },
        _ => {},
    }
    assert(visible.disjoint(statement.loop_bound()));
    let inner = visible.union(statement.loop_bound());
    assert forall|k: int| 0 <= k < statement.blocks().len() implies visible.disjoint(
        StatementView::bound_from(#[trigger] statement.blocks()[k], 0),
    ) by {
        lemma_bound_unseen(statement.blocks()[k], 0, inner);
        assert forall|id: u64| #[trigger] visible.contains(id) implies !StatementView::bound_from(
            statement.blocks()[k],
            0,
        ).contains(id) by {
            assert(inner.contains(id));
        }
    }
    lemma_blocks_unseen(statement.blocks(), 0, visible);
}

proof fn lemma_blocks_unseen(blocks: Seq<Seq<StatementView>>, from: int, visible: Set<u64>)
    requires
        0 <= from,
        forall|k: int|
            from <= k < blocks.len() ==> visible.disjoint(
                StatementView::bound_from(#[trigger] blocks[k], 0),
            ),
    ensures
        visible.disjoint(StatementView::blocks_bound(blocks, from)),
    decreases blocks.len() - from,
{
    if from < blocks.len() {
        lemma_blocks_unseen(blocks, from + 1, visible);
        assert(visible.disjoint(StatementView::bound_from(blocks[from], 0)));
    }
}

/// Statements bind no local that is visible before them.
proof fn lemma_bound_unseen(block: Seq<StatementView>, from: int, visible: Set<u64>)
    requires
        0 <= from <= block.len(),
        StatementView::scoped_from(block, from, visible) is Ok,
    ensures
        visible.disjoint(StatementView::bound_from(block, from)),
    decreases StatementView::sizes_from(block, from), 1int, 0int,
{
    if from < block.len() {
        model::lemma_statement_sizes_step(block, from);
        let next = visible.union(binding_validation::ids(block[from].own_declared()));
        lemma_known(block[from], visible, from as nat, 0);
        lemma_fresh(block, from, visible, from);
        lemma_inner_unseen(block[from], visible, from as nat);
        lemma_bound_unseen(block, from + 1, next);
        assert forall|id: u64| #[trigger] visible.contains(id) implies !StatementView::bound_from(
            block,
            from,
        ).contains(id) by {
            assert(next.contains(id));
        }
    }
}

/// A statement binds no local inside it that one before it declares.
proof fn lemma_inner_fresh(
    block: Seq<StatementView>,
    from: int,
    visible: Set<u64>,
    i: int,
    j: int,
)
    requires
        0 <= from <= i < j < block.len(),
        StatementView::scoped_from(block, from, visible) is Ok,
    ensures
        binding_validation::ids(block[i].own_declared()).disjoint(block[j].inner_bound()),
{
    let declared = binding_validation::ids(block[i].own_declared());
    lemma_part(block, from, j, visible);
    let seen = visible.union(declared_between(block, from, j));
    lemma_inner_unseen(block[j], seen, j as nat);
    assert forall|id: u64| #[trigger] declared.contains(id) implies !block[j].inner_bound().contains(
        id,
    ) by {
        lemma_between(block, from, j, id);
        assert(seen.contains(id));
    }
}

/// A declaration binds nothing inside it.
proof fn lemma_own_inner(statement: StatementView)
    requires
        statement is Assign,
    ensures
        statement.inner_bound() == Set::<u64>::empty(),
{
    assert(statement.blocks().len() == 0);
}

/// No two statements of a block declare one local.
proof fn lemma_declared_once(
    block: Seq<StatementView>,
    from: int,
    visible: Set<u64>,
    i: int,
    j: int,
)
    requires
        0 <= from <= i < j < block.len(),
        StatementView::scoped_from(block, from, visible) is Ok,
    ensures
        binding_validation::ids(block[i].own_declared()).disjoint(
            binding_validation::ids(block[j].own_declared()),
        ),
    decreases i - from,
{
    let declared = binding_validation::ids(block[from].own_declared());
    lemma_known(block[from], visible, from as nat, 0);
    if from < i {
        lemma_declared_once(block, from + 1, visible.union(declared), i, j);
    } else {
        lemma_fresh(block, from + 1, visible.union(declared), j);
        assert forall|id: u64| #[trigger] declared.contains(id) implies !binding_validation::ids(
            block[j].own_declared(),
        ).contains(id) by {
            assert(visible.union(declared).contains(id));
        }
    }
}

proof fn lemma_all_with(members: Seq<u64>, locals: Seq<RcLocal>, id: u64)
    ensures
        name_locals::all_with(members, locals).contains(id) <==> members.contains(id)
            || binding_validation::ids(locals).contains(id),
    decreases locals.len(),
{
    if locals.len() > 0 {
        let fewer = locals.drop_last();
        let list = name_locals::all_with(members, fewer);
        let last = locals.last().id;
        lemma_all_with(members, fewer, id);
        let whole = name_locals::all_with(members, locals);
        if list.contains(id) {
            let k = choose|k: int| 0 <= k < list.len() && list[k] == id;
            assert(whole[k] == id);
        }
        if id == last && !list.contains(last) {
            assert(whole[list.len() as int] == id);
        }
        if whole.contains(id) && !list.contains(id) {
            let k = choose|k: int| 0 <= k < whole.len() && whole[k] == id;
            if k < list.len() {
                assert(list[k] == id);
            }
        }
        if binding_validation::ids(fewer).contains(id) {
            let i = choose|i: int| 0 <= i < fewer.len() && (#[trigger] fewer[i]).id == id;
            assert(locals[i].id == id);
        }
        if id == last {
            assert(locals[locals.len() - 1].id == id);
        }
        if binding_validation::ids(locals).contains(id) && id != last {
            let i = choose|i: int| 0 <= i < locals.len() && (#[trigger] locals[i]).id == id;
            assert(fewer[i].id == id);
        }
    } else {
        lemma_no_ids();
        assert(locals =~= Seq::empty());
    }
}

proof fn lemma_local_targets(locals: Seq<RcLocal>, from: int)
    requires
        0 <= from <= locals.len(),
    ensures
        ({
            let targets = Seq::new(locals.len(), |i: int| LValueView::Local(locals[i]));
            &&& LValueView::writes_from(targets, from) == locals.skip(from)
            &&& LValueView::reads_from(targets, from) == Seq::<RcLocal>::empty()
        }),
    decreases locals.len() - from,
{
    let targets = Seq::new(locals.len(), |i: int| LValueView::Local(locals[i]));
    if from < locals.len() {
        lemma_local_targets(locals, from + 1);
        assert(targets[from].writes() == seq![locals[from]]);
        assert(targets[from].reads() =~= Seq::empty()) by {
            assert(targets[from].children() =~= Seq::empty());
        }
        assert(LValueView::writes_from(targets, from) =~= locals.skip(from));
        assert(LValueView::reads_from(targets, from) =~= Seq::empty());
    } else {
        assert(locals.skip(from) =~= Seq::empty());
    }
}

/// The declaration ahead of a scope has no fault where none of its locals is
/// visible.
proof fn lemma_hoisted(body: Seq<StatementView>, kept: Set<u64>, visible: Set<u64>)
    requires
        visible.disjoint(
            binding_validation::ids(scope_narrowing::hoisted_from(body, 0, kept)),
        ),
    ensures
        StatementView::scoped_from(scope_narrowing::hoisted(body, kept), 0, visible)
            == binding_validation::Scoped::Ok(
            visible.union(
                binding_validation::ids(scope_narrowing::hoisted_from(body, 0, kept)),
            ),
        ),
{
    let list = scope_narrowing::hoisted_from(body, 0, kept);
    let wanted = binding_validation::ids(list);
    let numbers = name_locals::all_with(Seq::empty(), list);
    let locals = Seq::new(numbers.len(), |i: int| RcLocal { id: numbers[i] });
    let declared = binding_validation::ids(locals);
    assert forall|id: u64| wanted.contains(id) == declared.contains(id) by {
        lemma_all_with(Seq::empty(), list, id);
        if wanted.contains(id) {
            let k = choose|k: int| 0 <= k < numbers.len() && numbers[k] == id;
            assert(locals[k].id == id);
        }
        if declared.contains(id) {
            let k = choose|k: int| 0 <= k < locals.len() && (#[trigger] locals[k]).id == id;
            assert(numbers[k] == id);
        }
    }
    assert(wanted =~= declared);
    let hoisted = scope_narrowing::hoisted(body, kept);
    if locals.len() == 0 {
        assert(locals =~= Seq::empty());
        lemma_no_ids();
        assert(visible.union(Set::empty()) =~= visible);
    } else {
        let statement = hoisted[0];
        let assign = statement->Assign_0;
        lemma_local_targets(locals, 0);
        assert(locals.skip(0) =~= locals);
        lemma_first(Seq::empty(), 0, visible, false);
        lemma_first(locals, 0, visible, true);
        assert forall|i: int| 0 <= i < locals.len() implies !visible.contains(
            (#[trigger] locals[i]).id,
        ) by {
            assert(declared.contains(locals[i].id));
        }
        assert(binding_validation::unresolved_from(assign.right, 0, visible, declared) is None);
        assert(statement.scoped(visible, 0) == binding_validation::Scoped::Ok(
            visible.union(declared),
        ));
        let next = visible.union(declared);
        assert(StatementView::scoped_from(hoisted, 1, next) == binding_validation::Scoped::Ok(
            next,
        ));
    }
}

/// A declaration made an assignment has no fault where its locals are visible.
proof fn lemma_bare(assign: AssignView, visible: Set<u64>, other: Set<u64>, at: nat, to: nat)
    requires
        assign.prefix,
        assign.scoped(visible, at) is Ok,
        visible.subset_of(other),
        binding_validation::ids(StatementView::Assign(assign).own_declared()).subset_of(other),
    ensures
        (AssignView { prefix: false, ..assign }).scoped(other, to)
            == binding_validation::Scoped::Ok(other),
{
    let first = LValueView::reads_from(assign.left, 0);
    let second = RValueView::reads_from(assign.right, 0);
    let declared = LValueView::writes_from(assign.left, 0);
    lemma_target_locals(assign.left, 0);
    lemma_first(first, 0, visible, false);
    lemma_unresolved(
        assign.right,
        assign.right,
        0,
        visible,
        visible,
        binding_validation::ids(declared),
    );
    let reads = assign.reads();
    assert forall|i: int| 0 <= i < reads.len() implies other.contains((#[trigger] reads[i]).id) by {
        if i < first.len() {
            assert(reads[i] == first[i]);
        } else {
            assert(reads[i] == second[i - first.len()]);
        }
    }
    assert forall|i: int| 0 <= i < declared.len() implies other.contains(
        (#[trigger] declared[i]).id,
    ) by {
        assert(binding_validation::ids(declared).contains(declared[i].id));
    }
    lemma_first(reads, 0, other, false);
    lemma_first(declared, 0, other, false);
}

/// The locals taken out of a run are those of the declarations taken out.
proof fn lemma_hoisted_from(body: Seq<StatementView>, from: int, kept: Set<u64>, id: u64)
    requires
        0 <= from,
    ensures
        binding_validation::ids(scope_narrowing::hoisted_from(body, from, kept)).contains(id)
            <==> exists|i: int|
            from <= i < body.len() && scope_narrowing::declares_kept(#[trigger] body[i], kept)
                && binding_validation::ids(body[i].own_declared()).contains(id),
    decreases body.len() - from,
{
    let list = scope_narrowing::hoisted_from(body, from, kept);
    if from < body.len() {
        lemma_hoisted_from(body, from + 1, kept, id);
        let rest = scope_narrowing::hoisted_from(body, from + 1, kept);
        let own = body[from].own_declared();
        if scope_narrowing::declares_kept(body[from], kept) {
            assert(list == own + rest);
            if binding_validation::ids(list).contains(id) {
                let k = choose|k: int| 0 <= k < list.len() && (#[trigger] list[k]).id == id;
                if k < own.len() {
                    assert(own[k].id == id);
                } else {
                    assert(rest[k - own.len()].id == id);
                }
            }
            if binding_validation::ids(own).contains(id) {
                let k = choose|k: int| 0 <= k < own.len() && (#[trigger] own[k]).id == id;
                assert(list[k].id == id);
            }
            if binding_validation::ids(rest).contains(id) {
                let k = choose|k: int| 0 <= k < rest.len() && (#[trigger] rest[k]).id == id;
                assert(list[own.len() + k].id == id);
            }
        }
        if exists|i: int|
            from <= i < body.len() && scope_narrowing::declares_kept(#[trigger] body[i], kept)
                && binding_validation::ids(body[i].own_declared()).contains(id) {
            let i = choose|i: int|
                from <= i < body.len() && scope_narrowing::declares_kept(#[trigger] body[i], kept)
                    && binding_validation::ids(body[i].own_declared()).contains(id);
            if i > from {
                assert(from + 1 <= i);
            }
        }
    } else {
        assert(list =~= Seq::empty());
        lemma_no_ids();
    }
}

/// What is left of a run has no fault where what was taken out is visible.
proof fn lemma_split(
    body: Seq<StatementView>,
    from: int,
    kept: Set<u64>,
    hoisted: Set<u64>,
    visible: Set<u64>,
)
    requires
        0 <= from <= body.len(),
        StatementView::scoped_from(body, from, visible) is Ok,
        forall|i: int|
            from <= i < body.len() ==> hoisted.disjoint((#[trigger] body[i]).inner_bound()),
        forall|i: int|
            from <= i < body.len() ==> if scope_narrowing::declares_kept(#[trigger] body[i], kept) {
                binding_validation::ids(body[i].own_declared()).subset_of(hoisted)
            } else {
                hoisted.disjoint(binding_validation::ids(body[i].own_declared()))
            },
    ensures
        StatementView::scoped_from(
            scope_narrowing::split_from(body, from, kept),
            0,
            visible.union(hoisted),
        ) is Ok,
    decreases body.len() - from,
{
    if from < body.len() {
        let statement = body[from];
        let declared = binding_validation::ids(statement.own_declared());
        let rest = scope_narrowing::split_from(body, from + 1, kept);
        let other = visible.union(hoisted);
        lemma_known(statement, visible, from as nat, 0);
        lemma_split(body, from + 1, kept, hoisted, visible.union(declared));
        assert(hoisted.disjoint(body[from].inner_bound()));
        if scope_narrowing::declares_kept(statement, kept) {
            let assign = statement->Assign_0;
            assert(visible.union(declared).union(hoisted) =~= other);
            if assign.right.len() > 0 {
                let bare = StatementView::Assign(AssignView { prefix: false, ..assign });
                lemma_bare(assign, visible, other, from as nat, 0);
                lemma_scoped_first(bare, rest, other, 0);
            }
        } else {
            assert(visible.union(declared).union(hoisted) =~= other.union(declared));
            assert(sees_alike(
                visible,
                other,
                statement.touched(),
                declared.union(statement.inner_bound()),
            ));
            lemma_transfer_statement(statement, visible, other, from as nat, 0);
            lemma_scoped_first(statement, rest, other, 0);
        }
    }
}

/// What is left of a run mentions, declares and binds no more than the run.
proof fn lemma_split_member(
    body: Seq<StatementView>,
    from: int,
    kept: Set<u64>,
    k: int,
) -> (i: int)
    requires
        0 <= from <= body.len(),
        0 <= k < scope_narrowing::split_from(body, from, kept).len(),
    ensures
        from <= i < body.len(),
        ({
            let left = scope_narrowing::split_from(body, from, kept)[k];
            &&& binding_validation::ids(left.own_declared()).subset_of(
                binding_validation::ids(body[i].own_declared()),
            )
            &&& left.inner_bound().subset_of(body[i].inner_bound())
            &&& left.touched() == body[i].touched()
            &&& body[i].binds_in_order() ==> left.binds_in_order()
        }),
    decreases body.len() - from,
{
    let split = scope_narrowing::split_from(body, from, kept);
    let rest = scope_narrowing::split_from(body, from + 1, kept);
    if from < body.len() {
        if split.len() == rest.len() {
            assert(split == rest) by {
                if scope_narrowing::declares_kept(body[from], kept) {
                    if (body[from]->Assign_0).right.len() > 0 {
                        assert(split.len() == rest.len() + 1);
                    }
                } else {
                    assert(split.len() == rest.len() + 1);
                }
            }
            lemma_split_member(body, from + 1, kept, k)
        } else if k > 0 {
            assert(split[k] == rest[k - 1]);
            lemma_split_member(body, from + 1, kept, k - 1)
        } else {
            if scope_narrowing::declares_kept(body[from], kept) {
                let assign = body[from]->Assign_0;
                let bare = StatementView::Assign(AssignView { prefix: false, ..assign });
                assert(split[0] == bare);
                lemma_no_ids();
                assert(bare.blocks() =~= body[from].blocks());
                assert(bare.touched() =~= body[from].touched());
            } else {
                assert(split[0] == body[from]);
            }
            from
        }
    } else {
        0
    }
}

/// What is left of a run binds and mentions no more.
proof fn lemma_split_less(body: Seq<StatementView>, kept: Set<u64>)
    ensures
        ({
            let split = scope_narrowing::split_from(body, 0, kept);
            &&& StatementView::bound_from(split, 0).subset_of(StatementView::bound_from(body, 0))
            &&& forall|local: RcLocal| #[trigger]
                StatementView::touched_from(split, 0).contains(local)
                    ==> StatementView::touched_from(body, 0).contains(local)
        }),
{
    let split = scope_narrowing::split_from(body, 0, kept);
    assert forall|id: u64| #[trigger]
        StatementView::bound_from(split, 0).contains(id) implies StatementView::bound_from(
        body,
        0,
    ).contains(id) by {
        lemma_bound_from(split, 0, id);
        lemma_bound_from(body, 0, id);
        let k = choose|k: int|
            0 <= k < split.len() && ((binding_validation::ids(
                (#[trigger] split[k]).own_declared(),
            )).contains(id) || split[k].inner_bound().contains(id));
        let i = lemma_split_member(body, 0, kept, k);
        assert(binding_validation::ids(body[i].own_declared()).contains(id)
            || body[i].inner_bound().contains(id));
    }
    assert forall|local: RcLocal| #[trigger]
        StatementView::touched_from(split, 0).contains(local) implies StatementView::touched_from(
        body,
        0,
    ).contains(local) by {
        lemma_touched_from(split, 0, local);
        lemma_touched_from(body, 0, local);
        let k = choose|k: int|
            0 <= k < split.len() && (#[trigger] split[k]).touched().contains(local);
        let i = lemma_split_member(body, 0, kept, k);
        assert(body[i].touched().contains(local));
    }
}

proof fn lemma_narrowed_value(value: RValueView)
    ensures
        value.narrowed().reads() == value.reads(),
        (value.narrowed() is Closure) == (value is Closure),
    decreases value.size(), 0int,
{
    model::lemma_children_smaller(value);
    match value {
        RValueView::Closure(_) => {},
        _ => {
            let operands = RValueView::narrowed_from(value.children(), 0);
            lemma_narrowed_values(value.children(), 0);
            assert(value.children().skip(0) =~= value.children());
            lemma_reads_alike(value.children(), operands, 0);
            shape_laws::same_operands(value);
            shape_laws::given_operands(value, operands);
        },
    }
}

proof fn lemma_narrowed_values(values: Seq<RValueView>, from: int)
    requires
        0 <= from <= values.len(),
    ensures
        read_alike(values.skip(from), RValueView::narrowed_from(values, from)),
    decreases RValueView::sizes_from(values, from), 1int,
{
    model::lemma_sizes_step(values, from);
    if from < values.len() {
        lemma_narrowed_value(values[from]);
        lemma_narrowed_values(values, from + 1);
        let old = values.skip(from);
        let new = RValueView::narrowed_from(values, from);
        let rest = RValueView::narrowed_from(values, from + 1);
        assert forall|i: int| 0 <= i < old.len() implies (#[trigger] old[i]).reads()
            == new[i].reads() && (old[i] is Closure) == (new[i] is Closure) by {
            if i > 0 {
                assert(old[i] == values.skip(from + 1)[i - 1]);
                assert(new[i] == rest[i - 1]);
            }
        }
    }
}

proof fn lemma_narrowed_blocks(
    blocks: Seq<Seq<StatementView>>,
    from: int,
    budget: usize,
    depth: usize,
    pinned: Set<u64>,
)
    requires
        0 <= from <= blocks.len(),
    ensures
        ({
            let narrowed = StatementView::narrowed_blocks(blocks, from, budget, depth, pinned);
            &&& narrowed.len() == blocks.len() - from
            &&& forall|k: int|
                0 <= k < narrowed.len() ==> #[trigger] narrowed[k] == StatementView::narrowed_block(
                    blocks[from + k],
                    budget,
                    depth,
                    pinned,
                )
        }),
    decreases blocks.len() - from,
{
    if from < blocks.len() {
        lemma_narrowed_blocks(blocks, from + 1, budget, depth, pinned);
        let narrowed = StatementView::narrowed_blocks(blocks, from, budget, depth, pinned);
        let rest = StatementView::narrowed_blocks(blocks, from + 1, budget, depth, pinned);
        assert forall|k: int| 0 <= k < narrowed.len() implies #[trigger] narrowed[k]
            == StatementView::narrowed_block(blocks[from + k], budget, depth, pinned) by {
            if k > 0 {
                assert(narrowed[k] == rest[k - 1]);
            }
        }
    }
}

/// Whether code has no fault and leaves visible what was, nothing but what it
/// declares besides, and of that all that is pinned.
spec fn leaves(
    scoped: binding_validation::Scoped,
    visible: Set<u64>,
    declared: Set<u64>,
    pinned: Set<u64>,
) -> bool {
    match scoped {
        Ok(out) => {
            &&& visible.subset_of(out)
            &&& out.subset_of(visible.union(declared))
            &&& pinned.intersect(declared).subset_of(out)
        },
        Err(_) => false,
    }
}

proof fn lemma_narrow_statement(
    statement: StatementView,
    budget: usize,
    depth: usize,
    visible: Set<u64>,
    other: Set<u64>,
    at: nat,
    to: nat,
)
    requires
        statement.scoped(visible, at) is Ok,
        sees_alike(
            visible,
            other,
            statement.touched(),
            binding_validation::ids(statement.own_declared()).union(statement.inner_bound()),
        ),
        statement.moves_freely(budget, depth),
    ensures
        statement.narrowed(budget, depth).scoped(other, to) == binding_validation::Scoped::Ok(
            other.union(binding_validation::ids(statement.own_declared())),
        ),
    decreases statement.size(), 0int, 0int,
{
    model::lemma_nested_smaller(statement);
    lemma_nested_faultless(statement, visible, at);
    let (inner_budget, level, pinned) = statement.nested_terms(budget, depth);
    let roots = RValueView::narrowed_from(statement.roots(), 0);
    let blocks = StatementView::narrowed_blocks(
        statement.blocks(),
        0,
        inner_budget,
        level,
        pinned,
    );
    lemma_narrowed_values(statement.roots(), 0);
    assert(statement.roots().skip(0) =~= statement.roots());
    lemma_narrowed_blocks(statement.blocks(), 0, inner_budget, level, pinned);
    lemma_blocks_free(statement.blocks(), 0, inner_budget, level, pinned);
    let inner = visible.union(statement.loop_bound());
    let inside = other.union(statement.loop_bound());
    assert forall|k: int| 0 <= k < blocks.len() implies StatementView::scoped_from(
        #[trigger] blocks[k],
        0,
        inside,
    ) is Ok by {
        lemma_nested_alike(statement, visible, other, k);
        lemma_nested_part(statement, k);
        lemma_narrow_block(
            statement.blocks()[k],
            inner_budget,
            level,
            pinned,
            inner,
            inside,
        );
    }
    if let StatementView::Repeat { condition, block } = statement {
        assert(statement.blocks()[0] == block);
        lemma_nested_alike(statement, visible, other, 0);
        lemma_nested_part(statement, 0);
        lemma_narrow_block(block, inner_budget, level, pinned, inner, inside);
        lemma_transfer_block(block, 0, inner, inside);
        lemma_one_read(condition);
        lemma_mentions(statement);
        let out = StatementView::scoped_from(blocks[0], 0, inside)->Ok_0;
        assert forall|i: int| 0 <= i < condition.reads().len() implies out.contains(
            (#[trigger] condition.reads()[i]).id,
        ) by {
            let id = condition.reads()[i].id;
            assert(StatementView::scoped_from(block, 0, inner)->Ok_0.contains(id));
            assert(statement.reads()[i] == condition.reads()[i]);
            assert(statement.touched().contains(statement.reads()[i]));
            assert(condition.reads()[i] == (RcLocal { id }));
            if visible.contains(id) {
                assert(other.contains(id));
            } else {
                assert(pinned.contains(id));
                assert(StatementView::own_declared_from(block, 0).contains(id));
                assert(pinned.intersect(StatementView::own_declared_from(block, 0)).contains(id));
            }
        }
    }
    lemma_transferred(statement, roots, blocks, visible, other, at, to);
}

proof fn lemma_narrow_range(
    block: Seq<StatementView>,
    at: int,
    to: int,
    budget: usize,
    depth: usize,
    visible: Set<u64>,
    other: Set<u64>,
)
    requires
        0 <= at <= to <= block.len(),
        StatementView::scoped_from(block, at, visible) is Ok,
        sees_alike(
            visible,
            other,
            StatementView::touched_from(block, at),
            StatementView::bound_from(block, at),
        ),
        StatementView::range_moves_freely(block, at, to, budget, depth),
    ensures
        StatementView::scoped_from(
            StatementView::narrowed_range(block, at, to, budget, depth),
            0,
            other,
        ) == binding_validation::Scoped::Ok(other.union(declared_between(block, at, to))),
    decreases StatementView::sizes_from(block, 0), 2int, to - at,
{
    if at < to {
        model::lemma_statement_sizes_member(block, 0, at);
        let declared = binding_validation::ids(block[at].own_declared());
        let rest = StatementView::narrowed_range(block, at + 1, to, budget, depth);
        lemma_alike_step(block, at, visible, other);
        lemma_known(block[at], visible, at as nat, 0);
        lemma_narrow_statement(block[at], budget, depth, visible, other, at as nat, 0);
        lemma_narrow_range(
            block,
            at + 1,
            to,
            budget,
            depth,
            visible.union(declared),
            other.union(declared),
        );
        lemma_scoped_first(block[at].narrowed(budget, depth), rest, other, 0);
        assert(other.union(declared).union(declared_between(block, at + 1, to)) =~= other.union(
            declared_between(block, at, to),
        ));
    } else {
        assert(other.union(Set::empty()) =~= other);
    }
}

proof fn lemma_narrow_block(
    block: Seq<StatementView>,
    budget: usize,
    depth: usize,
    pinned: Set<u64>,
    visible: Set<u64>,
    other: Set<u64>,
)
    requires
        StatementView::scoped_from(block, 0, visible) is Ok,
        sees_alike(
            visible,
            other,
            StatementView::touched_from(block, 0),
            StatementView::bound_from(block, 0),
        ),
        StatementView::block_moves_freely(block, budget, depth, pinned),
    ensures
        leaves(
            StatementView::scoped_from(
                StatementView::narrowed_block(block, budget, depth, pinned),
                0,
                other,
            ),
            other,
            StatementView::own_declared_from(block, 0),
            pinned,
        ),
    decreases StatementView::sizes_from(block, 0), 4int, 0int,
{
    let total = scope_narrowing::counted(block, 0, block.len() as int);
    if depth < scope_narrowing::MAX_ADDED_DEPTH && scope_narrowing::is_grouped(
        block,
        budget,
        pinned,
    ) {
        let bound = scope_narrowing::class_targets(block);
        let kept = scope_narrowing::kept_back(block, budget, pinned, bound);
        scope_narrowing::lemma_kept_back(block, budget, pinned, bound);
        let runs = scope_narrowing::runs_of(block, kept);
        let held = scope_narrowing::lowered(
            total,
            scope_narrowing::relieved_from(block, runs, 0, kept) as nat,
        );
        scope_narrowing::runs_hold_their_locals(block, kept);
        lemma_narrow_grouped(
            block,
            runs,
            0,
            0,
            kept,
            pinned,
            scope_narrowing::left_over(budget, held),
            depth,
            visible,
            other,
        );
    } else {
        lemma_narrow_range(
            block,
            0,
            block.len() as int,
            scope_narrowing::left_over(budget, total),
            depth,
            visible,
            other,
        );
        lemma_between_all(block, 0);
    }
}

proof fn lemma_between_all(block: Seq<StatementView>, from: int)
    requires
        0 <= from <= block.len(),
    ensures
        declared_between(block, from, block.len() as int) == StatementView::own_declared_from(
            block,
            from,
        ),
    decreases block.len() - from,
{
    if from < block.len() {
        lemma_between_all(block, from + 1);
    }
}

proof fn lemma_between_join(block: Seq<StatementView>, from: int, middle: int)
    requires
        0 <= from <= middle <= block.len(),
    ensures
        StatementView::own_declared_from(block, from) == declared_between(
            block,
            from,
            middle,
        ).union(StatementView::own_declared_from(block, middle)),
    decreases middle - from,
{
    let rest = StatementView::own_declared_from(block, middle);
    if from < middle {
        lemma_between_join(block, from + 1, middle);
        assert(StatementView::own_declared_from(block, from) =~= declared_between(
            block,
            from,
            middle,
        ).union(rest));
    } else {
        assert(Set::<u64>::empty().union(rest) =~= rest);
    }
}

/// What a local that is mentioned past a run says of it: it is kept back.
proof fn lemma_mentioned_past(
    block: Seq<StatementView>,
    kept: Set<u64>,
    run: (int, int),
    i: int,
    j: int,
    id: u64,
)
    requires
        scope_narrowing::holds_locals(block, kept, run),
        0 <= run.0 <= i <= run.1 < j < block.len(),
        binding_validation::ids(block[i].own_declared()).contains(id),
        block[j].touched().contains(RcLocal { id }),
    ensures
        kept.contains(id),
{
    let own = block[i].own_declared();
    let k = choose|k: int| 0 <= k < own.len() && (#[trigger] own[k]).id == id;
    if !kept.contains(id) {
        assert(block[i].own_declared()[k].id == id);
        assert(own[k] == (RcLocal { id }));
        lemma_last_at_least(block, block.len() as int, RcLocal { id }, j);
    }
}

proof fn lemma_last_at_least(block: Seq<StatementView>, count: int, local: RcLocal, j: int)
    requires
        0 <= j < count <= block.len(),
        block[j].touched().contains(local),
    ensures
        scope_narrowing::last_reference(block, count, local) matches Some(last) && last >= j,
    decreases count,
{
    if !block[count - 1].touched().contains(local) {
        lemma_last_at_least(block, count - 1, local, j);
    }
}

/// The run at the front of the rest of a block, put into a scope of its own,
/// has no fault, and what comes after it sees alike.
proof fn lemma_narrow_run(
    block: Seq<StatementView>,
    run: (int, int),
    kept: Set<u64>,
    pinned: Set<u64>,
    budget: usize,
    depth: usize,
    visible: Set<u64>,
    other: Set<u64>,
)
    requires
        scope_narrowing::is_worth(block, run),
        scope_narrowing::holds_locals(block, kept, run),
        kept.disjoint(scope_narrowing::class_targets(block)),
        pinned.subset_of(kept),
        StatementView::scoped_from(block, run.0, visible) is Ok,
        sees_alike(
            visible,
            other,
            StatementView::touched_from(block, run.0),
            StatementView::bound_from(block, run.0),
        ),
        StatementView::run_moves_freely(block.subrange(run.0, run.1 + 1), kept),
        StatementView::block_moves_freely(
            scope_narrowing::split_from(block.subrange(run.0, run.1 + 1), 0, kept),
            budget,
            tally::bumped(depth),
            Set::empty(),
        ),
    ensures
        ({
            let body = block.subrange(run.0, run.1 + 1);
            let hoisted = binding_validation::ids(scope_narrowing::hoisted_from(body, 0, kept));
            let declared = declared_between(block, run.0, run.1 + 1);
            let scope = StatementView::Do(
                StatementView::narrowed_block(
                    scope_narrowing::split_from(body, 0, kept),
                    budget,
                    tally::bumped(depth),
                    Set::empty(),
                ),
            );
            &&& StatementView::scoped_from(
                scope_narrowing::hoisted(body, kept) + seq![scope],
                0,
                other,
            ) == binding_validation::Scoped::Ok(other.union(hoisted))
            &&& hoisted.subset_of(declared)
            &&& pinned.intersect(declared).subset_of(hoisted)
            &&& sees_alike(
                visible.union(declared),
                other.union(hoisted),
                StatementView::touched_from(block, run.1 + 1),
                StatementView::bound_from(block, run.1 + 1),
            )
        }),
    decreases StatementView::sizes_from(block, 0), 2int, 0int,
{
    let end = run.1 + 1;
    let body = block.subrange(run.0, end);
    let hoisted = binding_validation::ids(scope_narrowing::hoisted_from(body, 0, kept));
    let declared = declared_between(block, run.0, end);
    let split = scope_narrowing::split_from(body, 0, kept);
    scope_narrowing::lemma_run_smaller(block, run, kept);
    lemma_part(block, run.0, end, visible);
    lemma_split_less(body, kept);
    // What is taken out is declared in the run, and is not visible before it.
    assert forall|id: u64| #[trigger] hoisted.contains(id) implies declared.contains(id)
        && !other.contains(id) && !visible.contains(id) by {
        lemma_hoisted_from(body, 0, kept, id);
        let i = choose|i: int|
            0 <= i < body.len() && scope_narrowing::declares_kept(#[trigger] body[i], kept)
                && binding_validation::ids(body[i].own_declared()).contains(id);
        assert(body[i] == block[run.0 + i]);
        lemma_between(block, run.0, end, id);
        assert(binding_validation::ids(block[run.0 + i].own_declared()).contains(id));
        lemma_fresh(block, run.0, visible, run.0 + i);
        lemma_bound_from(block, run.0, id);
        assert(StatementView::bound_from(block, run.0).contains(id));
    }
    assert forall|i: int| 0 <= i < body.len() implies hoisted.disjoint(
        (#[trigger] body[i]).inner_bound(),
    ) by {
        assert forall|id: u64| #[trigger] hoisted.contains(id) implies
            !body[i].inner_bound().contains(id) by {
            lemma_hoisted_from(body, 0, kept, id);
            let j = choose|j: int|
                0 <= j < body.len() && scope_narrowing::declares_kept(#[trigger] body[j], kept)
                    && binding_validation::ids(body[j].own_declared()).contains(id);
            if i < j {
                assert(body[i].inner_bound().disjoint(
                    binding_validation::ids(body[j].own_declared()),
                ));
            } else if j < i {
                lemma_inner_fresh(body, 0, visible, j, i);
            } else {
                lemma_own_inner(body[i]);
            }
        }
    }
    assert forall|i: int| 0 <= i < body.len() implies if scope_narrowing::declares_kept(
        #[trigger] body[i],
        kept,
    ) {
        binding_validation::ids(body[i].own_declared()).subset_of(hoisted)
    } else {
        hoisted.disjoint(binding_validation::ids(body[i].own_declared()))
    } by {
        if scope_narrowing::declares_kept(body[i], kept) {
            assert forall|id: u64| #[trigger]
                binding_validation::ids(body[i].own_declared()).contains(id) implies
                hoisted.contains(id) by {
                lemma_hoisted_from(body, 0, kept, id);
            }
        } else {
            assert forall|id: u64| #[trigger] hoisted.contains(id) implies
                !binding_validation::ids(body[i].own_declared()).contains(id) by {
                lemma_hoisted_from(body, 0, kept, id);
                let j = choose|j: int|
                    0 <= j < body.len() && scope_narrowing::declares_kept(#[trigger] body[j], kept)
                        && binding_validation::ids(body[j].own_declared()).contains(id);
                if i < j {
                    lemma_declared_once(body, 0, visible, i, j);
                } else if j < i {
                    lemma_declared_once(body, 0, visible, j, i);
                }
            }
        }
    }
    lemma_split(body, 0, kept, hoisted, visible);
    let inner = visible.union(hoisted);
    let inside = other.union(hoisted);
    assert(sees_alike(
        inner,
        inside,
        StatementView::touched_from(split, 0),
        StatementView::bound_from(split, 0),
    )) by {
        assert forall|id: u64|
            inner.contains(id) && StatementView::touched_from(split, 0).contains(
                RcLocal { id },
            ) implies #[trigger] inside.contains(id) by {
            if visible.contains(id) {
                let local = RcLocal { id };
                lemma_touched_from(body, 0, local);
                lemma_touched_from(block, run.0, local);
                let i = choose|i: int|
                    0 <= i < body.len() && (#[trigger] body[i]).touched().contains(local);
                assert(body[i] == block[run.0 + i]);
                assert(block[run.0 + i].touched().contains(local));
                assert(StatementView::touched_from(block, run.0).contains(RcLocal { id }));
                assert(other.contains(id));
            }
        }
        assert forall|id: u64| #[trigger]
            inside.contains(id) && !inner.contains(id) implies !StatementView::bound_from(
            split,
            0,
        ).contains(id) by {
            assert(other.contains(id) && !visible.contains(id));
            assert(!StatementView::bound_from(block, run.0).contains(id));
            lemma_bound_from(body, 0, id);
            lemma_bound_from(block, run.0, id);
            if StatementView::bound_from(body, 0).contains(id) {
                let i = choose|i: int|
                    0 <= i < body.len() && ((binding_validation::ids(
                        (#[trigger] body[i]).own_declared(),
                    )).contains(id) || body[i].inner_bound().contains(id));
                assert(body[i] == block[run.0 + i]);
                assert(binding_validation::ids(block[run.0 + i].own_declared()).contains(id)
                    || block[run.0 + i].inner_bound().contains(id));
            }
        }
    }
    lemma_narrow_block(split, budget, tally::bumped(depth), Set::empty(), inner, inside);
    let narrowed = StatementView::narrowed_block(
        split,
        budget,
        tally::bumped(depth),
        Set::empty(),
    );
    let scope = StatementView::Do(narrowed);
    lemma_hoisted(body, kept, other);
    assert(scope.scoped(inside, 0) == binding_validation::Scoped::Ok(inside));
    let one = seq![scope];
    assert(one[0] == scope);
    assert(StatementView::scoped_from(one, 1, inside) == binding_validation::Scoped::Ok(inside));
    assert(StatementView::scoped_from(one, 0, inside) == binding_validation::Scoped::Ok(inside));
    lemma_scoped_join(scope_narrowing::hoisted(body, kept), one, 0, other);
    // Whatever is mentioned later was visible before the run, or is kept back.
    assert forall|id: u64| declared.contains(id) && kept.contains(id) implies hoisted.contains(
        id,
    ) by {
        lemma_between(block, run.0, end, id);
        let i = choose|i: int|
            run.0 <= i < end && binding_validation::ids(
                (#[trigger] block[i]).own_declared(),
            ).contains(id);
        let own = block[i].own_declared();
        let k = choose|k: int| 0 <= k < own.len() && (#[trigger] own[k]).id == id;
        if block[i] is Class {
            assert(scope_narrowing::class_targets(block).contains(id));
        }
        assert(block[i].own_declared()[k].id == id);
        assert(scope_narrowing::declares_kept(block[i], kept));
        assert(body[i - run.0] == block[i]);
        lemma_hoisted_from(body, 0, kept, id);
    }
    assert forall|id: u64|
        visible.union(declared).contains(id) && StatementView::touched_from(block, end).contains(
            RcLocal { id },
        ) implies #[trigger] inside.contains(id) by {
        let local = RcLocal { id };
        lemma_touched_from(block, end, local);
        lemma_touched_from(block, run.0, local);
        let j = choose|j: int|
            end <= j < block.len() && (#[trigger] block[j]).touched().contains(local);
        assert(run.0 <= j);
        if visible.contains(id) {
            assert(other.contains(id));
        } else {
            lemma_between(block, run.0, end, id);
            let i = choose|i: int|
                run.0 <= i < end && binding_validation::ids(
                    (#[trigger] block[i]).own_declared(),
                ).contains(id);
            lemma_mentioned_past(block, kept, run, i, j, id);
        }
    }
    assert forall|id: u64| #[trigger]
        inside.contains(id) && !visible.union(declared).contains(id) implies
        !StatementView::bound_from(block, end).contains(id) by {
        assert(other.contains(id));
        lemma_bound_from(block, run.0, id);
        lemma_bound_from(block, end, id);
        if StatementView::bound_from(block, end).contains(id) {
            let j = choose|j: int|
                end <= j < block.len() && ((binding_validation::ids(
                    (#[trigger] block[j]).own_declared(),
                )).contains(id) || block[j].inner_bound().contains(id));
            assert(run.0 <= j);
        }
    }
}

proof fn lemma_narrow_grouped(
    block: Seq<StatementView>,
    runs: Seq<(int, int)>,
    from: int,
    at: int,
    kept: Set<u64>,
    pinned: Set<u64>,
    budget: usize,
    depth: usize,
    visible: Set<u64>,
    other: Set<u64>,
)
    requires
        scope_narrowing::is_sorted(runs, 0, block.len() as int),
        forall|i: int|
            0 <= i < runs.len() ==> scope_narrowing::holds_locals(
                block,
                kept,
                #[trigger] runs[i],
            ),
        0 <= from <= runs.len(),
        0 <= at <= block.len(),
        from < runs.len() ==> at <= runs[from].0,
        kept.disjoint(scope_narrowing::class_targets(block)),
        pinned.subset_of(kept),
        StatementView::scoped_from(block, at, visible) is Ok,
        sees_alike(
            visible,
            other,
            StatementView::touched_from(block, at),
            StatementView::bound_from(block, at),
        ),
        StatementView::groups_move_freely(block, runs, from, at, kept, budget, depth),
    ensures
        leaves(
            StatementView::scoped_from(
                StatementView::grouped_from(block, runs, from, at, kept, budget, depth),
                0,
                other,
            ),
            other,
            StatementView::own_declared_from(block, at),
            pinned,
        ),
    decreases StatementView::sizes_from(block, 0), 3int, runs.len() - from,
{
    if from < runs.len() {
        let run = runs[from];
        if from + 1 < runs.len() {
            assert(runs[from].1 < runs[from + 1].0);
        }
        if scope_narrowing::is_worth(block, run) {
            let end = run.1 + 1;
            let body = block.subrange(run.0, end);
            let before = StatementView::narrowed_range(block, at, run.0, budget, depth);
            let ahead = declared_between(block, at, run.0);
            lemma_narrow_range(block, at, run.0, budget, depth, visible, other);
            lemma_part(block, at, run.0, visible);
            lemma_alike_past(block, at, run.0, visible, other);
            let seen = visible.union(ahead);
            let now = other.union(ahead);
            lemma_narrow_run(block, run, kept, pinned, budget, depth, seen, now);
            let hoisted = binding_validation::ids(scope_narrowing::hoisted_from(body, 0, kept));
            let declared = declared_between(block, run.0, end);
            lemma_part(block, run.0, end, seen);
            lemma_narrow_grouped(
                block,
                runs,
                from + 1,
                end,
                kept,
                pinned,
                budget,
                depth,
                seen.union(declared),
                now.union(hoisted),
            );
            let front = scope_narrowing::hoisted(body, kept);
            let scope = seq![
                StatementView::Do(
                    StatementView::narrowed_block(
                        scope_narrowing::split_from(body, 0, kept),
                        budget,
                        tally::bumped(depth),
                        Set::empty(),
                    ),
                ),
            ];
            let after = StatementView::grouped_from(
                block,
                runs,
                from + 1,
                end,
                kept,
                budget,
                depth,
            );
            lemma_scoped_join(front + scope, after, 0, now);
            lemma_scoped_join(before, front + scope + after, 0, other);
            assert(before + (front + scope + after) =~= before + front + scope + after);
            lemma_between_join(block, at, run.0);
            lemma_between_join(block, run.0, end);
        } else {
            lemma_narrow_grouped(
                block,
                runs,
                from + 1,
                at,
                kept,
                pinned,
                budget,
                depth,
                visible,
                other,
            );
        }
    } else {
        lemma_narrow_range(block, at, block.len() as int, budget, depth, visible, other);
        lemma_between_all(block, at);
    }
}

/// Narrowing keeps what a statement declares and what it binds for its body, and
/// narrows its blocks.
proof fn lemma_narrowed_parts(statement: StatementView, budget: usize, depth: usize)
    ensures
        ({
            let narrowed = statement.narrowed(budget, depth);
            let (inner, level, pinned) = statement.nested_terms(budget, depth);
            &&& narrowed.own_declared() == statement.own_declared()
            &&& narrowed.loop_bound() == statement.loop_bound()
            &&& narrowed.blocks().len() == statement.blocks().len()
            &&& forall|k: int|
                0 <= k < statement.blocks().len() ==> #[trigger] narrowed.blocks()[k]
                    == StatementView::narrowed_block(statement.blocks()[k], inner, level, pinned)
        }),
{
    let (inner, level, pinned) = statement.nested_terms(budget, depth);
    let roots = RValueView::narrowed_from(statement.roots(), 0);
    let blocks = StatementView::narrowed_blocks(statement.blocks(), 0, inner, level, pinned);
    lemma_narrowed_values(statement.roots(), 0);
    assert(statement.roots().skip(0) =~= statement.roots());
    lemma_narrowed_blocks(statement.blocks(), 0, inner, level, pinned);
    lemma_given(statement, roots);
    shape_laws::given_roots(statement, roots);
    shape_laws::given_blocks(statement.with_roots(roots), blocks);
    assert forall|k: int| 0 <= k < statement.blocks().len() implies #[trigger] statement.narrowed(
        budget,
        depth,
    ).blocks()[k] == StatementView::narrowed_block(
        statement.blocks()[k],
        inner,
        level,
        pinned,
    ) by {
        assert(blocks[k] == StatementView::narrowed_block(
            statement.blocks()[0 + k],
            inner,
            level,
            pinned,
        ));
    }
}

proof fn lemma_bound_join(left: Seq<StatementView>, right: Seq<StatementView>)
    ensures
        StatementView::bound_from(left + right, 0) == StatementView::bound_from(left, 0).union(
            StatementView::bound_from(right, 0),
        ),
{
    let all = left + right;
    assert forall|id: u64|
        StatementView::bound_from(all, 0).contains(id) == (StatementView::bound_from(
            left,
            0,
        ).contains(id) || StatementView::bound_from(right, 0).contains(id)) by {
        lemma_bound_from(all, 0, id);
        lemma_bound_from(left, 0, id);
        lemma_bound_from(right, 0, id);
        if StatementView::bound_from(all, 0).contains(id) {
            let i = choose|i: int|
                0 <= i < all.len() && ((binding_validation::ids(
                    (#[trigger] all[i]).own_declared(),
                )).contains(id) || all[i].inner_bound().contains(id));
            if i < left.len() {
                assert(all[i] == left[i]);
            } else {
                assert(all[i] == right[i - left.len()]);
            }
        }
        if StatementView::bound_from(left, 0).contains(id) {
            let i = choose|i: int|
                0 <= i < left.len() && ((binding_validation::ids(
                    (#[trigger] left[i]).own_declared(),
                )).contains(id) || left[i].inner_bound().contains(id));
            assert(all[i] == left[i]);
        }
        if StatementView::bound_from(right, 0).contains(id) {
            let i = choose|i: int|
                0 <= i < right.len() && ((binding_validation::ids(
                    (#[trigger] right[i]).own_declared(),
                )).contains(id) || right[i].inner_bound().contains(id));
            assert(all[left.len() + i] == right[i]);
        }
    }
    assert(StatementView::bound_from(all, 0) =~= StatementView::bound_from(left, 0).union(
        StatementView::bound_from(right, 0),
    ));
}

proof fn lemma_one_bound(statement: StatementView)
    ensures
        StatementView::bound_from(seq![statement], 0) == binding_validation::ids(
            statement.own_declared(),
        ).union(statement.inner_bound()),
{
    let one = seq![statement];
    assert(one[0] == statement);
    assert(StatementView::bound_from(one, 1) == Set::<u64>::empty());
    assert(StatementView::bound_from(one, 0) =~= binding_validation::ids(
        statement.own_declared(),
    ).union(statement.inner_bound()));
}

/// What is not taken out of a run is left.
proof fn lemma_split_covers(body: Seq<StatementView>, from: int, kept: Set<u64>, i: int)
    requires
        0 <= from <= i < body.len(),
        !scope_narrowing::declares_kept(body[i], kept),
    ensures
        exists|k: int|
            0 <= k < scope_narrowing::split_from(body, from, kept).len()
                && #[trigger] scope_narrowing::split_from(body, from, kept)[k] == body[i],
    decreases i - from,
{
    let split = scope_narrowing::split_from(body, from, kept);
    let rest = scope_narrowing::split_from(body, from + 1, kept);
    if from < i {
        lemma_split_covers(body, from + 1, kept, i);
        let k = choose|k: int| 0 <= k < rest.len() && #[trigger] rest[k] == body[i];
        if split.len() == rest.len() {
            assert(split == rest);
            assert(split[k] == body[i]);
        } else {
            assert(split[k + 1] == body[i]);
        }
    } else {
        assert(split[0] == body[i]);
    }
}

/// The declaration ahead of a scope declares what is taken out of the run.
proof fn lemma_hoisted_declares(body: Seq<StatementView>, kept: Set<u64>)
    ensures
        StatementView::own_declared_from(scope_narrowing::hoisted(body, kept), 0)
            == binding_validation::ids(scope_narrowing::hoisted_from(body, 0, kept)),
{
    let list = scope_narrowing::hoisted_from(body, 0, kept);
    let numbers = name_locals::all_with(Seq::empty(), list);
    let locals = Seq::new(numbers.len(), |i: int| RcLocal { id: numbers[i] });
    let hoisted = scope_narrowing::hoisted(body, kept);
    assert forall|id: u64|
        binding_validation::ids(list).contains(id) == binding_validation::ids(locals).contains(
            id,
        ) by {
        lemma_all_with(Seq::empty(), list, id);
        if binding_validation::ids(list).contains(id) {
            let k = choose|k: int| 0 <= k < numbers.len() && numbers[k] == id;
            assert(locals[k].id == id);
        }
        if binding_validation::ids(locals).contains(id) {
            let k = choose|k: int| 0 <= k < locals.len() && (#[trigger] locals[k]).id == id;
            assert(numbers[k] == id);
        }
    }
    if locals.len() == 0 {
        assert(locals =~= Seq::empty());
        lemma_no_ids();
        assert(StatementView::own_declared_from(hoisted, 0) =~= binding_validation::ids(list));
    } else {
        let assign = hoisted[0]->Assign_0;
        lemma_local_targets(locals, 0);
        assert(locals.skip(0) =~= locals);
        lemma_target_locals(assign.left, 0);
        assert(hoisted[0].own_declared() == locals);
        assert(StatementView::own_declared_from(hoisted, 1) == Set::<u64>::empty());
        assert(StatementView::own_declared_from(hoisted, 0) =~= binding_validation::ids(list));
    }
}

/// What is declared is bound.
proof fn lemma_declared_bound(block: Seq<StatementView>)
    ensures
        StatementView::own_declared_from(block, 0).subset_of(StatementView::bound_from(block, 0)),
{
    assert forall|id: u64| #[trigger]
        StatementView::own_declared_from(block, 0).contains(id) implies StatementView::bound_from(
        block,
        0,
    ).contains(id) by {
        lemma_declared_member(block, 0, id);
        lemma_bound_from(block, 0, id);
    }
}

/// Narrowing takes away nothing that a statement binds inside it.
proof fn lemma_statement_binds(statement: StatementView, budget: usize, depth: usize)
    ensures
        statement.inner_bound().subset_of(statement.narrowed(budget, depth).inner_bound()),
    decreases statement.size(), 0int, 0int,
{
    model::lemma_nested_smaller(statement);
    let narrowed = statement.narrowed(budget, depth);
    let (inner, level, pinned) = statement.nested_terms(budget, depth);
    lemma_narrowed_parts(statement, budget, depth);
    assert forall|k: int| 0 <= k < statement.blocks().len() implies StatementView::bound_from(
        #[trigger] statement.blocks()[k],
        0,
    ).subset_of(StatementView::bound_from(narrowed.blocks()[k], 0)) by {
        lemma_block_binds(statement.blocks()[k], inner, level, pinned);
    }
    lemma_blocks_bind(statement.blocks(), narrowed.blocks(), 0);
}

proof fn lemma_blocks_bind(
    blocks: Seq<Seq<StatementView>>,
    narrowed: Seq<Seq<StatementView>>,
    from: int,
)
    requires
        0 <= from,
        blocks.len() == narrowed.len(),
        forall|k: int|
            0 <= k < blocks.len() ==> StatementView::bound_from(
                #[trigger] blocks[k],
                0,
            ).subset_of(StatementView::bound_from(narrowed[k], 0)),
    ensures
        StatementView::blocks_bound(blocks, from).subset_of(
            StatementView::blocks_bound(narrowed, from),
        ),
    decreases blocks.len() - from,
{
    if from < blocks.len() {
        lemma_blocks_bind(blocks, narrowed, from + 1);
        assert(StatementView::bound_from(blocks[from], 0).subset_of(
            StatementView::bound_from(narrowed[from], 0),
        ));
    }
}

/// Narrowing takes away nothing that the statements of a range bind.
proof fn lemma_range_binds(
    block: Seq<StatementView>,
    at: int,
    to: int,
    budget: usize,
    depth: usize,
    i: int,
)
    requires
        0 <= at <= i < to <= block.len(),
    ensures
        binding_validation::ids(block[i].own_declared()).union(block[i].inner_bound()).subset_of(
            StatementView::bound_from(
                StatementView::narrowed_range(block, at, to, budget, depth),
                0,
            ),
        ),
    decreases StatementView::sizes_from(block, 0), 2int, to - at,
{
    model::lemma_statement_sizes_member(block, 0, at);
    let first = block[at].narrowed(budget, depth);
    let rest = StatementView::narrowed_range(block, at + 1, to, budget, depth);
    lemma_bound_join(seq![first], rest);
    lemma_one_bound(first);
    if at < i {
        lemma_range_binds(block, at + 1, to, budget, depth, i);
    } else {
        lemma_narrowed_parts(block[at], budget, depth);
        lemma_statement_binds(block[at], budget, depth);
    }
}

/// Narrowing takes away nothing that a block binds.
proof fn lemma_block_binds(
    block: Seq<StatementView>,
    budget: usize,
    depth: usize,
    pinned: Set<u64>,
)
    ensures
        StatementView::bound_from(block, 0).subset_of(
            StatementView::bound_from(
                StatementView::narrowed_block(block, budget, depth, pinned),
                0,
            ),
        ),
    decreases StatementView::sizes_from(block, 0), 4int, 0int,
{
    let total = scope_narrowing::counted(block, 0, block.len() as int);
    let narrowed = StatementView::narrowed_block(block, budget, depth, pinned);
    assert forall|i: int| 0 <= i < block.len() implies binding_validation::ids(
        (#[trigger] block[i]).own_declared(),
    ).union(block[i].inner_bound()).subset_of(StatementView::bound_from(narrowed, 0)) by {
        if depth < scope_narrowing::MAX_ADDED_DEPTH && scope_narrowing::is_grouped(
            block,
            budget,
            pinned,
        ) {
            let kept = scope_narrowing::kept_back(
                block,
                budget,
                pinned,
                scope_narrowing::class_targets(block),
            );
            let runs = scope_narrowing::runs_of(block, kept);
            let held = scope_narrowing::lowered(
                total,
                scope_narrowing::relieved_from(block, runs, 0, kept) as nat,
            );
            scope_narrowing::runs_hold_their_locals(block, kept);
            lemma_groups_bind(
                block,
                runs,
                0,
                0,
                kept,
                scope_narrowing::left_over(budget, held),
                depth,
                i,
            );
        } else {
            lemma_range_binds(
                block,
                0,
                block.len() as int,
                scope_narrowing::left_over(budget, total),
                depth,
                i,
            );
        }
    }
    assert forall|id: u64| #[trigger]
        StatementView::bound_from(block, 0).contains(id) implies StatementView::bound_from(
        narrowed,
        0,
    ).contains(id) by {
        lemma_bound_from(block, 0, id);
        let i = choose|i: int|
            0 <= i < block.len() && ((binding_validation::ids(
                (#[trigger] block[i]).own_declared(),
            )).contains(id) || block[i].inner_bound().contains(id));
        assert(binding_validation::ids(block[i].own_declared()).union(
            block[i].inner_bound(),
        ).contains(id));
    }
}

/// What a run binds is bound by the declaration ahead of its scope or inside
/// the scope.
proof fn lemma_run_binds(
    body: Seq<StatementView>,
    kept: Set<u64>,
    narrowed: Seq<StatementView>,
    i: int,
)
    requires
        0 <= i < body.len(),
        StatementView::bound_from(scope_narrowing::split_from(body, 0, kept), 0).subset_of(
            StatementView::bound_from(narrowed, 0),
        ),
    ensures
        binding_validation::ids(body[i].own_declared()).union(body[i].inner_bound()).subset_of(
            StatementView::bound_from(
                scope_narrowing::hoisted(body, kept) + seq![StatementView::Do(narrowed)],
                0,
            ),
        ),
        !scope_narrowing::declares_kept(body[i], kept) ==> body[i].inner_bound().subset_of(
            StatementView::bound_from(narrowed, 0),
        ),
        scope_narrowing::declares_kept(body[i], kept) ==> body[i].inner_bound()
            == Set::<u64>::empty(),
{
    let split = scope_narrowing::split_from(body, 0, kept);
    let front = scope_narrowing::hoisted(body, kept);
    let scope = StatementView::Do(narrowed);
    lemma_bound_join(front, seq![scope]);
    lemma_one_bound(scope);
    assert(StatementView::bound_from(narrowed, 0).subset_of(scope.inner_bound())) by {
        assert(scope.blocks()[0] == narrowed);
        lemma_blocks_part(scope.blocks(), 0, 0);
    }
    if scope_narrowing::declares_kept(body[i], kept) {
        lemma_own_inner(body[i]);
        lemma_hoisted_declares(body, kept);
        lemma_declared_bound(front);
        assert forall|id: u64| #[trigger]
            binding_validation::ids(body[i].own_declared()).contains(id) implies
            StatementView::bound_from(front, 0).contains(id) by {
            lemma_hoisted_from(body, 0, kept, id);
            assert(StatementView::own_declared_from(front, 0).contains(id));
        }
    } else {
        lemma_split_covers(body, 0, kept, i);
        let k = choose|k: int| 0 <= k < split.len() && #[trigger] split[k] == body[i];
        assert forall|id: u64| #[trigger]
            binding_validation::ids(body[i].own_declared()).union(body[i].inner_bound()).contains(
                id,
            ) implies StatementView::bound_from(split, 0).contains(id) by {
            lemma_bound_from(split, 0, id);
            assert(binding_validation::ids(split[k].own_declared()).contains(id)
                || split[k].inner_bound().contains(id));
        }
        assert forall|id: u64| #[trigger] body[i].inner_bound().contains(id) implies
            StatementView::bound_from(narrowed, 0).contains(id) by {
            assert(binding_validation::ids(body[i].own_declared()).union(
                body[i].inner_bound(),
            ).contains(id));
            assert(StatementView::bound_from(split, 0).contains(id));
        }
    }
}

/// Narrowing takes away nothing that a block binds, with its runs put into
/// scopes.
proof fn lemma_groups_bind(
    block: Seq<StatementView>,
    runs: Seq<(int, int)>,
    from: int,
    at: int,
    kept: Set<u64>,
    budget: usize,
    depth: usize,
    i: int,
)
    requires
        scope_narrowing::is_sorted(runs, 0, block.len() as int),
        0 <= from <= runs.len(),
        0 <= at <= i < block.len(),
        from < runs.len() ==> at <= runs[from].0,
    ensures
        binding_validation::ids(block[i].own_declared()).union(block[i].inner_bound()).subset_of(
            StatementView::bound_from(
                StatementView::grouped_from(block, runs, from, at, kept, budget, depth),
                0,
            ),
        ),
    decreases StatementView::sizes_from(block, 0), 3int, runs.len() - from,
{
    if from < runs.len() {
        let run = runs[from];
        if from + 1 < runs.len() {
            assert(runs[from].1 < runs[from + 1].0);
        }
        if scope_narrowing::is_worth(block, run) {
            let end = run.1 + 1;
            let body = block.subrange(run.0, end);
            let split = scope_narrowing::split_from(body, 0, kept);
            let before = StatementView::narrowed_range(block, at, run.0, budget, depth);
            let front = scope_narrowing::hoisted(body, kept);
            let narrowed = StatementView::narrowed_block(
                split,
                budget,
                tally::bumped(depth),
                Set::empty(),
            );
            let scope = seq![StatementView::Do(narrowed)];
            let after = StatementView::grouped_from(
                block,
                runs,
                from + 1,
                end,
                kept,
                budget,
                depth,
            );
            lemma_bound_join(front + scope, after);
            lemma_bound_join(before, front + scope + after);
            assert(before + (front + scope + after) =~= before + front + scope + after);
            if i < run.0 {
                lemma_range_binds(block, at, run.0, budget, depth, i);
            } else if i < end {
                scope_narrowing::lemma_run_smaller(block, run, kept);
                lemma_block_binds(split, budget, tally::bumped(depth), Set::empty());
                assert(body[i - run.0] == block[i]);
                lemma_run_binds(body, kept, narrowed, i - run.0);
            } else {
                lemma_groups_bind(block, runs, from + 1, end, kept, budget, depth, i);
            }
        } else {
            lemma_groups_bind(block, runs, from + 1, at, kept, budget, depth, i);
        }
    } else {
        lemma_range_binds(block, at, block.len() as int, budget, depth, i);
    }
}

/// Two parts of a block have no fault where the block has none.
proof fn lemma_scoped_parts(left: Seq<StatementView>, right: Seq<StatementView>, visible: Set<u64>)
    requires
        StatementView::scoped_from(left + right, 0, visible) is Ok,
    ensures
        StatementView::scoped_from(left, 0, visible) == binding_validation::Scoped::Ok(
            visible.union(StatementView::own_declared_from(left, 0)),
        ),
        StatementView::scoped_from(
            right,
            0,
            visible.union(StatementView::own_declared_from(left, 0)),
        ) is Ok,
{
    let all = left + right;
    let middle = left.len() as int;
    lemma_part(all, 0, middle, visible);
    assert(all.subrange(0, middle) =~= left);
    lemma_part(left, 0, middle, visible);
    assert(left.subrange(0, middle) =~= left);
    lemma_between_all(left, 0);
    let next = visible.union(declared_between(all, 0, middle));
    lemma_part(all, middle, all.len() as int, next);
    assert(all.subrange(middle, all.len() as int) =~= right);
}

/// A statement that has no fault when narrowed moves no declaration ahead of a
/// statement that binds its local.
proof fn lemma_statement_free(
    statement: StatementView,
    budget: usize,
    depth: usize,
    visible: Set<u64>,
    at: nat,
)
    requires
        statement.narrowed(budget, depth).scoped(visible, at) is Ok,
    ensures
        statement.moves_freely(budget, depth),
    decreases statement.size(), 0int, 0int,
{
    model::lemma_nested_smaller(statement);
    let narrowed = statement.narrowed(budget, depth);
    let (inner, level, pinned) = statement.nested_terms(budget, depth);
    lemma_narrowed_parts(statement, budget, depth);
    lemma_nested_faultless(narrowed, visible, at);
    lemma_blocks_free(statement.blocks(), 0, inner, level, pinned);
    assert forall|k: int|
        0 <= k < statement.blocks().len() implies StatementView::block_moves_freely(
        #[trigger] statement.blocks()[k],
        inner,
        level,
        pinned,
    ) by {
        assert(StatementView::scoped_from(
            narrowed.blocks()[k],
            0,
            visible.union(narrowed.loop_bound()),
        ) is Ok);
        lemma_block_free(
            statement.blocks()[k],
            inner,
            level,
            pinned,
            visible.union(narrowed.loop_bound()),
        );
    }
}

proof fn lemma_range_free(
    block: Seq<StatementView>,
    at: int,
    to: int,
    budget: usize,
    depth: usize,
    visible: Set<u64>,
)
    requires
        0 <= at <= to <= block.len(),
        StatementView::scoped_from(
            StatementView::narrowed_range(block, at, to, budget, depth),
            0,
            visible,
        ) is Ok,
    ensures
        StatementView::range_moves_freely(block, at, to, budget, depth),
    decreases StatementView::sizes_from(block, 0), 2int, to - at,
{
    if at < to {
        model::lemma_statement_sizes_member(block, 0, at);
        let first = seq![block[at].narrowed(budget, depth)];
        let rest = StatementView::narrowed_range(block, at + 1, to, budget, depth);
        lemma_scoped_parts(first, rest, visible);
        assert(first[0].scoped(visible, 0) is Ok);
        lemma_statement_free(block[at], budget, depth, visible, 0);
        lemma_range_free(
            block,
            at + 1,
            to,
            budget,
            depth,
            visible.union(StatementView::own_declared_from(first, 0)),
        );
    }
}

/// A block that has no fault when narrowed moves no declaration ahead of a
/// statement that binds its local.
proof fn lemma_block_free(
    block: Seq<StatementView>,
    budget: usize,
    depth: usize,
    pinned: Set<u64>,
    visible: Set<u64>,
)
    requires
        StatementView::scoped_from(
            StatementView::narrowed_block(block, budget, depth, pinned),
            0,
            visible,
        ) is Ok,
    ensures
        StatementView::block_moves_freely(block, budget, depth, pinned),
    decreases StatementView::sizes_from(block, 0), 4int, 0int,
{
    let total = scope_narrowing::counted(block, 0, block.len() as int);
    if depth < scope_narrowing::MAX_ADDED_DEPTH && scope_narrowing::is_grouped(
        block,
        budget,
        pinned,
    ) {
        let kept = scope_narrowing::kept_back(
            block,
            budget,
            pinned,
            scope_narrowing::class_targets(block),
        );
        let runs = scope_narrowing::runs_of(block, kept);
        let held = scope_narrowing::lowered(
            total,
            scope_narrowing::relieved_from(block, runs, 0, kept) as nat,
        );
        scope_narrowing::runs_hold_their_locals(block, kept);
        lemma_groups_free(
            block,
            runs,
            0,
            0,
            kept,
            scope_narrowing::left_over(budget, held),
            depth,
            visible,
        );
    } else {
        lemma_range_free(
            block,
            0,
            block.len() as int,
            scope_narrowing::left_over(budget, total),
            depth,
            visible,
        );
    }
}

proof fn lemma_groups_free(
    block: Seq<StatementView>,
    runs: Seq<(int, int)>,
    from: int,
    at: int,
    kept: Set<u64>,
    budget: usize,
    depth: usize,
    visible: Set<u64>,
)
    requires
        scope_narrowing::is_sorted(runs, 0, block.len() as int),
        0 <= from <= runs.len(),
        0 <= at <= block.len(),
        from < runs.len() ==> at <= runs[from].0,
        StatementView::scoped_from(
            StatementView::grouped_from(block, runs, from, at, kept, budget, depth),
            0,
            visible,
        ) is Ok,
    ensures
        StatementView::groups_move_freely(block, runs, from, at, kept, budget, depth),
    decreases StatementView::sizes_from(block, 0), 3int, runs.len() - from,
{
    if from < runs.len() {
        let run = runs[from];
        if from + 1 < runs.len() {
            assert(runs[from].1 < runs[from + 1].0);
        }
        if scope_narrowing::is_worth(block, run) {
            let end = run.1 + 1;
            let body = block.subrange(run.0, end);
            let split = scope_narrowing::split_from(body, 0, kept);
            let before = StatementView::narrowed_range(block, at, run.0, budget, depth);
            let front = scope_narrowing::hoisted(body, kept);
            let narrowed = StatementView::narrowed_block(
                split,
                budget,
                tally::bumped(depth),
                Set::empty(),
            );
            let scope = seq![StatementView::Do(narrowed)];
            let after = StatementView::grouped_from(
                block,
                runs,
                from + 1,
                end,
                kept,
                budget,
                depth,
            );
            let hoisted = binding_validation::ids(scope_narrowing::hoisted_from(body, 0, kept));
            assert(before + (front + (scope + after)) =~= before + front + scope + after);
            lemma_scoped_parts(before, front + (scope + after), visible);
            lemma_range_free(block, at, run.0, budget, depth, visible);
            let first = visible.union(StatementView::own_declared_from(before, 0));
            lemma_scoped_parts(front, scope + after, first);
            lemma_hoisted_declares(body, kept);
            let second = first.union(hoisted);
            lemma_scoped_parts(scope, after, second);
            assert(scope[0].scoped(second, 0) is Ok);
            assert(StatementView::scoped_from(narrowed, 0, second) is Ok);
            scope_narrowing::lemma_run_smaller(block, run, kept);
            lemma_block_free(split, budget, tally::bumped(depth), Set::empty(), second);
            lemma_bound_unseen(narrowed, 0, second);
            lemma_block_binds(split, budget, tally::bumped(depth), Set::empty());
            assert forall|i: int, j: int|
                #![trigger body[i].inner_bound(), body[j].own_declared()]
                0 <= i < j < body.len() && scope_narrowing::declares_kept(
                    body[j],
                    kept,
                ) implies body[i].inner_bound().disjoint(
                binding_validation::ids(body[j].own_declared()),
            ) by {
                lemma_run_binds(body, kept, narrowed, i);
                assert forall|id: u64| #[trigger]
                    binding_validation::ids(body[j].own_declared()).contains(id) implies
                    !body[i].inner_bound().contains(id) by {
                    lemma_hoisted_from(body, 0, kept, id);
                    assert(second.contains(id));
                }
            }
            lemma_groups_free(
                block,
                runs,
                from + 1,
                end,
                kept,
                budget,
                depth,
                second.union(StatementView::own_declared_from(scope, 0)),
            );
        } else {
            lemma_groups_free(block, runs, from + 1, at, kept, budget, depth, visible);
        }
    } else {
        lemma_range_free(block, at, block.len() as int, budget, depth, visible);
    }
}

/// Grouping declarations into scopes leaves every local declared where it is
/// used: a block without a fault has none afterwards, but where a declaration
/// is kept back and so comes to stand ahead of a statement that binds its local
/// inside. There, and only there, the local is declared twice.
pub proof fn narrowing_keeps_bindings(
    block: Seq<StatementView>,
    budget: usize,
    visible: Set<u64>,
)
    requires
        StatementView::scoped_from(block, 0, visible) is Ok,
    ensures
        StatementView::scoped_from(
            StatementView::narrowed_block(block, budget, 0, Set::empty()),
            0,
            visible,
        ) is Ok <==> StatementView::block_moves_freely(block, budget, 0, Set::empty()),
{
    if StatementView::block_moves_freely(block, budget, 0, Set::empty()) {
        lemma_narrow_block(block, budget, 0, Set::empty(), visible, visible);
    }
    if StatementView::scoped_from(
        StatementView::narrowed_block(block, budget, 0, Set::empty()),
        0,
        visible,
    ) is Ok {
        lemma_block_free(block, budget, 0, Set::empty(), visible);
    }
}

impl StatementView {
    /// Whether no block nested in a statement declares a local behind a
    /// statement that binds it inside.
    pub open spec fn binds_in_order(self) -> bool
        decreases self.size(), 0int, 0int,
    {
        proof {
            model::lemma_statement_parts(self);
        }
        Self::blocks_bind_in_order(self.blocks(), 0)
    }

    /// The same of the blocks from position `from` on and what they hold.
    pub open spec fn blocks_bind_in_order(blocks: Seq<Seq<StatementView>>, from: int) -> bool
        decreases Self::block_sizes_from(blocks, from), 3int, blocks.len() - from,
    {
        if 0 <= from < blocks.len() {
            Self::declares_ahead(blocks[from]) && Self::all_bind_in_order(blocks[from], 0)
                && Self::blocks_bind_in_order(blocks, from + 1)
        } else {
            true
        }
    }

    /// The same of what is nested in the statements from position `from` on.
    pub open spec fn all_bind_in_order(statements: Seq<StatementView>, from: int) -> bool
        decreases Self::sizes_from(statements, from), 2int, 0int,
    {
        proof {
            model::lemma_statement_sizes_step(statements, from);
        }
        if 0 <= from < statements.len() {
            statements[from].binds_in_order() && Self::all_bind_in_order(statements, from + 1)
        } else {
            true
        }
    }

    /// Whether a block declares no local behind a statement that binds it
    /// inside.
    pub open spec fn declares_ahead(block: Seq<StatementView>) -> bool {
        forall|i: int, j: int|
            #![trigger block[i].inner_bound(), block[j].own_declared()]
            0 <= i < j < block.len() ==> block[i].inner_bound().disjoint(
                binding_validation::ids(block[j].own_declared()),
            )
    }
}

proof fn lemma_all_in_order(statements: Seq<StatementView>, from: int)
    requires
        0 <= from,
    ensures
        StatementView::all_bind_in_order(statements, from) <==> forall|i: int|
            from <= i < statements.len() ==> (#[trigger] statements[i]).binds_in_order(),
    decreases statements.len() - from,
{
    if from < statements.len() {
        lemma_all_in_order(statements, from + 1);
        if StatementView::all_bind_in_order(statements, from) {
            assert forall|i: int| from <= i < statements.len() implies (
            #[trigger] statements[i]).binds_in_order() by {
                if i > from {
                    assert(from + 1 <= i);
                }
            }
        }
    }
}

proof fn lemma_blocks_in_order(blocks: Seq<Seq<StatementView>>, from: int, k: int)
    requires
        0 <= from <= k < blocks.len(),
        StatementView::blocks_bind_in_order(blocks, from),
    ensures
        StatementView::declares_ahead(blocks[k]),
        StatementView::all_bind_in_order(blocks[k], 0),
    decreases k - from,
{
    if from < k {
        lemma_blocks_in_order(blocks, from + 1, k);
    }
}

/// What is left of a run stands in the order of the run, and binds and declares
/// no more.
proof fn lemma_split_order(
    body: Seq<StatementView>,
    from: int,
    kept: Set<u64>,
    k: int,
    l: int,
) -> (places: (int, int))
    requires
        0 <= from <= body.len(),
        0 <= k < l < scope_narrowing::split_from(body, from, kept).len(),
    ensures
        from <= places.0 < places.1 < body.len(),
        ({
            let split = scope_narrowing::split_from(body, from, kept);
            &&& split[k].inner_bound().subset_of(body[places.0].inner_bound())
            &&& binding_validation::ids(split[l].own_declared()).subset_of(
                binding_validation::ids(body[places.1].own_declared()),
            )
        }),
    decreases body.len() - from,
{
    let split = scope_narrowing::split_from(body, from, kept);
    let rest = scope_narrowing::split_from(body, from + 1, kept);
    if split.len() == rest.len() {
        assert(split == rest);
        lemma_split_order(body, from + 1, kept, k, l)
    } else if k > 0 {
        assert(split[k] == rest[k - 1] && split[l] == rest[l - 1]);
        lemma_split_order(body, from + 1, kept, k - 1, l - 1)
    } else {
        assert(split[l] == rest[l - 1]);
        let j = lemma_split_member(body, from + 1, kept, l - 1);
        if scope_narrowing::declares_kept(body[from], kept) {
            lemma_own_inner(split[0]);
        } else {
            assert(split[0] == body[from]);
        }
        (from, j)
    }
}

/// What is left of a run binds in order where the run does.
proof fn lemma_split_in_order(body: Seq<StatementView>, kept: Set<u64>)
    requires
        StatementView::declares_ahead(body),
        StatementView::all_bind_in_order(body, 0),
    ensures
        StatementView::declares_ahead(scope_narrowing::split_from(body, 0, kept)),
        StatementView::all_bind_in_order(scope_narrowing::split_from(body, 0, kept), 0),
{
    let split = scope_narrowing::split_from(body, 0, kept);
    lemma_all_in_order(body, 0);
    lemma_all_in_order(split, 0);
    assert forall|k: int| 0 <= k < split.len() implies (#[trigger] split[k]).binds_in_order() by {
        let i = lemma_split_member(body, 0, kept, k);
        assert(body[i].binds_in_order());
    }
    assert forall|k: int, l: int|
        #![trigger split[k].inner_bound(), split[l].own_declared()]
        0 <= k < l < split.len() implies split[k].inner_bound().disjoint(
        binding_validation::ids(split[l].own_declared()),
    ) by {
        let (i, j) = lemma_split_order(body, 0, kept, k, l);
        assert(body[i].inner_bound().disjoint(binding_validation::ids(body[j].own_declared())));
    }
}

proof fn lemma_ordered_statement(statement: StatementView, budget: usize, depth: usize)
    requires
        statement.binds_in_order(),
    ensures
        statement.moves_freely(budget, depth),
    decreases statement.size(), 0int, 0int,
{
    model::lemma_nested_smaller(statement);
    let (inner, level, pinned) = statement.nested_terms(budget, depth);
    lemma_blocks_free(statement.blocks(), 0, inner, level, pinned);
    assert forall|k: int|
        0 <= k < statement.blocks().len() implies StatementView::block_moves_freely(
        #[trigger] statement.blocks()[k],
        inner,
        level,
        pinned,
    ) by {
        lemma_blocks_in_order(statement.blocks(), 0, k);
        lemma_ordered_block(statement.blocks()[k], inner, level, pinned);
    }
}

proof fn lemma_ordered_range(
    block: Seq<StatementView>,
    at: int,
    to: int,
    budget: usize,
    depth: usize,
)
    requires
        0 <= at <= to <= block.len(),
        StatementView::all_bind_in_order(block, 0),
    ensures
        StatementView::range_moves_freely(block, at, to, budget, depth),
    decreases StatementView::sizes_from(block, 0), 2int, to - at,
{
    if at < to {
        model::lemma_statement_sizes_member(block, 0, at);
        lemma_all_in_order(block, 0);
        lemma_ordered_statement(block[at], budget, depth);
        lemma_ordered_range(block, at + 1, to, budget, depth);
    }
}

proof fn lemma_ordered_groups(
    block: Seq<StatementView>,
    runs: Seq<(int, int)>,
    from: int,
    at: int,
    kept: Set<u64>,
    budget: usize,
    depth: usize,
)
    requires
        scope_narrowing::is_sorted(runs, 0, block.len() as int),
        0 <= from <= runs.len(),
        0 <= at <= block.len(),
        from < runs.len() ==> at <= runs[from].0,
        StatementView::declares_ahead(block),
        StatementView::all_bind_in_order(block, 0),
    ensures
        StatementView::groups_move_freely(block, runs, from, at, kept, budget, depth),
    decreases StatementView::sizes_from(block, 0), 3int, runs.len() - from,
{
    if from < runs.len() {
        let run = runs[from];
        if from + 1 < runs.len() {
            assert(runs[from].1 < runs[from + 1].0);
        }
        if scope_narrowing::is_worth(block, run) {
            let end = run.1 + 1;
            let body = block.subrange(run.0, end);
            lemma_ordered_range(block, at, run.0, budget, depth);
            lemma_all_in_order(block, 0);
            lemma_all_in_order(body, 0);
            assert forall|i: int| 0 <= i < body.len() implies (
            #[trigger] body[i]).binds_in_order() by {
                assert(body[i] == block[run.0 + i]);
            }
            assert forall|i: int, j: int|
                #![trigger body[i].inner_bound(), body[j].own_declared()]
                0 <= i < j < body.len() implies body[i].inner_bound().disjoint(
                binding_validation::ids(body[j].own_declared()),
            ) by {
                assert(body[i] == block[run.0 + i] && body[j] == block[run.0 + j]);
                assert(block[run.0 + i].inner_bound().disjoint(
                    binding_validation::ids(block[run.0 + j].own_declared()),
                ));
            }
            lemma_split_in_order(body, kept);
            scope_narrowing::lemma_run_smaller(block, run, kept);
            lemma_ordered_block(
                scope_narrowing::split_from(body, 0, kept),
                budget,
                tally::bumped(depth),
                Set::empty(),
            );
            lemma_ordered_groups(block, runs, from + 1, end, kept, budget, depth);
        } else {
            lemma_ordered_groups(block, runs, from + 1, at, kept, budget, depth);
        }
    } else {
        lemma_ordered_range(block, at, block.len() as int, budget, depth);
    }
}

proof fn lemma_ordered_block(
    block: Seq<StatementView>,
    budget: usize,
    depth: usize,
    pinned: Set<u64>,
)
    requires
        StatementView::declares_ahead(block),
        StatementView::all_bind_in_order(block, 0),
    ensures
        StatementView::block_moves_freely(block, budget, depth, pinned),
    decreases StatementView::sizes_from(block, 0), 4int, 0int,
{
    let total = scope_narrowing::counted(block, 0, block.len() as int);
    if depth < scope_narrowing::MAX_ADDED_DEPTH && scope_narrowing::is_grouped(
        block,
        budget,
        pinned,
    ) {
        let kept = scope_narrowing::kept_back(
            block,
            budget,
            pinned,
            scope_narrowing::class_targets(block),
        );
        let runs = scope_narrowing::runs_of(block, kept);
        let held = scope_narrowing::lowered(
            total,
            scope_narrowing::relieved_from(block, runs, 0, kept) as nat,
        );
        scope_narrowing::runs_hold_their_locals(block, kept);
        lemma_ordered_groups(
            block,
            runs,
            0,
            0,
            kept,
            scope_narrowing::left_over(budget, held),
            depth,
        );
    } else {
        lemma_ordered_range(
            block,
            0,
            block.len() as int,
            scope_narrowing::left_over(budget, total),
            depth,
        );
    }
}

/// Where no block declares a local behind a statement that binds it inside, as
/// where every local is bound once, a block without a fault has none when its
/// declarations are grouped into scopes.
pub proof fn narrowing_keeps_ordered_bindings(
    block: Seq<StatementView>,
    budget: usize,
    visible: Set<u64>,
)
    requires
        StatementView::scoped_from(block, 0, visible) is Ok,
        StatementView::declares_ahead(block),
        StatementView::all_bind_in_order(block, 0),
    ensures
        StatementView::scoped_from(
            StatementView::narrowed_block(block, budget, 0, Set::empty()),
            0,
            visible,
        ) is Ok,
{
    lemma_ordered_block(block, budget, 0, Set::empty());
    narrowing_keeps_bindings(block, budget, visible);
}

impl RValueView {
    /// Whether an expression builds no closure.
    pub open spec fn is_plain(self) -> bool
        decreases self.size(), 0int,
    {
        proof {
            model::lemma_children_smaller(self);
        }
        !(self is Closure) && Self::are_plain_from(self.children(), 0)
    }

    /// Whether none of the expressions from position `from` on builds a
    /// closure.
    pub open spec fn are_plain_from(values: Seq<RValueView>, from: int) -> bool
        decreases Self::sizes_from(values, from), 1int,
    {
        proof {
            model::lemma_sizes_step(values, from);
        }
        if 0 <= from < values.len() {
            values[from].is_plain() && Self::are_plain_from(values, from + 1)
        } else {
            true
        }
    }
}

/// Whether no block and no closure is nested in the statements of a block.
pub open spec fn is_flat(block: Seq<StatementView>) -> bool {
    forall|i: int|
        0 <= i < block.len() ==> (#[trigger] block[i]).blocks().len() == 0
            && RValueView::are_plain_from(block[i].roots(), 0)
}

proof fn lemma_plain_value(value: RValueView)
    requires
        value.is_plain(),
    ensures
        value.narrowed() == value,
    decreases value.size(), 0int,
{
    model::lemma_children_smaller(value);
    lemma_plain_values(value.children(), 0);
    assert(value.children().skip(0) =~= value.children());
    shape_laws::same_operands(value);
}

proof fn lemma_plain_values(values: Seq<RValueView>, from: int)
    requires
        0 <= from <= values.len(),
        RValueView::are_plain_from(values, from),
    ensures
        RValueView::narrowed_from(values, from) == values.skip(from),
    decreases RValueView::sizes_from(values, from), 1int,
{
    model::lemma_sizes_step(values, from);
    if from < values.len() {
        lemma_plain_value(values[from]);
        lemma_plain_values(values, from + 1);
        assert(seq![values[from]] + values.skip(from + 1) =~= values.skip(from));
    } else {
        assert(values.skip(from) =~= Seq::empty());
    }
}

proof fn lemma_flat_range(block: Seq<StatementView>, at: int, budget: usize, depth: usize)
    requires
        0 <= at <= block.len(),
        is_flat(block),
    ensures
        StatementView::narrowed_range(block, at, block.len() as int, budget, depth) == block.skip(
            at,
        ),
    decreases block.len() - at,
{
    if at < block.len() {
        let statement = block[at];
        let (inner, level, pinned) = statement.nested_terms(budget, depth);
        lemma_flat_range(block, at + 1, budget, depth);
        lemma_plain_values(statement.roots(), 0);
        assert(statement.roots().skip(0) =~= statement.roots());
        lemma_narrowed_blocks(statement.blocks(), 0, inner, level, pinned);
        assert(StatementView::narrowed_blocks(statement.blocks(), 0, inner, level, pinned)
            =~= statement.blocks());
        shape_laws::same_roots(statement);
        shape_laws::same_blocks(statement);
        assert(statement.narrowed(budget, depth) == statement);
        assert(seq![statement] + block.skip(at + 1) =~= block.skip(at));
    } else {
        assert(block.skip(at) =~= Seq::empty());
    }
}

/// A block that holds neither blocks nor closures, and declares no more locals
/// than fit, stays as it is.
pub proof fn roomy_blocks_stay(
    block: Seq<StatementView>,
    budget: usize,
    depth: usize,
    pinned: Set<u64>,
)
    requires
        is_flat(block),
        scope_narrowing::counted(block, 0, block.len() as int) <= budget,
    ensures
        StatementView::narrowed_block(block, budget, depth, pinned) == block,
{
    let total = scope_narrowing::counted(block, 0, block.len() as int);
    lemma_flat_range(block, 0, scope_narrowing::left_over(budget, total), depth);
    assert(block.skip(0) =~= block);
}

} // verus!
