//! That straightening branches and loops keeps what a block does.

use vstd::prelude::*;

use crate::ast::control_flow_cleanup;
use crate::ast::control_flow_cleanup::{ControlFlowCleanup, ControlFlowCleanupStats};
use crate::ast::meaning;
use crate::ast::meaning::{Exit, Machine, World};
use crate::ast::meaning_laws;
use crate::ast::nodes::{RValueView, StatementView, UnaryOperation};
use crate::ast::tally;
use crate::ast::{model, shape_laws};

verus! {

impl Machine {
    /// Whether functions are told apart by what their bodies do, not by how
    /// those are written.
    pub open spec fn knows_bodies(self) -> bool {
        forall|left: Seq<StatementView>, right: Seq<StatementView>| #[trigger]
            meaning_laws::runs_same(left, right, self) ==> (self.code)(left) == (self.code)(right)
    }
}

/// An inverted condition holds where the condition does not, and computing it
/// does the same.
pub proof fn inversion_negates(condition: RValueView, m: Machine, world: World)
    ensures
        meaning::first(condition.inverted().evaluated(m, world).0).is_truthy()
            == !meaning::first(condition.evaluated(m, world).0).is_truthy(),
        condition.inverted().evaluated(m, world).1 == condition.evaluated(m, world).1,
{
    match condition {
        RValueView::Unary(operand, UnaryOperation::Not) => {
            assert(condition.inverted() == *operand);
        },
        _ => {
            let inverted = condition.inverted();
            assert(inverted == RValueView::Unary(Box::new(condition), UnaryOperation::Not));
        },
    }
}

/// Nothing runs past a statement that ends its block.
pub proof fn terminators_end(statement: StatementView, m: Machine, world: World, fuel: nat)
    requires
        statement.terminates(),
    ensures
        !(statement.run(m, world, fuel).1 is Normal),
    decreases statement.size(), 0int,
{
    model::lemma_nested_smaller(statement);
    if let StatementView::If { condition, then_block, else_block } = statement {
        assert(statement.blocks()[0] == then_block);
        assert(statement.blocks()[1] == else_block);
        let after = condition.evaluated(m, world).1;
        terminated_blocks_end(then_block, m, after, fuel);
        terminated_blocks_end(else_block, m, after, fuel);
    }
}

/// Nothing runs past a block that is ended.
pub proof fn terminated_blocks_end(
    block: Seq<StatementView>,
    m: Machine,
    world: World,
    fuel: nat,
)
    requires
        StatementView::block_terminates(block),
    ensures
        !(StatementView::run_from(block, 0, m, world, fuel).1 is Normal),
    decreases StatementView::sizes_from(block, 0), 2int,
{
    let i = lemma_terminator(block, block.len() as int);
    lemma_ended(block, 0, i, m, world, fuel);
}

proof fn lemma_terminator(block: Seq<StatementView>, count: int) -> (i: int)
    requires
        StatementView::ends(block, count),
    ensures
        0 <= i < count <= block.len(),
        block[i].terminates(),
    decreases count,
{
    if block[count - 1] is Comment || block[count - 1] is Empty {
        lemma_terminator(block, count - 1)
    } else {
        count - 1
    }
}

proof fn lemma_ended(
    block: Seq<StatementView>,
    from: int,
    i: int,
    m: Machine,
    world: World,
    fuel: nat,
)
    requires
        0 <= from <= i < block.len(),
        block[i].terminates(),
    ensures
        !(StatementView::run_from(block, from, m, world, fuel).1 is Normal),
    decreases StatementView::sizes_from(block, 0), 1int, i - from,
{
    model::lemma_statement_sizes_member(block, 0, i);
    if from < i {
        let after = block[from].run(m, world, fuel).0;
        lemma_ended(block, from + 1, i, m, after, fuel);
    } else {
        terminators_end(block[i], m, world, fuel);
    }
}

proof fn lemma_empty_run(m: Machine, world: World, fuel: nat)
    ensures
        StatementView::run_from(Seq::empty(), 0, m, world, fuel) == (world, Exit::Normal),
{
}

/// Dropping branches that do nothing and turning the others keeps what
/// statements do.
pub proof fn normalizing_keeps_runs(
    block: Seq<StatementView>,
    from: int,
    stats: ControlFlowCleanupStats,
    m: Machine,
    world: World,
    fuel: nat,
)
    requires
        0 <= from <= block.len(),
    ensures
        StatementView::run_from(
            control_flow_cleanup::normalized_from(block, from, stats).1,
            0,
            m,
            world,
            fuel,
        ) == StatementView::run_from(block, from, m, world, fuel),
    decreases block.len() - from,
{
    if from < block.len() {
        let statement = block[from];
        let after = statement.run(m, world, fuel).0;
        lemma_empty_run(m, world, fuel);
        match statement {
            StatementView::If { condition, then_block, else_block } => {
                let middle = condition.evaluated(m, world).1;
                lemma_empty_run(m, middle, fuel);
                if then_block.len() == 0 {
                    assert(then_block =~= Seq::empty());
                }
                if else_block.len() == 0 {
                    assert(else_block =~= Seq::empty());
                }
                if then_block.len() == 0 && else_block.len() == 0 && !condition.has_side_effects() {
                    meaning_laws::unobservable_changes_nothing(condition, m, world);
                    normalizing_keeps_runs(
                        block,
                        from + 1,
                        ControlFlowCleanupStats {
                            removed_empty: tally::bumped(stats.removed_empty),
                            ..stats
                        },
                        m,
                        world,
                        fuel,
                    );
                } else if then_block.len() == 0 && else_block.len() > 0 {
                    let next = ControlFlowCleanupStats {
                        inverted_empty_then: tally::bumped(stats.inverted_empty_then),
                        ..stats
                    };
                    let turned = StatementView::If {
                        condition: condition.inverted(),
                        then_block: else_block,
                        else_block: then_block,
                    };
                    inversion_negates(condition, m, world);
                    assert(turned.run(m, world, fuel) == statement.run(m, world, fuel));
                    let rest = control_flow_cleanup::normalized_from(block, from + 1, next).1;
                    normalizing_keeps_runs(block, from + 1, next, m, after, fuel);
                    meaning_laws::lemma_run_first(turned, rest, m, world, fuel);
                } else {
                    let rest = control_flow_cleanup::normalized_from(block, from + 1, stats).1;
                    normalizing_keeps_runs(block, from + 1, stats, m, after, fuel);
                    meaning_laws::lemma_run_first(statement, rest, m, world, fuel);
                }
            },
            _ => {
                let rest = control_flow_cleanup::normalized_from(block, from + 1, stats).1;
                normalizing_keeps_runs(block, from + 1, stats, m, after, fuel);
                meaning_laws::lemma_run_first(statement, rest, m, world, fuel);
            },
        }
    }
}

/// Taking an arm out of a branch whose other arm ends the block keeps what the
/// block does: the arm runs right after the branch is not taken, before what
/// follows the branch.
pub proof fn flattening_keeps_runs(
    block: Seq<StatementView>,
    stats: ControlFlowCleanupStats,
    m: Machine,
    world: World,
    fuel: nat,
)
    ensures
        StatementView::run_from(
            control_flow_cleanup::flattened(block, stats).1,
            0,
            m,
            world,
            fuel,
        ) == StatementView::run_from(block, 0, m, world, fuel),
    decreases StatementView::sizes_from(block, 0),
{
    if block.len() > 0 {
        model::lemma_statement_sizes_skip(block, 0);
        model::lemma_nested_smaller(block[0]);
        let behind = block.skip(1);
        let statement = block[0];
        let after = statement.run(m, world, fuel).0;
        assert(block =~= seq![statement] + behind);
        meaning_laws::lemma_run_first(statement, behind, m, world, fuel);
        let kept = control_flow_cleanup::flattened(behind, stats).1;
        flattening_keeps_runs(behind, stats, m, after, fuel);
        meaning_laws::lemma_run_first(statement, kept, m, world, fuel);
        if let StatementView::If { condition, then_block, else_block } = statement {
            assert(statement.blocks()[0] == then_block);
            assert(statement.blocks()[1] == else_block);
            model::lemma_statement_sizes_join(then_block, behind);
            model::lemma_statement_sizes_join(else_block, behind);
            let middle = condition.evaluated(m, world).1;
            lemma_empty_run(m, middle, fuel);
            inversion_negates(condition, m, world);
            if else_block.len() == 0 {
            } else if StatementView::block_terminates(then_block) {
                let next = ControlFlowCleanupStats {
                    flattened_guards: tally::bumped(stats.flattened_guards),
                    ..stats
                };
                let guard = StatementView::If { condition, then_block, else_block: Seq::empty() };
                let rest = control_flow_cleanup::flattened(else_block + behind, next).1;
                meaning_laws::lemma_run_first(guard, rest, m, world, fuel);
                terminated_blocks_end(then_block, m, middle, fuel);
                flattening_keeps_runs(else_block + behind, next, m, middle, fuel);
                meaning_laws::lemma_run_join(else_block, behind, 0, m, middle, fuel);
            } else if StatementView::block_terminates(else_block) {
                let next = ControlFlowCleanupStats {
                    flattened_guards: tally::bumped(stats.flattened_guards),
                    inverted_terminal_else: tally::bumped(stats.inverted_terminal_else),
                    ..stats
                };
                let guard = StatementView::If {
                    condition: condition.inverted(),
                    then_block: else_block,
                    else_block: Seq::empty(),
                };
                let rest = control_flow_cleanup::flattened(then_block + behind, next).1;
                meaning_laws::lemma_run_first(guard, rest, m, world, fuel);
                terminated_blocks_end(else_block, m, middle, fuel);
                flattening_keeps_runs(then_block + behind, next, m, middle, fuel);
                meaning_laws::lemma_run_join(then_block, behind, 0, m, middle, fuel);
            }
        }
    }
}

/// Guarding the last branch of a loop body keeps what a round of the loop does.
pub proof fn guarding_keeps_rounds(
    block: Seq<StatementView>,
    stats: ControlFlowCleanupStats,
    m: Machine,
)
    ensures
        meaning_laws::loops_same(control_flow_cleanup::guarded(block, stats).1, block, m),
{
    let made = control_flow_cleanup::guarded(block, stats).1;
    assert forall|world: World, fuel: nat|
        {
            let (after, exit) = #[trigger] StatementView::run_from(made, 0, m, world, fuel);
            let (last, other) = StatementView::run_from(block, 0, m, world, fuel);
            after == last && meaning_laws::rounded(exit) == meaning_laws::rounded(other)
        } by {
        if block.len() > 0 {
            if let StatementView::If { condition, then_block, else_block } = block.last() {
                if !(else_block.len() > 0 || then_block.len() == 0
                    || StatementView::block_terminates(then_block)) {
                    let front = block.drop_last();
                    let guard = StatementView::If {
                        condition: condition.inverted(),
                        then_block: seq![StatementView::Continue],
                        else_block,
                    };
                    assert(else_block =~= Seq::empty());
                    assert(block =~= front + (seq![block.last()] + Seq::empty()));
                    assert(made =~= front + (seq![guard] + then_block));
                    let start = StatementView::run_from(front, 0, m, world, fuel).0;
                    meaning_laws::lemma_run_join(
                        front,
                        seq![block.last()] + Seq::empty(),
                        0,
                        m,
                        world,
                        fuel,
                    );
                    meaning_laws::lemma_run_join(
                        front,
                        seq![guard] + then_block,
                        0,
                        m,
                        world,
                        fuel,
                    );
                    meaning_laws::lemma_run_first(block.last(), Seq::empty(), m, start, fuel);
                    meaning_laws::lemma_run_first(guard, then_block, m, start, fuel);
                    inversion_negates(condition, m, start);
                    let middle = condition.evaluated(m, start).1;
                    lemma_empty_run(m, middle, fuel);
                    meaning_laws::lemma_run_first(
                        StatementView::Continue,
                        Seq::empty(),
                        m,
                        middle,
                        fuel,
                    );
                    assert(seq![StatementView::Continue] + Seq::empty() =~= seq![
                        StatementView::Continue,
                    ]);
                    let end = StatementView::run_from(then_block, 0, m, middle, fuel).0;
                    lemma_empty_run(m, end, fuel);
                    lemma_empty_run(m, block.last().run(m, start, fuel).0, fuel);
                }
            }
        }
    }
}

/// Finishing a block whose statements are cleaned keeps what it does.
proof fn lemma_finished(
    notes: ControlFlowCleanupStats,
    block: Seq<StatementView>,
    looped: bool,
    m: Machine,
)
    ensures
        ({
            let (normal, first) = control_flow_cleanup::normalized_from(block, 0, notes);
            let (flat, second) = control_flow_cleanup::flattened(first, normal);
            let last = if looped {
                control_flow_cleanup::guarded(second, flat).1
            } else {
                second
            };
            if looped {
                meaning_laws::loops_same(last, block, m)
            } else {
                meaning_laws::runs_same(last, block, m)
            }
        }),
{
    let (normal, first) = control_flow_cleanup::normalized_from(block, 0, notes);
    let (flat, second) = control_flow_cleanup::flattened(first, normal);
    assert forall|world: World, fuel: nat| #[trigger]
        StatementView::run_from(second, 0, m, world, fuel) == StatementView::run_from(
            block,
            0,
            m,
            world,
            fuel,
        ) by {
        normalizing_keeps_runs(block, 0, notes, m, world, fuel);
        flattening_keeps_runs(first, normal, m, world, fuel);
    }
    if looped {
        let last = control_flow_cleanup::guarded(second, flat).1;
        guarding_keeps_rounds(second, flat, m);
        assert forall|world: World, fuel: nat|
            {
                let (after, exit) = #[trigger] StatementView::run_from(last, 0, m, world, fuel);
                let (end, other) = StatementView::run_from(block, 0, m, world, fuel);
                after == end && meaning_laws::rounded(exit) == meaning_laws::rounded(other)
            } by {
            let (after, exit) = StatementView::run_from(second, 0, m, world, fuel);
        }
    }
}

proof fn lemma_walked_value(value: RValueView, notes: ControlFlowCleanupStats, m: Machine)
    requires
        m.knows_bodies(),
    ensures
        meaning_laws::means_same(value.walked::<ControlFlowCleanup>(notes).1, value, m),
    decreases value.size(), 0int, 0int,
{
    model::lemma_children_smaller(value);
    let walked = value.walked::<ControlFlowCleanup>(notes).1;
    if value is Closure {
        let body = StatementView::walked_block::<ControlFlowCleanup>(value.body(), notes, false).1;
        lemma_walked_block(value.body(), notes, false, m);
        assert(walked == value.with_body(body));
        assert(walked.head() == value.head());
        assert(walked.body() == body);
        assert((m.code)(body) == (m.code)(value.body()));
        assert forall|world: World| #[trigger]
            walked.evaluated(m, world) == value.evaluated(m, world) by {}
    } else {
        let operands = RValueView::walked_from::<ControlFlowCleanup>(
            value.children(),
            0,
            notes,
        ).1;
        lemma_walked_values(value.children(), 0, notes, m);
        assert(value.children().skip(0) =~= value.children());
        assert(walked == value.with_children(operands));
        assert forall|world: World| #[trigger]
            walked.evaluated(m, world) == value.evaluated(m, world) by {
            meaning_laws::operands_decide(value, operands, m, world);
        }
    }
}

proof fn lemma_walked_values(
    values: Seq<RValueView>,
    from: int,
    notes: ControlFlowCleanupStats,
    m: Machine,
)
    requires
        m.knows_bodies(),
        0 <= from <= values.len(),
    ensures
        meaning_laws::all_mean_same(
            RValueView::walked_from::<ControlFlowCleanup>(values, from, notes).1,
            values.skip(from),
            m,
        ),
    decreases RValueView::sizes_from(values, from), 1int, 0int,
{
    model::lemma_sizes_step(values, from);
    let made = RValueView::walked_from::<ControlFlowCleanup>(values, from, notes).1;
    if from < values.len() {
        let (next, first) = values[from].walked::<ControlFlowCleanup>(notes);
        let rest = RValueView::walked_from::<ControlFlowCleanup>(values, from + 1, next).1;
        lemma_walked_value(values[from], notes, m);
        lemma_walked_values(values, from + 1, next, m);
        assert forall|i: int| 0 <= i < made.len() implies meaning_laws::means_same(
            #[trigger] made[i],
            values.skip(from)[i],
            m,
        ) by {
            if i > 0 {
                assert(made[i] == rest[i - 1]);
                assert(values.skip(from)[i] == values.skip(from + 1)[i - 1]);
            }
        }
    }
}

proof fn lemma_walked_statement(
    statement: StatementView,
    notes: ControlFlowCleanupStats,
    m: Machine,
    world: World,
    fuel: nat,
)
    requires
        m.knows_bodies(),
    ensures
        statement.walked::<ControlFlowCleanup>(notes).1.run(m, world, fuel) == statement.run(
            m,
            world,
            fuel,
        ),
    decreases statement.size(), 0int, 0int,
{
    model::lemma_statement_parts(statement);
    let (next, roots) = RValueView::walked_from::<ControlFlowCleanup>(
        statement.roots(),
        0,
        notes,
    );
    lemma_walked_values(statement.roots(), 0, notes, m);
    assert(statement.roots().skip(0) =~= statement.roots());
    if statement is Do {
        let blocks = statement.blocks();
        shape_laws::same_roots(statement);
        shape_laws::given_roots(statement, roots);
        shape_laws::same_blocks(statement.with_roots(roots));
        assert forall|k: int| 0 <= k < blocks.len() implies meaning_laws::runs_same(
            #[trigger] blocks[k],
            statement.blocks()[k],
            m,
        ) by {}
        meaning_laws::parts_decide(statement, roots, blocks, m, world, fuel);
    } else {
        let looped = statement.is_loop();
        let blocks = StatementView::walked_blocks::<ControlFlowCleanup>(
            statement.blocks(),
            0,
            next,
            looped,
        ).1;
        lemma_walked_blocks(statement.blocks(), 0, next, looped, m);
        assert(statement.blocks().skip(0) =~= statement.blocks());
        meaning_laws::parts_decide(statement, roots, blocks, m, world, fuel);
    }
}

proof fn lemma_walked_blocks(
    blocks: Seq<Seq<StatementView>>,
    from: int,
    notes: ControlFlowCleanupStats,
    looped: bool,
    m: Machine,
)
    requires
        m.knows_bodies(),
        0 <= from <= blocks.len(),
    ensures
        ({
            let made = StatementView::walked_blocks::<ControlFlowCleanup>(
                blocks,
                from,
                notes,
                looped,
            ).1;
            &&& made.len() == blocks.len() - from
            &&& forall|k: int|
                0 <= k < made.len() ==> if looped {
                    meaning_laws::loops_same(#[trigger] made[k], blocks.skip(from)[k], m)
                } else {
                    meaning_laws::runs_same(made[k], blocks.skip(from)[k], m)
                }
        }),
    decreases StatementView::block_sizes_from(blocks, from), 3int, blocks.len() - from,
{
    if from < blocks.len() {
        let made = StatementView::walked_blocks::<ControlFlowCleanup>(
            blocks,
            from,
            notes,
            looped,
        ).1;
        let (next, first) = StatementView::walked_block::<ControlFlowCleanup>(
            blocks[from],
            notes,
            looped,
        );
        let rest = StatementView::walked_blocks::<ControlFlowCleanup>(
            blocks,
            from + 1,
            next,
            looped,
        ).1;
        lemma_walked_block(blocks[from], notes, looped, m);
        lemma_walked_blocks(blocks, from + 1, next, looped, m);
        assert forall|k: int| 0 <= k < made.len() implies if looped {
            meaning_laws::loops_same(#[trigger] made[k], blocks.skip(from)[k], m)
        } else {
            meaning_laws::runs_same(made[k], blocks.skip(from)[k], m)
        } by {
            if k > 0 {
                assert(made[k] == rest[k - 1]);
                assert(blocks.skip(from)[k] == blocks.skip(from + 1)[k - 1]);
            } else {
                assert(made[0] == first);
                assert(blocks.skip(from)[0] == blocks[from]);
            }
        }
    }
}

proof fn lemma_walked_block(
    block: Seq<StatementView>,
    notes: ControlFlowCleanupStats,
    looped: bool,
    m: Machine,
)
    requires
        m.knows_bodies(),
    ensures
        ({
            let made = StatementView::walked_block::<ControlFlowCleanup>(block, notes, looped).1;
            if looped {
                meaning_laws::loops_same(made, block, m)
            } else {
                meaning_laws::runs_same(made, block, m)
            }
        }),
    decreases StatementView::sizes_from(block, 0), 2int, 0int,
{
    let (next, statements) = StatementView::walked_from::<ControlFlowCleanup>(block, 0, notes);
    let made = StatementView::walked_block::<ControlFlowCleanup>(block, notes, looped).1;
    lemma_finished(next, statements, looped, m);
    assert forall|world: World, fuel: nat| #[trigger]
        StatementView::run_from(statements, 0, m, world, fuel) == StatementView::run_from(
            block,
            0,
            m,
            world,
            fuel,
        ) by {
        lemma_walked_from(block, 0, notes, m, world, fuel);
    }
    if looped {
        assert forall|world: World, fuel: nat|
            {
                let (after, exit) = #[trigger] StatementView::run_from(made, 0, m, world, fuel);
                let (end, other) = StatementView::run_from(block, 0, m, world, fuel);
                after == end && meaning_laws::rounded(exit) == meaning_laws::rounded(other)
            } by {
            let (after, exit) = StatementView::run_from(statements, 0, m, world, fuel);
        }
    } else {
        assert forall|world: World, fuel: nat| #[trigger]
            StatementView::run_from(made, 0, m, world, fuel) == StatementView::run_from(
                block,
                0,
                m,
                world,
                fuel,
            ) by {
            let (after, exit) = StatementView::run_from(statements, 0, m, world, fuel);
        }
    }
}

proof fn lemma_walked_from(
    statements: Seq<StatementView>,
    from: int,
    notes: ControlFlowCleanupStats,
    m: Machine,
    world: World,
    fuel: nat,
)
    requires
        m.knows_bodies(),
        0 <= from <= statements.len(),
    ensures
        StatementView::run_from(
            StatementView::walked_from::<ControlFlowCleanup>(statements, from, notes).1,
            0,
            m,
            world,
            fuel,
        ) == StatementView::run_from(statements, from, m, world, fuel),
    decreases StatementView::sizes_from(statements, from), 1int, 0int,
{
    model::lemma_statement_sizes_step(statements, from);
    if from < statements.len() {
        let (next, first) = statements[from].walked::<ControlFlowCleanup>(notes);
        let rest = StatementView::walked_from::<ControlFlowCleanup>(
            statements,
            from + 1,
            next,
        ).1;
        let after = statements[from].run(m, world, fuel).0;
        lemma_walked_statement(statements[from], notes, m, world, fuel);
        lemma_walked_from(statements, from + 1, next, m, after, fuel);
        meaning_laws::lemma_run_first(first, rest, m, world, fuel);
    }
}

/// Straightening the branches and loops of a block keeps what it does in every
/// world: the same statements run in the same order, on the same values, up to
/// the same end.
pub proof fn cleanup_keeps_runs(
    block: Seq<StatementView>,
    stats: ControlFlowCleanupStats,
    m: Machine,
)
    requires
        m.knows_bodies(),
    ensures
        meaning_laws::runs_same(
            StatementView::walked_block::<ControlFlowCleanup>(block, stats, false).1,
            block,
            m,
        ),
{
    lemma_walked_block(block, stats, false, m);
}

/// Whether a branch has a second arm and one of its arms ends the block.
pub open spec fn can_be_flattened(statement: StatementView) -> bool {
    statement matches StatementView::If { then_block, else_block, .. } && else_block.len() > 0 && (
    StatementView::block_terminates(then_block) || StatementView::block_terminates(else_block))
}

/// Whether a branch has only its second arm, or does nothing at all.
pub open spec fn can_be_turned(statement: StatementView) -> bool {
    statement matches StatementView::If { condition, then_block, else_block }
        && then_block.len() == 0 && (else_block.len() > 0 || !condition.has_side_effects())
}

/// Whether no branch of a block can be flattened.
pub open spec fn is_flat(block: Seq<StatementView>) -> bool {
    forall|k: int| 0 <= k < block.len() ==> !can_be_flattened(#[trigger] block[k])
}

/// Whether no branch of a block can be turned.
pub open spec fn is_turned(block: Seq<StatementView>) -> bool {
    forall|k: int| 0 <= k < block.len() ==> !can_be_turned(#[trigger] block[k])
}

proof fn lemma_put_first(first: StatementView, rest: Seq<StatementView>)
    ensures
        is_flat(rest) && !can_be_flattened(first) ==> is_flat(seq![first] + rest),
        is_turned(rest) && !can_be_turned(first) ==> is_turned(seq![first] + rest),
{
    let whole = seq![first] + rest;
    assert forall|k: int| 0 <= k < whole.len() implies whole[k] == first || (exists|j: int|
        0 <= j < rest.len() && #[trigger] rest[j] == whole[k]) by {
        if k > 0 {
            assert(rest[k - 1] == whole[k]);
        }
    }
}

/// Past flattening no branch of a block has a second arm where one of them
/// ends the block.
pub proof fn flattening_leaves_none(block: Seq<StatementView>, stats: ControlFlowCleanupStats)
    ensures
        is_flat(control_flow_cleanup::flattened(block, stats).1),
    decreases StatementView::sizes_from(block, 0),
{
    if block.len() > 0 {
        model::lemma_statement_sizes_skip(block, 0);
        model::lemma_nested_smaller(block[0]);
        let behind = block.skip(1);
        let kept = control_flow_cleanup::flattened(behind, stats).1;
        flattening_leaves_none(behind, stats);
        lemma_put_first(block[0], kept);
        if let StatementView::If { condition, then_block, else_block } = block[0] {
            assert(block[0].blocks()[0] == then_block);
            assert(block[0].blocks()[1] == else_block);
            model::lemma_statement_sizes_join(then_block, behind);
            model::lemma_statement_sizes_join(else_block, behind);
            let once = ControlFlowCleanupStats {
                flattened_guards: tally::bumped(stats.flattened_guards),
                ..stats
            };
            let turned = ControlFlowCleanupStats {
                inverted_terminal_else: tally::bumped(stats.inverted_terminal_else),
                ..once
            };
            flattening_leaves_none(else_block + behind, once);
            flattening_leaves_none(then_block + behind, turned);
            lemma_put_first(
                StatementView::If { condition, then_block, else_block: Seq::empty() },
                control_flow_cleanup::flattened(else_block + behind, once).1,
            );
            lemma_put_first(
                StatementView::If {
                    condition: condition.inverted(),
                    then_block: else_block,
                    else_block: Seq::empty(),
                },
                control_flow_cleanup::flattened(then_block + behind, turned).1,
            );
        }
    }
}

/// Past turning branches none of a block has only its second arm, and none
/// does nothing.
pub proof fn normalizing_leaves_none(
    block: Seq<StatementView>,
    from: int,
    stats: ControlFlowCleanupStats,
)
    ensures
        is_turned(control_flow_cleanup::normalized_from(block, from, stats).1),
    decreases block.len() - from,
{
    if 0 <= from < block.len() {
        let emptied = ControlFlowCleanupStats {
            removed_empty: tally::bumped(stats.removed_empty),
            ..stats
        };
        let turned = ControlFlowCleanupStats {
            inverted_empty_then: tally::bumped(stats.inverted_empty_then),
            ..stats
        };
        normalizing_leaves_none(block, from + 1, stats);
        normalizing_leaves_none(block, from + 1, emptied);
        normalizing_leaves_none(block, from + 1, turned);
        lemma_put_first(
            block[from],
            control_flow_cleanup::normalized_from(block, from + 1, stats).1,
        );
        if let StatementView::If { condition, then_block, else_block } = block[from] {
            lemma_put_first(
                StatementView::If {
                    condition: condition.inverted(),
                    then_block: else_block,
                    else_block: then_block,
                },
                control_flow_cleanup::normalized_from(block, from + 1, turned).1,
            );
        }
    }
}

} // verus!
