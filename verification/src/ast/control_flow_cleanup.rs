//! Straightening branches and loops.

use vstd::prelude::*;

use crate::ast::nodes::{
    Block, Continue, If, RValue, RValueView, Statement, StatementView, Unary, UnaryOperation,
};
use crate::ast::tally;
use crate::ast::tally::bump;
use crate::ast::walk::{walk_block, BlockPass};
use crate::ast::{model, nodes};

verus! {

broadcast use nodes::group_views;

/// How often each cleanup applied.
#[derive(Debug, Clone, Copy, PartialEq, Eq, Structural)]
pub struct ControlFlowCleanupStats {
    pub inverted_empty_then: usize,
    pub inverted_terminal_else: usize,
    pub flattened_guards: usize,
    pub loop_guards: usize,
    pub removed_empty: usize,
}

impl ControlFlowCleanupStats {
    /// Nothing applied yet.
    pub open spec fn none() -> ControlFlowCleanupStats {
        ControlFlowCleanupStats {
            inverted_empty_then: 0,
            inverted_terminal_else: 0,
            flattened_guards: 0,
            loop_guards: 0,
            removed_empty: 0,
        }
    }
}

impl Default for ControlFlowCleanupStats {
    fn default() -> (stats: Self)
        ensures
            stats == ControlFlowCleanupStats::none(),
    {
        ControlFlowCleanupStats {
            inverted_empty_then: 0,
            inverted_terminal_else: 0,
            flattened_guards: 0,
            loop_guards: 0,
            removed_empty: 0,
        }
    }
}

impl RValueView {
    /// The condition that holds where this one does not.
    pub open spec fn inverted(self) -> RValueView {
        match self {
            RValueView::Unary(value, UnaryOperation::Not) => *value,
            _ => RValueView::Unary(Box::new(self), UnaryOperation::Not),
        }
    }
}

fn invert_condition(condition: RValue) -> (inverted: RValue)
    ensures
        inverted@ == condition@.inverted(),
{
    proof {
        nodes::rvalue_node(condition);
    }
    match condition {
        RValue::Unary(Unary { value, operation: UnaryOperation::Not }) => *value,
        other => {
            let inverted = RValue::Unary(
                Unary { value: Box::new(other), operation: UnaryOperation::Not },
            );
            proof {
                nodes::rvalue_node(inverted);
            }
            inverted
        },
    }
}

impl StatementView {
    /// Whether nothing runs past this statement.
    pub open spec fn terminates(self) -> bool
        decreases self.size(), 0int, 0int,
    {
        proof {
            model::lemma_nested_smaller(self);
        }
        match self {
            StatementView::Return(_) | StatementView::Break | StatementView::Continue
            | StatementView::Goto(_) => true,
            StatementView::If { then_block, else_block, .. } => {
                proof {
                    assert(self.blocks()[0] == then_block);
                    assert(self.blocks()[1] == else_block);
                }
                else_block.len() > 0 && Self::ends(then_block, then_block.len() as int)
                    && Self::ends(else_block, else_block.len() as int)
            },
            _ => false,
        }
    }

    /// Whether nothing runs past the first `count` statements of a block: the
    /// last of them that is more than a comment ends it.
    pub open spec fn ends(block: Seq<StatementView>, count: int) -> bool
        decreases Self::sizes_from(block, 0), 1int, count,
    {
        if 0 < count <= block.len() {
            if block[count - 1] is Comment || block[count - 1] is Empty {
                Self::ends(block, count - 1)
            } else {
                proof {
                    model::lemma_statement_sizes_member(block, 0, count - 1);
                }
                block[count - 1].terminates()
            }
        } else {
            false
        }
    }

    /// Whether nothing runs past a block.
    pub open spec fn block_terminates(block: Seq<StatementView>) -> bool {
        Self::ends(block, block.len() as int)
    }
}

fn statement_terminates(statement: &Statement) -> (result: bool)
    ensures
        result == statement@.terminates(),
    decreases statement@.size(), 0int,
{
    proof {
        nodes::statement_node(*statement);
        model::lemma_nested_smaller(statement@);
    }
    match statement {
        Statement::Return(_) | Statement::Break(_) | Statement::Continue(_)
        | Statement::Goto(_) => true,
        Statement::If(branch) => {
            proof {
                assert(statement@.blocks()[0] == branch.then_block@);
                assert(statement@.blocks()[1] == branch.else_block@);
            }
            !branch.else_block.is_empty() && block_terminates(&branch.then_block)
                && block_terminates(&branch.else_block)
        },
        _ => false,
    }
}

fn block_terminates(block: &Block) -> (result: bool)
    ensures
        result == StatementView::block_terminates(block@),
    decreases StatementView::sizes_from(block@, 0), 1int,
{
    let ghost views = block@;
    let mut count: usize = block.0.len();
    while count > 0
        invariant
            count <= block.0@.len() == views.len(),
            views == block@,
            StatementView::block_terminates(views) == StatementView::ends(views, count as int),
        decreases count,
    {
        let statement = &block.0[count - 1];
        proof {
            nodes::statement_node(*statement);
            model::lemma_statement_sizes_member(views, 0, count - 1);
        }
        if !matches!(statement, Statement::Comment(_) | Statement::Empty(_)) {
            return statement_terminates(statement);
        }
        count -= 1;
    }
    false
}

/// What is noted, and the statements so far.
pub type Cleaned = (ControlFlowCleanupStats, Seq<StatementView>);

/// The statements from position `from` on without branches that do nothing,
/// and with the others turned so that their first arm does something.
pub open spec fn normalized_from(
    block: Seq<StatementView>,
    from: int,
    stats: ControlFlowCleanupStats,
) -> Cleaned
    decreases block.len() - from,
{
    if 0 <= from < block.len() {
        match block[from] {
            StatementView::If { condition, then_block, else_block } => {
                if then_block.len() == 0 && else_block.len() == 0 && !condition.has_side_effects() {
                    normalized_from(
                        block,
                        from + 1,
                        ControlFlowCleanupStats {
                            removed_empty: tally::bumped(stats.removed_empty),
                            ..stats
                        },
                    )
                } else if then_block.len() == 0 && else_block.len() > 0 {
                    let (last, rest) = normalized_from(
                        block,
                        from + 1,
                        ControlFlowCleanupStats {
                            inverted_empty_then: tally::bumped(
                                stats.inverted_empty_then,
                            ),
                            ..stats
                        },
                    );
                    let turned = StatementView::If {
                        condition: condition.inverted(),
                        then_block: else_block,
                        else_block: then_block,
                    };
                    (last, seq![turned] + rest)
                } else {
                    let (last, rest) = normalized_from(block, from + 1, stats);
                    (last, seq![block[from]] + rest)
                }
            },
            _ => {
                let (last, rest) = normalized_from(block, from + 1, stats);
                (last, seq![block[from]] + rest)
            },
        }
    } else {
        (stats, Seq::empty())
    }
}

/// The statements with the second arm of each branch moved behind it where the
/// first ends the block; where only the second does, the arms change places
/// first. What was moved is treated so in turn.
pub open spec fn flattened(block: Seq<StatementView>, stats: ControlFlowCleanupStats) -> Cleaned
    decreases StatementView::sizes_from(block, 0),
{
    if block.len() > 0 {
        proof {
            model::lemma_statement_sizes_skip(block, 0);
            model::lemma_nested_smaller(block[0]);
        }
        let behind = block.skip(1);
        match block[0] {
            StatementView::If { condition, then_block, else_block } => {
                proof {
                    assert(block[0].blocks()[0] == then_block);
                    assert(block[0].blocks()[1] == else_block);
                    model::lemma_statement_sizes_join(then_block, behind);
                    model::lemma_statement_sizes_join(else_block, behind);
                }
                if else_block.len() == 0 {
                    let (last, rest) = flattened(behind, stats);
                    (last, seq![block[0]] + rest)
                } else if StatementView::block_terminates(then_block) {
                    let (last, rest) = flattened(
                        else_block + behind,
                        ControlFlowCleanupStats {
                            flattened_guards: tally::bumped(stats.flattened_guards),
                            ..stats
                        },
                    );
                    let guard = StatementView::If {
                        condition,
                        then_block,
                        else_block: Seq::empty(),
                    };
                    (last, seq![guard] + rest)
                } else if StatementView::block_terminates(else_block) {
                    let (last, rest) = flattened(
                        then_block + behind,
                        ControlFlowCleanupStats {
                            flattened_guards: tally::bumped(stats.flattened_guards),
                            inverted_terminal_else: tally::bumped(
                                stats.inverted_terminal_else,
                            ),
                            ..stats
                        },
                    );
                    let guard = StatementView::If {
                        condition: condition.inverted(),
                        then_block: else_block,
                        else_block: Seq::empty(),
                    };
                    (last, seq![guard] + rest)
                } else {
                    let (last, rest) = flattened(behind, stats);
                    (last, seq![block[0]] + rest)
                }
            },
            _ => {
                let (last, rest) = flattened(behind, stats);
                (last, seq![block[0]] + rest)
            },
        }
    } else {
        (stats, Seq::empty())
    }
}

/// A loop body whose last statement is a branch with one arm, with that arm
/// moved behind a guard that continues the loop where the branch is not taken.
pub open spec fn guarded(block: Seq<StatementView>, stats: ControlFlowCleanupStats) -> Cleaned {
    if block.len() > 0 {
        match block.last() {
            StatementView::If { condition, then_block, else_block } => {
                if else_block.len() > 0 || then_block.len() == 0
                    || StatementView::block_terminates(then_block) {
                    (stats, block)
                } else {
                    let guard = StatementView::If {
                        condition: condition.inverted(),
                        then_block: seq![StatementView::Continue],
                        else_block,
                    };
                    (
                        ControlFlowCleanupStats {
                            loop_guards: tally::bumped(stats.loop_guards),
                            ..stats
                        },
                        block.drop_last().push(guard) + then_block,
                    )
                }
            },
            _ => (stats, block),
        }
    } else {
        (stats, block)
    }
}

fn normalize_empty_branches(block: Block, stats: &mut ControlFlowCleanupStats) -> (done: Block)
    ensures
        (*final(stats), done@) == normalized_from(block@, 0, *old(stats)),
{
    let ghost views = block@;
    let ghost whole = normalized_from(views, 0, *stats);
    let mut rest = block.0;
    let count: usize = rest.len();
    let mut done: Vec<Statement> = Vec::new();
    let mut index: usize = 0;
    proof {
        assert(Statement::views(done@) + whole.1 =~= whole.1);
    }
    while index < count
        invariant
            index <= count == views.len(),
            rest@.len() == count - index,
            Statement::views(rest@) =~= views.skip(index as int),
            ({
                let (last, remaining) = normalized_from(views, index as int, *stats);
                whole == (last, Statement::views(done@) + remaining)
            }),
        decreases count - index,
    {
        let ghost before = Statement::views(rest@);
        let ghost held = Statement::views(done@);
        let ghost noted = *stats;
        let statement = rest.remove(0);
        proof {
            assert(before[0] == views[index as int]);
            assert(Statement::views(rest@) =~= before.skip(1));
            nodes::statement_node(statement);
        }
        match statement {
            Statement::If(branch) => {
                let then_empty = branch.then_block.is_empty();
                let else_empty = branch.else_block.is_empty();
                if then_empty && else_empty && !branch.condition.has_side_effects() {
                    stats.removed_empty = bump(stats.removed_empty);
                } else if then_empty && !else_empty {
                    let If { condition, then_block, else_block } = branch;
                    let turned = Statement::If(
                        If {
                            condition: invert_condition(condition),
                            then_block: else_block,
                            else_block: then_block,
                        },
                    );
                    proof {
                        nodes::statement_node(turned);
                    }
                    done.push(turned);
                    stats.inverted_empty_then = bump(stats.inverted_empty_then);
                    proof {
                        assert(Statement::views(done@) =~= held.push(turned@));
                    }
                } else {
                    let kept = Statement::If(branch);
                    done.push(kept);
                    proof {
                        assert(Statement::views(done@) =~= held.push(views[index as int]));
                    }
                }
            },
            other => {
                done.push(other);
                proof {
                    assert(Statement::views(done@) =~= held.push(views[index as int]));
                }
            },
        }
        proof {
            let (last, remaining) = normalized_from(views, index as int, noted);
            let (_, fewer) = normalized_from(views, index + 1, *stats);
            assert(Statement::views(done@) + fewer =~= held + remaining);
        }
        index += 1;
    }
    let done = Block(done);
    proof {
        assert(done@ + Seq::<StatementView>::empty() =~= done@);
    }
    done
}

fn flatten_terminal_branches(block: Block, stats: &mut ControlFlowCleanupStats) -> (done: Block)
    ensures
        (*final(stats), done@) == flattened(block@, *old(stats)),
{
    let ghost whole = flattened(block@, *stats);
    let mut rest = block.0;
    let mut done: Vec<Statement> = Vec::new();
    proof {
        assert(Statement::views(done@) + whole.1 =~= whole.1);
    }
    while rest.len() > 0
        invariant
            ({
                let (last, remaining) = flattened(Statement::views(rest@), *stats);
                whole == (last, Statement::views(done@) + remaining)
            }),
        decreases StatementView::sizes_from(Statement::views(rest@), 0),
    {
        let ghost before = Statement::views(rest@);
        let ghost held = Statement::views(done@);
        let ghost noted = *stats;
        proof {
            model::lemma_statement_sizes_skip(before, 0);
            model::lemma_nested_smaller(before[0]);
        }
        let statement = rest.remove(0);
        let ghost behind = before.skip(1);
        proof {
            assert(Statement::views(rest@) =~= behind);
            nodes::statement_node(statement);
        }
        match statement {
            Statement::If(branch) => {
                let If { condition, then_block, else_block } = branch;
                proof {
                    assert(before[0].blocks()[0] == then_block@);
                    assert(before[0].blocks()[1] == else_block@);
                    model::lemma_statement_sizes_join(then_block@, behind);
                    model::lemma_statement_sizes_join(else_block@, behind);
                }
                let then_terminates = block_terminates(&then_block);
                let else_terminates = block_terminates(&else_block);
                if else_block.is_empty() || (!then_terminates && !else_terminates) {
                    let kept = Statement::If(If { condition, then_block, else_block });
                    proof {
                        nodes::statement_node(kept);
                    }
                    done.push(kept);
                    proof {
                        assert(Statement::views(done@) =~= held.push(before[0]));
                    }
                } else if then_terminates {
                    let guard = Statement::If(
                        If { condition, then_block, else_block: Block(Vec::new()) },
                    );
                    proof {
                        nodes::statement_node(guard);
                        assert(Statement::views(Seq::<Statement>::empty())
                            =~= Seq::<StatementView>::empty());
                    }
                    done.push(guard);
                    let mut moved = else_block.0;
                    let ghost first = Statement::views(moved@);
                    moved.append(&mut rest);
                    rest = moved;
                    stats.flattened_guards = bump(stats.flattened_guards);
                    proof {
                        assert(Statement::views(done@) =~= held.push(guard@));
                        assert(Statement::views(rest@) =~= first + behind);
                    }
                } else {
                    let guard = Statement::If(
                        If {
                            condition: invert_condition(condition),
                            then_block: else_block,
                            else_block: Block(Vec::new()),
                        },
                    );
                    proof {
                        nodes::statement_node(guard);
                        assert(Statement::views(Seq::<Statement>::empty())
                            =~= Seq::<StatementView>::empty());
                    }
                    done.push(guard);
                    let mut moved = then_block.0;
                    let ghost first = Statement::views(moved@);
                    moved.append(&mut rest);
                    rest = moved;
                    stats.flattened_guards = bump(stats.flattened_guards);
                    stats.inverted_terminal_else = bump(stats.inverted_terminal_else);
                    proof {
                        assert(Statement::views(done@) =~= held.push(guard@));
                        assert(Statement::views(rest@) =~= first + behind);
                    }
                }
            },
            other => {
                done.push(other);
                proof {
                    assert(Statement::views(done@) =~= held.push(before[0]));
                }
            },
        }
        proof {
            let (last, remaining) = flattened(before, noted);
            let (_, fewer) = flattened(Statement::views(rest@), *stats);
            assert(Statement::views(done@) + fewer =~= held + remaining);
        }
    }
    let done = Block(done);
    proof {
        assert(done@ + Seq::<StatementView>::empty() =~= done@);
    }
    done
}

fn recover_loop_tail_guard(block: Block, stats: &mut ControlFlowCleanupStats) -> (done: Block)
    ensures
        (*final(stats), done@) == guarded(block@, *old(stats)),
{
    let ghost views = block@;
    let mut done = block.0;
    match done.pop() {
        None => Block(done),
        Some(statement) => {
            proof {
                nodes::statement_node(statement);
                assert(Statement::views(done@) =~= views.drop_last());
                assert(views.last() == statement@);
            }
            match statement {
                Statement::If(branch) => {
                    if !branch.else_block.is_empty() || branch.then_block.is_empty()
                        || block_terminates(&branch.then_block) {
                        let kept = Statement::If(branch);
                        done.push(kept);
                        proof {
                            assert(Statement::views(done@) =~= views);
                        }
                        return Block(done);
                    }
                    let If { condition, then_block, else_block } = branch;
                    let mut body = then_block.0;
                    let ghost moved = Statement::views(body@);
                    let again = Statement::Continue(Continue {  });
                    let mut arm: Vec<Statement> = Vec::new();
                    arm.push(again);
                    let guard = Statement::If(
                        If {
                            condition: invert_condition(condition),
                            then_block: Block(arm),
                            else_block,
                        },
                    );
                    proof {
                        nodes::statement_node(again);
                        nodes::statement_node(guard);
                        assert(Statement::views(arm@) =~= seq![StatementView::Continue]);
                    }
                    done.push(guard);
                    proof {
                        assert(Statement::views(done@) =~= views.drop_last().push(guard@));
                    }
                    let ghost front = Statement::views(done@);
                    done.append(&mut body);
                    stats.loop_guards = bump(stats.loop_guards);
                    proof {
                        assert(Statement::views(done@) =~= front + moved);
                    }
                    Block(done)
                },
                other => {
                    done.push(other);
                    proof {
                        assert(Statement::views(done@) =~= views);
                    }
                    Block(done)
                },
            }
        },
    }
}

/// Straightens the branches and loops of a tree, and counts what it did.
pub struct ControlFlowCleanup {
    pub stats: ControlFlowCleanupStats,
}

impl BlockPass for ControlFlowCleanup {
    type Notes = ControlFlowCleanupStats;

    open spec fn notes(&self) -> ControlFlowCleanupStats {
        self.stats
    }

    open spec fn enters_closures() -> bool {
        true
    }

    open spec fn enters_scopes() -> bool {
        false
    }

    open spec fn settled(value: RValueView) -> RValueView {
        value
    }

    open spec fn finished(
        notes: ControlFlowCleanupStats,
        block: Seq<StatementView>,
        looped: bool,
    ) -> Cleaned {
        let (normal, block) = normalized_from(block, 0, notes);
        let (flat, block) = flattened(block, normal);
        if looped {
            guarded(block, flat)
        } else {
            (flat, block)
        }
    }

    fn closures_entered() -> (result: bool) {
        true
    }

    fn scopes_entered() -> (result: bool) {
        false
    }

    fn settle(value: RValue) -> (settled: RValue) {
        value
    }

    fn finish(&mut self, block: Block, looped: bool) -> (done: Block) {
        let mut stats = self.stats;
        let block = normalize_empty_branches(block, &mut stats);
        let block = flatten_terminal_branches(block, &mut stats);
        let block = if looped {
            recover_loop_tail_guard(block, &mut stats)
        } else {
            block
        };
        self.stats = stats;
        block
    }
}

/// Straightens the branches and loops of a block: drops branches that do
/// nothing, takes what follows a branch that ends the block out of it, and
/// guards the last branch of a loop body.
pub fn cleanup_control_flow(block: Block) -> (result: (Block, ControlFlowCleanupStats))
    ensures
        (result.1, result.0@) == StatementView::walked_block::<ControlFlowCleanup>(
            block@,
            ControlFlowCleanupStats::none(),
            false,
        ),
{
    let mut pass = ControlFlowCleanup { stats: ControlFlowCleanupStats::default() };
    let block = walk_block(block, &mut pass, false);
    (block, pass.stats)
}

} // verus!
