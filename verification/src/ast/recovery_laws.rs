//! That recovering expressions keeps what a block does.

use vstd::prelude::*;

use crate::ast::alias_laws;
use crate::ast::expression_recovery;
use crate::ast::expression_recovery::{ExpressionRecovery, RecoveryNotes};
use crate::ast::inlining_laws;
use crate::ast::local::RcLocal;
use crate::ast::meaning;
use crate::ast::meaning::{Exit, Machine, Value, World};
use crate::ast::meaning_laws;
use crate::ast::nodes::{AssignView, LValueView, RValueView, StatementView, UnaryOperation};
use crate::ast::replacement_laws;
use crate::ast::walk::BlockPass;

verus! {

/// Giving one local one value does what computing the value does, and then the
/// local has it.
pub proof fn lemma_assigned_run(statement: StatementView, m: Machine, world: World, fuel: nat)
    requires
        expression_recovery::plain_assignment(statement) is Some,
    ensures
        ({
            let (target, value) = expression_recovery::plain_assignment(statement)->0;
            let (results, after) = value.evaluated(m, world);
            statement.run(m, world, fuel) == (
                m.stored(target, meaning::first(results), after),
                Exit::Normal,
            )
        }),
{
    let assign = statement->Assign_0;
    let (target, value) = expression_recovery::plain_assignment(statement)->0;
    let (results, after) = value.evaluated(m, world);
    assert(LValueView::children_from(assign.left, 1) =~= Seq::empty());
    assert(LValueView::children_from(assign.left, 0) =~= Seq::empty());
    assert(LValueView::arity_from(assign.left, 1) == 0);
    assert(LValueView::arity_from(assign.left, 0) == 0);
    assert(!StatementView::target_effects_from(assign.left, 1));
    assert(!StatementView::target_effects_from(assign.left, 0));
    assert(statement.roots() =~= assign.right);
    assert(RValueView::operands_from(assign.right, 1, true, m, after) == (
        Seq::<Value>::empty(),
        after,
    ));
    assert(results + Seq::<Value>::empty() =~= results);
    assert(statement.inputs(m, world) == (results, after));
    let next = m.stored(target, meaning::first(results), after);
    assert(meaning::targets_stored(assign.left, 1, results, 1, m, next) == next);
    assert(meaning::targets_stored(assign.left, 0, results, 0, m, after) == next);
}

/// A block that only gives a local a value does so.
proof fn lemma_arm_run(block: Seq<StatementView>, m: Machine, world: World, fuel: nat)
    requires
        expression_recovery::single_local_assignment(block) is Some,
    ensures
        ({
            let (target, value) = expression_recovery::single_local_assignment(block)->0;
            let (results, after) = value.evaluated(m, world);
            StatementView::run_from(block, 0, m, world, fuel) == (
                m.stored(target, meaning::first(results), after),
                Exit::Normal,
            )
        }),
{
    lemma_assigned_run(block[0], m, world, fuel);
    let next = block[0].run(m, world, fuel).0;
    assert(StatementView::run_from(block, 1, m, next, fuel) == (next, Exit::Normal));
}

/// A branch written as a conditional does what the branch does in every world:
/// the target has the value that the arm which is taken gives it.
pub proof fn conditionals_keep_runs(statement: StatementView, m: Machine, world: World, fuel: nat)
    requires
        expression_recovery::as_conditional(statement) is Some,
    ensures
        (expression_recovery::as_conditional(statement)->0).run(m, world, fuel) == statement.run(
            m,
            world,
            fuel,
        ),
{
    let made = expression_recovery::as_conditional(statement)->0;
    lemma_assigned_run(made, m, world, fuel);
    if let StatementView::If { condition, then_block, else_block } = statement {
        let middle = condition.evaluated(m, world).1;
        lemma_arm_run(then_block, m, middle, fuel);
        lemma_arm_run(else_block, m, middle, fuel);
    }
}

/// Writing the branches of a block as conditionals keeps what the block does.
pub proof fn conditionals_keep_blocks(
    block: Seq<StatementView>,
    from: int,
    m: Machine,
    world: World,
    fuel: nat,
)
    requires
        0 <= from <= block.len(),
    ensures
        StatementView::run_from(
            expression_recovery::conditionals_from(block, from).1,
            0,
            m,
            world,
            fuel,
        ) == StatementView::run_from(block, from, m, world, fuel),
    decreases block.len() - from,
{
    if from < block.len() {
        let rest = expression_recovery::conditionals_from(block, from + 1).1;
        let first = match expression_recovery::as_conditional(block[from]) {
            Some(made) => {
                conditionals_keep_runs(block[from], m, world, fuel);
                made
            },
            None => block[from],
        };
        let after = block[from].run(m, world, fuel).0;
        meaning_laws::lemma_run_first(first, rest, m, world, fuel);
        conditionals_keep_blocks(block, from + 1, m, after, fuel);
    }
}

/// Two statements written as a short circuit do what the two do, one after the
/// other, in every world.
pub proof fn short_circuits_keep_runs(
    first: StatementView,
    second: StatementView,
    protected: Set<u64>,
    m: Machine,
    world: World,
    fuel: nat,
)
    requires
        expression_recovery::as_short_circuit(first, second, protected) is Some,
        m.shared.subset_of(protected),
    ensures
        first.run(m, world, fuel).1 is Normal,
        (expression_recovery::as_short_circuit(first, second, protected)->0).run(m, world, fuel)
            == second.run(m, first.run(m, world, fuel).0, fuel),
{
    let made = expression_recovery::as_short_circuit(first, second, protected)->0;
    let (target, value) = expression_recovery::plain_assignment(first)->0;
    lemma_assigned_run(first, m, world, fuel);
    lemma_assigned_run(made, m, world, fuel);
    let (results, middle) = value.evaluated(m, world);
    let held = meaning::first(results);
    let between = m.stored(target, held, middle);
    assert(m.loaded(target, between) == held);
    if let StatementView::If { condition, then_block, else_block } = second {
        let (other, branch_value) = expression_recovery::single_local_assignment(then_block)->0;
        lemma_arm_run(then_block, m, between, fuel);
        meaning_laws::unread_locals_stay(branch_value, target, held, m, middle);
        let (given, after) = branch_value.evaluated(m, middle);
        assert(m.stored(target, meaning::first(given), m.stored(target, held, after)).locals
            =~= m.stored(target, meaning::first(given), after).locals);
        assert(StatementView::run_from(else_block, 0, m, between, fuel) == (
            between,
            Exit::Normal,
        ));
        let local = RValueView::Local(target);
        assert(local.evaluated(m, between) == (seq![held], between));
        if condition != local {
            assert(condition.evaluated(m, between) == (
                seq![Value::Boolean(!held.is_truthy())],
                between,
            ));
        }
    }
}

proof fn lemma_short_circuits_prefix(
    block: Seq<StatementView>,
    from: int,
    protected: Set<u64>,
)
    requires
        0 <= from <= block.len(),
    ensures
        ({
            let made = expression_recovery::short_circuits_from(block, from, protected).1;
            made.len() >= from && made.take(from) == block.take(from)
        }),
    decreases block.len() - from,
{
    if from + 1 < block.len() {
        let made = expression_recovery::short_circuits_from(block, from, protected).1;
        match expression_recovery::as_short_circuit(block[from], block[from + 1], protected) {
            Some(recovered) => {
                let next = block.update(from, recovered).remove(from + 1);
                lemma_short_circuits_prefix(next, from, protected);
                assert(next.take(from) =~= block.take(from));
            },
            None => {
                lemma_short_circuits_prefix(block, from + 1, protected);
                assert(made.take(from) =~= made.take(from + 1).take(from));
                assert(block.take(from) =~= block.take(from + 1).take(from));
            },
        }
    }
}

/// Writing pairs of statements of a block as short circuits keeps what the
/// block does.
pub proof fn short_circuits_keep_blocks(
    block: Seq<StatementView>,
    from: int,
    protected: Set<u64>,
    m: Machine,
    world: World,
    fuel: nat,
)
    requires
        0 <= from <= block.len(),
        m.shared.subset_of(protected),
    ensures
        StatementView::run_from(
            expression_recovery::short_circuits_from(block, from, protected).1,
            from,
            m,
            world,
            fuel,
        ) == StatementView::run_from(block, from, m, world, fuel),
    decreases block.len() - from,
{
    if from + 1 < block.len() {
        let made = expression_recovery::short_circuits_from(block, from, protected).1;
        match expression_recovery::as_short_circuit(block[from], block[from + 1], protected) {
            Some(recovered) => {
                let given = block.update(from, recovered);
                let next = given.remove(from + 1);
                short_circuits_keep_blocks(next, from, protected, m, world, fuel);
                short_circuits_keep_runs(
                    block[from],
                    block[from + 1],
                    protected,
                    m,
                    world,
                    fuel,
                );
                let middle = block[from].run(m, world, fuel).0;
                let (after, exit) = recovered.run(m, world, fuel);
                assert(next[from] == recovered);
                alias_laws::lemma_removed_later(given, from + 1, from + 2, m, after, fuel);
                alias_laws::lemma_same_later(block, given, from + 2, m, after, fuel);
                assert(block[from + 1].run(m, middle, fuel) == (after, exit));
                assert(StatementView::run_from(block, from + 1, m, middle, fuel) == if exit
                    is Normal {
                    StatementView::run_from(block, from + 2, m, after, fuel)
                } else {
                    (after, exit)
                });
            },
            None => {
                lemma_short_circuits_prefix(block, from + 1, protected);
                assert(made[from] == made.take(from + 1)[from]);
                assert(block[from] == block.take(from + 1)[from]);
                let after = block[from].run(m, world, fuel).0;
                short_circuits_keep_blocks(block, from + 1, protected, m, after, fuel);
            },
        }
    }
}

/// Recovering the expressions of a block keeps what the block does in every
/// world, but for the locals whose values were moved.
pub proof fn recovery_keeps_runs(
    notes: RecoveryNotes,
    block: Seq<StatementView>,
    looped: bool,
    m: Machine,
    world: World,
    fuel: nat,
)
    requires
        m.is_settled(),
        m.shared.subset_of(notes.protected),
        inlining_laws::is_orderly(folded(block, notes.protected), notes.protected, m),
    ensures
        replacement_laws::ends_alike(
            StatementView::run_from(
                ExpressionRecovery::finished(notes, block, looped).1,
                0,
                m,
                world,
                fuel,
            ),
            StatementView::run_from(block, 0, m, world, fuel),
            inlining_laws::temporaries(folded(block, notes.protected), notes.protected),
        ),
{
    let conditionals = expression_recovery::conditionals_from(block, 0).1;
    conditionals_keep_blocks(block, 0, m, world, fuel);
    short_circuits_keep_blocks(conditionals, 0, notes.protected, m, world, fuel);
    inlining_laws::inlining_keeps_runs(
        folded(block, notes.protected),
        notes.protected,
        m,
        world,
        fuel,
    );
}

/// A block with its branches written as conditionals and short circuits.
pub open spec fn folded(block: Seq<StatementView>, protected: Set<u64>) -> Seq<StatementView> {
    expression_recovery::short_circuits_from(
        expression_recovery::conditionals_from(block, 0).1,
        0,
        protected,
    ).1
}

/// What a branch or a pair of statements is recovered as does not read the
/// local that it gives a value.
pub proof fn recovered_values_are_apart(
    first: StatementView,
    second: StatementView,
    protected: Set<u64>,
)
    ensures
        expression_recovery::as_conditional(first) matches Some(made)
            ==> expression_recovery::plain_assignment(made) matches Some((target, value))
            && !value.reads().contains(target),
        expression_recovery::as_short_circuit(first, second, protected) matches Some(made)
            ==> expression_recovery::plain_assignment(made) matches Some((target, value))
            && !value.reads().contains(target) && !protected.contains(target.id),
{
    if let Some(made) = expression_recovery::as_conditional(first) {
        let (target, value) = expression_recovery::plain_assignment(made)->0;
        lemma_unread_operands(value, target);
    }
    if let Some(made) = expression_recovery::as_short_circuit(first, second, protected) {
        let (target, value) = expression_recovery::plain_assignment(made)->0;
        lemma_unread_operands(value, target);
    }
}

proof fn lemma_unread_operands(value: RValueView, local: RcLocal)
    requires
        value is Conditional || value is Binary,
        forall|i: int|
            0 <= i < value.children().len() ==> !(
            #[trigger] value.children()[i]).reads().contains(local),
    ensures
        !value.reads().contains(local),
{
    let children = value.children();
    replacement_laws::lemma_unread_later(children, 0, local);
}

/// Every branch whose arms only give one local a value, which neither they nor
/// the condition read, is written as a conditional.
pub proof fn conditionals_are_recovered(
    condition: RValueView,
    target: RcLocal,
    then_value: RValueView,
    else_value: RValueView,
)
    requires
        !condition.reads().contains(target),
        !then_value.reads().contains(target),
        !else_value.reads().contains(target),
    ensures
        expression_recovery::as_conditional(
            StatementView::If {
                condition,
                then_block: seq![plainly(target, then_value)],
                else_block: seq![plainly(target, else_value)],
            },
        ) is Some,
{
}

/// Every pair of statements is written as a short circuit of which the first
/// gives a local a value that does not read it, and the second gives it
/// another where the first is true, or where it is not.
pub proof fn short_circuits_are_recovered(
    target: RcLocal,
    value: RValueView,
    other: RValueView,
    protected: Set<u64>,
)
    requires
        !protected.contains(target.id),
        !value.reads().contains(target),
        !other.reads().contains(target),
    ensures
        expression_recovery::as_short_circuit(
            plainly(target, value),
            StatementView::If {
                condition: RValueView::Local(target),
                then_block: seq![plainly(target, other)],
                else_block: Seq::empty(),
            },
            protected,
        ) is Some,
        expression_recovery::as_short_circuit(
            plainly(target, value),
            StatementView::If {
                condition: RValueView::Unary(
                    Box::new(RValueView::Local(target)),
                    UnaryOperation::Not,
                ),
                then_block: seq![plainly(target, other)],
                else_block: Seq::empty(),
            },
            protected,
        ) is Some,
{
}

/// A statement that gives a local a value.
pub open spec fn plainly(target: RcLocal, value: RValueView) -> StatementView {
    StatementView::Assign(
        AssignView {
            left: seq![LValueView::Local(target)],
            right: seq![value],
            prefix: false,
            parallel: false,
        },
    )
}

} // verus!
