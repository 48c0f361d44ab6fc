//! That statements leave the locals alone that they do not mention.

use vstd::prelude::*;

use crate::ast::local::RcLocal;
use crate::ast::meaning;
use crate::ast::meaning::{Machine, Value, World};
use crate::ast::meaning_laws;
use crate::ast::nodes::{LValueView, RValueView, StatementView};
use crate::ast::{model, rewrite};

verus! {

/// Giving one local a value and then another is the same in either order.
pub proof fn lemma_stores_commute(
    left: RcLocal,
    first: Value,
    right: RcLocal,
    second: Value,
    m: Machine,
    world: World,
)
    requires
        left.id != right.id,
        !m.shared.contains(left.id),
    ensures
        m.stored(right, second, m.stored(left, first, world)) == m.stored(
            left,
            first,
            m.stored(right, second, world),
        ),
{
    let a = m.stored(right, second, m.stored(left, first, world));
    let b = m.stored(left, first, m.stored(right, second, world));
    assert(a.locals =~= b.locals);
}

pub proof fn lemma_contains_parts(left: Seq<RcLocal>, right: Seq<RcLocal>, local: RcLocal)
    ensures
        (left + right).contains(local) == (left.contains(local) || right.contains(local)),
{
    if left.contains(local) {
        let k = choose|k: int| 0 <= k < left.len() && left[k] == local;
        assert((left + right)[k] == local);
    }
    if right.contains(local) {
        let k = choose|k: int| 0 <= k < right.len() && right[k] == local;
        assert((left + right)[left.len() + k] == local);
    }
    if (left + right).contains(local) {
        let k = choose|k: int| 0 <= k < (left + right).len() && (left + right)[k] == local;
        if k < left.len() {
            assert(left[k] == local);
        } else {
            assert(right[k - left.len()] == local);
        }
    }
}

pub proof fn lemma_targets_frame(
    targets: Seq<LValueView>,
    from: int,
    values: Seq<Value>,
    at: int,
    local: RcLocal,
    given: Value,
    m: Machine,
    world: World,
)
    requires
        0 <= from,
        !m.shared.contains(local.id),
        !LValueView::writes_from(targets, from).contains(local),
    ensures
        meaning::targets_stored(targets, from, values, at, m, m.stored(local, given, world))
            == m.stored(
            local,
            given,
            meaning::targets_stored(targets, from, values, at, m, world),
        ),
    decreases targets.len() - from,
{
    if from < targets.len() {
        let value = if 0 <= at < values.len() {
            values[at]
        } else {
            Value::Nil
        };
        lemma_contains_parts(
            targets[from].writes(),
            LValueView::writes_from(targets, from + 1),
            local,
        );
        let next = match targets[from] {
            LValueView::Local(target) => m.stored(target, value, world),
            _ => world,
        };
        if let LValueView::Local(target) = targets[from] {
            assert(targets[from].writes()[0] == target);
            assert(target.id != local.id);
            lemma_stores_commute(local, given, target, value, m, world);
        }
        lemma_targets_frame(targets, from + 1, values, at + 1, local, given, m, next);
    }
}

pub proof fn lemma_outcomes_frame(
    statement: StatementView,
    locals: Seq<RcLocal>,
    from: int,
    values: Seq<Value>,
    local: RcLocal,
    given: Value,
    m: Machine,
    world: World,
)
    requires
        0 <= from,
        !m.shared.contains(local.id),
        !locals.contains(local),
    ensures
        statement.outcomes_stored(locals, from, values, m, m.stored(local, given, world))
            == m.stored(
            local,
            given,
            statement.outcomes_stored(locals, from, values, m, world),
        ),
    decreases locals.len() - from,
{
    if from < locals.len() {
        assert(locals[from].id != local.id) by {
            if locals[from].id == local.id {
                assert(locals[from] == local);
            }
        }
        let value = (m.outcome)(statement.frame(), values, from, world.rest);
        lemma_stores_commute(local, given, locals[from], value, m, world);
        lemma_outcomes_frame(
            statement,
            locals,
            from + 1,
            values,
            local,
            given,
            m,
            m.stored(locals[from], value, world),
        );
    }
}

proof fn lemma_inputs_frame(
    statement: StatementView,
    local: RcLocal,
    given: Value,
    m: Machine,
    world: World,
)
    requires
        !m.shared.contains(local.id),
        !statement.reads().contains(local),
    ensures
        statement.inputs(m, m.stored(local, given, world)) == (
            statement.inputs(m, world).0,
            m.stored(local, given, statement.inputs(m, world).1),
        ),
{
    rewrite::statements_read_their_expressions(statement);
    lemma_contains_parts(
        rewrite::direct_reads(statement),
        RValueView::reads_from(statement.roots(), 0),
        local,
    );
    meaning_laws::lemma_unread_operands(
        statement.roots(),
        0,
        statement.expands(),
        local,
        given,
        m,
        world,
    );
    if let StatementView::SetList { object_local, .. } = statement {
        assert(statement.reads()[0] == object_local);
        assert(object_local.id != local.id) by {
            if object_local.id == local.id {
                assert(object_local == local);
            }
        }
    }
}

/// What a statement that holds no blocks does does not depend on a local that
/// it neither reads nor writes and nobody else sees.
pub proof fn lemma_step_frame(
    statement: StatementView,
    local: RcLocal,
    given: Value,
    m: Machine,
    world: World,
)
    requires
        !m.shared.contains(local.id),
        !statement.reads().contains(local),
        !statement.writes().contains(local),
    ensures
        statement.stepped(m, m.stored(local, given, world)) == m.stored(
            local,
            given,
            statement.stepped(m, world),
        ),
{
    lemma_inputs_frame(statement, local, given, m, world);
    let (values, after) = statement.inputs(m, world);
    match statement {
        StatementView::Assign(assign) => {
            let done = if StatementView::target_effects_from(assign.left, 0) {
                World { rest: (m.perform)(statement.frame(), values, after.rest), ..after }
            } else {
                after
            };
            lemma_targets_frame(
                assign.left,
                0,
                values,
                LValueView::arity_from(assign.left, 0) as int,
                local,
                given,
                m,
                done,
            );
        },
        StatementView::Empty | StatementView::Comment(_) => {},
        _ => {
            let done = World {
                rest: (m.perform)(statement.frame(), values, after.rest),
                ..after
            };
            lemma_outcomes_frame(
                statement,
                statement.writes(),
                0,
                values,
                local,
                given,
                m,
                done,
            );
        },
    }
}

/// Whether a statement, or a block in it, mentions a local.
pub open spec fn mentions(statement: StatementView, local: RcLocal) -> bool {
    ||| statement.reads().contains(local)
    ||| statement.writes().contains(local)
    ||| StatementView::blocks_touched(statement.blocks(), 0).contains(local)
}

proof fn lemma_touched_mentions(statement: StatementView, local: RcLocal)
    requires
        mentions(statement, local),
    ensures
        statement.touched().contains(local),
{
    let own = statement.locals() + RValueView::touched_from(statement.rvalues(), 0);
    lemma_contains_parts(own, StatementView::blocks_touched(statement.blocks(), 0), local);
    lemma_contains_parts(
        statement.locals(),
        RValueView::touched_from(statement.rvalues(), 0),
        local,
    );
    lemma_contains_parts(statement.reads(), statement.writes(), local);
}

pub proof fn lemma_touched_block(blocks: Seq<Seq<StatementView>>, from: int, k: int, local: RcLocal)
    requires
        0 <= from <= k < blocks.len(),
        !StatementView::blocks_touched(blocks, from).contains(local),
    ensures
        !StatementView::touched_from(blocks[k], 0).contains(local),
    decreases k - from,
{
    lemma_contains_parts(
        StatementView::touched_from(blocks[from], 0),
        StatementView::blocks_touched(blocks, from + 1),
        local,
    );
    if from < k {
        lemma_touched_block(blocks, from + 1, k, local);
    }
}

/// What a statement does does not depend on a local that nothing in it mentions
/// and nobody else sees.
pub proof fn unmentioned_locals_stay(
    statement: StatementView,
    local: RcLocal,
    given: Value,
    m: Machine,
    world: World,
    fuel: nat,
)
    requires
        !m.shared.contains(local.id),
        !mentions(statement, local),
    ensures
        statement.run(m, m.stored(local, given, world), fuel) == (
            m.stored(local, given, statement.run(m, world, fuel).0),
            statement.run(m, world, fuel).1,
        ),
    decreases fuel, statement.size(), 2int,
{
    model::lemma_nested_smaller(statement);
    lemma_inputs_frame(statement, local, given, m, world);
    rewrite::statements_read_their_expressions(statement);
    lemma_contains_parts(
        rewrite::direct_reads(statement),
        RValueView::reads_from(statement.roots(), 0),
        local,
    );
    let (values, after) = statement.inputs(m, world);
    match statement {
        StatementView::Break | StatementView::Continue | StatementView::Goto(_)
        | StatementView::Return(_) => {},
        StatementView::Do(block) => {
            assert(statement.blocks()[0] == block);
            lemma_touched_block(statement.blocks(), 0, 0, local);
            lemma_untouched_from(block, 0, local, given, m, world, fuel);
        },
        StatementView::If { condition, then_block, else_block } => {
            assert(statement.roots()[0] == condition);
            meaning_laws::lemma_not_read(statement.roots(), 0, 0, local);
            meaning_laws::unread_locals_stay(condition, local, given, m, world);
            let middle = condition.evaluated(m, world).1;
            assert(statement.blocks()[0] == then_block && statement.blocks()[1] == else_block);
            lemma_touched_block(statement.blocks(), 0, 0, local);
            lemma_touched_block(statement.blocks(), 0, 1, local);
            lemma_untouched_from(then_block, 0, local, given, m, middle, fuel);
            lemma_untouched_from(else_block, 0, local, given, m, middle, fuel);
        },
        StatementView::While { .. } | StatementView::Repeat { .. } => {
            lemma_untouched_rounds(statement, Seq::empty(), local, given, m, world, fuel);
        },
        StatementView::NumericFor { .. } | StatementView::GenericFor { .. } => {
            let start = World {
                rest: (m.perform)(statement.frame(), values, after.rest),
                ..after
            };
            lemma_untouched_rounds(statement, values, local, given, m, start, fuel);
        },
        _ => lemma_step_frame(statement, local, given, m, world),
    }
}

pub proof fn lemma_untouched_rounds(
    statement: StatementView,
    values: Seq<Value>,
    local: RcLocal,
    given: Value,
    m: Machine,
    world: World,
    fuel: nat,
)
    requires
        statement.is_loop(),
        !m.shared.contains(local.id),
        !mentions(statement, local),
    ensures
        statement.looped(values, m, m.stored(local, given, world), fuel) == (
            m.stored(local, given, statement.looped(values, m, world, fuel).0),
            statement.looped(values, m, world, fuel).1,
        ),
    decreases fuel, statement.size(), 1int,
{
    if fuel > 0 {
        let less = (fuel - 1) as nat;
        let block = statement.blocks()[0];
        lemma_touched_block(statement.blocks(), 0, 0, local);
        rewrite::statements_read_their_expressions(statement);
        match statement {
            StatementView::While { condition, .. } => {
                assert(statement.roots()[0] == condition);
                lemma_contains_parts(
                    rewrite::direct_reads(statement),
                    RValueView::reads_from(statement.roots(), 0),
                    local,
                );
                meaning_laws::lemma_not_read(statement.roots(), 0, 0, local);
                meaning_laws::unread_locals_stay(condition, local, given, m, world);
                let start = condition.evaluated(m, world).1;
                lemma_untouched_from(block, 0, local, given, m, start, less);
                let after = StatementView::run_from(block, 0, m, start, less).0;
                lemma_untouched_rounds(statement, values, local, given, m, after, less);
            },
            StatementView::Repeat { condition, .. } => {
                assert(statement.roots()[0] == condition);
                lemma_contains_parts(
                    rewrite::direct_reads(statement),
                    RValueView::reads_from(statement.roots(), 0),
                    local,
                );
                meaning_laws::lemma_not_read(statement.roots(), 0, 0, local);
                lemma_untouched_from(block, 0, local, given, m, world, less);
                let after = StatementView::run_from(block, 0, m, world, less).0;
                meaning_laws::unread_locals_stay(condition, local, given, m, after);
                let last = condition.evaluated(m, after).1;
                lemma_untouched_rounds(statement, values, local, given, m, last, less);
            },
            _ => {
                let begun = World {
                    rest: (m.perform)(statement.frame(), values, world.rest),
                    ..world
                };
                lemma_outcomes_frame(
                    statement,
                    statement.writes(),
                    0,
                    values,
                    local,
                    given,
                    m,
                    begun,
                );
                let start = statement.outcomes_stored(statement.writes(), 0, values, m, begun);
                lemma_untouched_from(block, 0, local, given, m, start, less);
                let after = StatementView::run_from(block, 0, m, start, less).0;
                lemma_untouched_rounds(statement, values, local, given, m, after, less);
            },
        }
    }
}

pub proof fn lemma_untouched_from(
    block: Seq<StatementView>,
    from: int,
    local: RcLocal,
    given: Value,
    m: Machine,
    world: World,
    fuel: nat,
)
    requires
        0 <= from,
        !m.shared.contains(local.id),
        !StatementView::touched_from(block, from).contains(local),
    ensures
        StatementView::run_from(block, from, m, m.stored(local, given, world), fuel) == (
            m.stored(local, given, StatementView::run_from(block, from, m, world, fuel).0),
            StatementView::run_from(block, from, m, world, fuel).1,
        ),
    decreases fuel, StatementView::sizes_from(block, from), 3int,
{
    model::lemma_statement_sizes_step(block, from);
    if from < block.len() {
        lemma_contains_parts(
            block[from].touched(),
            StatementView::touched_from(block, from + 1),
            local,
        );
        if mentions(block[from], local) {
            lemma_touched_mentions(block[from], local);
        }
        unmentioned_locals_stay(block[from], local, given, m, world, fuel);
        let after = block[from].run(m, world, fuel).0;
        lemma_untouched_from(block, from + 1, local, given, m, after, fuel);
    }
}

/// The same of the statements of a block from position `from` on.
pub proof fn lemma_unmentioned_from(
    block: Seq<StatementView>,
    from: int,
    local: RcLocal,
    given: Value,
    m: Machine,
    world: World,
    fuel: nat,
)
    requires
        0 <= from,
        !m.shared.contains(local.id),
        forall|i: int| from <= i < block.len() ==> !mentions(#[trigger] block[i], local),
    ensures
        StatementView::run_from(block, from, m, m.stored(local, given, world), fuel) == (
            m.stored(local, given, StatementView::run_from(block, from, m, world, fuel).0),
            StatementView::run_from(block, from, m, world, fuel).1,
        ),
    decreases block.len() - from,
{
    if from < block.len() {
        unmentioned_locals_stay(block[from], local, given, m, world, fuel);
        let after = block[from].run(m, world, fuel).0;
        lemma_unmentioned_from(block, from + 1, local, given, m, after, fuel);
    }
}

} // verus!
