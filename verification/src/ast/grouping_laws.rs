//! That joining declarations keeps what a block does.

use vstd::prelude::*;

use crate::ast::local::RcLocal;
use crate::ast::local_grouping;
use crate::ast::meaning;
use crate::ast::meaning::{Exit, Machine, Value, World};
use crate::ast::meaning_laws;
use crate::ast::nodes::{AssignView, LValueView, RValueView, StatementView};
use crate::ast::replacement_laws;

verus! {

/// The targets past the first of the values get the values past the first.
proof fn lemma_targets_shift(
    targets: Seq<LValueView>,
    from: int,
    first: Value,
    values: Seq<Value>,
    at: int,
    m: Machine,
    world: World,
)
    requires
        0 <= from,
        0 <= at,
    ensures
        meaning::targets_stored(targets, from, seq![first] + values, at + 1, m, world)
            == meaning::targets_stored(targets, from, values, at, m, world),
    decreases targets.len() - from,
{
    if from < targets.len() {
        let value = if at < values.len() {
            values[at]
        } else {
            Value::Nil
        };
        let next = match targets[from] {
            LValueView::Local(local) => m.stored(local, value, world),
            _ => world,
        };
        lemma_targets_shift(targets, from + 1, first, values, at + 1, m, next);
    }
}

proof fn lemma_locals_alone(targets: Seq<LValueView>, from: int)
    requires
        0 <= from,
        forall|i: int| 0 <= i < targets.len() ==> (#[trigger] targets[i]) is Local,
    ensures
        LValueView::children_from(targets, from) == Seq::<RValueView>::empty(),
        LValueView::arity_from(targets, from) == 0,
        !StatementView::target_effects_from(targets, from),
    decreases targets.len() - from,
{
    if from < targets.len() {
        lemma_locals_alone(targets, from + 1);
        assert(LValueView::children_from(targets, from) =~= Seq::empty());
    }
}

/// An assignment of as many values as there are locals.
proof fn lemma_list_run(assign: AssignView, m: Machine, world: World, fuel: nat)
    requires
        assign.left.len() == assign.right.len() > 0,
        forall|i: int| 0 <= i < assign.left.len() ==> (#[trigger] assign.left[i]) is Local,
    ensures
        StatementView::Assign(assign).run(m, world, fuel) == (
            listed(assign.left, assign.right, 0, m, world),
            Exit::Normal,
        ),
{
    let statement = StatementView::Assign(assign);
    lemma_locals_alone(assign.left, 0);
    assert(statement.roots() =~= assign.right);
}

/// The world after some values are computed and some locals given them.
pub open spec fn listed(
    targets: Seq<LValueView>,
    values: Seq<RValueView>,
    from: int,
    m: Machine,
    world: World,
) -> World {
    let (results, after) = RValueView::operands_from(values, from, true, m, world);
    meaning::targets_stored(targets, from, results, 0, m, after)
}

/// Declarations one by one do what they do as a list, where no value reads what
/// is declared before it.
proof fn lemma_one_by_one(
    block: Seq<StatementView>,
    start: int,
    end: int,
    from: int,
    names: Seq<Option<Seq<char>>>,
    m: Machine,
    world: World,
    fuel: nat,
)
    requires
        0 <= start < end <= block.len(),
        start <= from <= end,
        local_grouping::is_independent(block, start, end, names),
        are_unshared(block, m),
    ensures
        ({
            let list = local_grouping::joined(block, start, end)->Assign_0;
            StatementView::run_from(block, from, m, world, fuel) == StatementView::run_from(
                block,
                end,
                m,
                listed(list.left, list.right, from - start, m, world),
                fuel,
            )
        }),
    decreases end - from,
{
    let list = local_grouping::joined(block, start, end)->Assign_0;
    let at = from - start;
    if from < end {
        let statement = block[from];
        let local = local_grouping::bound_local(statement);
        let value = local_grouping::bound_value(statement);
        let one = statement->Assign_0;
        assert(local_grouping::simple_declaration(block[from]) is Some);
        assert(list.left[at] == LValueView::Local(local) && list.right[at] == value);
        assert(one.left =~= seq![LValueView::Local(local)] && one.right =~= seq![value]);
        lemma_list_run(one, m, world, fuel);
        let (results, middle) = value.evaluated(m, world);
        let given = meaning::first(results);
        let next = m.stored(local, given, middle);
        lemma_single(one, local, value, m, world);
        assert(statement.run(m, world, fuel) == (next, Exit::Normal));
        lemma_one_by_one(block, start, end, from + 1, names, m, next, fuel);
        assert(!m.shared.contains(local.id));
        assert forall|j: int| at + 1 <= j < list.right.len() implies !(
        #[trigger] list.right[j]).reads().contains(local) by {
            let later = block[start + j];
            assert(local_grouping::simple_declaration(later) is Some);
            assert(list.right[j] == local_grouping::bound_value(later));
            assert(!local_grouping::bound_value(later).mentions().contains(
                local_grouping::bound_local(block[from]).id,
            ));
            if local_grouping::bound_value(later).reads().contains(local) {
                lemma_mentioned(local_grouping::bound_value(later), local);
            }
        }
        replacement_laws::lemma_unread_later(list.right, at + 1, local);
        meaning_laws::lemma_unread_operands(
            list.right,
            at + 1,
            true,
            local,
            given,
            m,
            middle,
        );
        let (rest, after) = RValueView::operands_from(list.right, at + 1, true, m, middle);
        let held = m.stored(local, given, after);
        lemma_targets_shift(list.left, at + 1, given, rest, 0, m, held);
        if at + 1 == list.right.len() {
            assert(rest =~= Seq::<Value>::empty());
            assert(results + rest =~= results);
            assert(meaning::targets_stored(list.left, at + 1, results, 1, m, held) == held);
            assert(meaning::targets_stored(list.left, at + 1, rest, 0, m, held) == held);
        } else {
            assert((seq![given] + rest)[0] == given);
        }
    } else {
        assert(RValueView::operands_from(list.right, at, true, m, world).1 == world);
    }
}

proof fn lemma_single(one: AssignView, local: RcLocal, value: RValueView, m: Machine, world: World)
    requires
        one.left == seq![LValueView::Local(local)],
        one.right == seq![value],
    ensures
        listed(one.left, one.right, 0, m, world) == m.stored(
            local,
            meaning::first(value.evaluated(m, world).0),
            value.evaluated(m, world).1,
        ),
{
    let (results, middle) = value.evaluated(m, world);
    assert(RValueView::operands_from(one.right, 1, true, m, middle) == (
        Seq::<Value>::empty(),
        middle,
    ));
    assert(results + Seq::<Value>::empty() =~= results);
    let next = m.stored(local, meaning::first(results), middle);
    assert(meaning::targets_stored(one.left, 1, results, 1, m, next) == next);
}

/// What an expression reads it mentions.
proof fn lemma_mentioned(value: RValueView, local: RcLocal)
    requires
        value.reads().contains(local),
    ensures
        value.mentions().contains(local.id),
{
    let k = choose|k: int| 0 <= k < value.reads().len() && value.reads()[k] == local;
    assert(value.reads()[k].id == local.id);
    assert(local_grouping::numbers(value.reads()).contains(local.id));
}

/// Whether nobody else sees the locals that are declared one at a time.
pub open spec fn are_unshared(block: Seq<StatementView>, m: Machine) -> bool {
    forall|k: int|
        0 <= k < block.len() && local_grouping::simple_declaration(#[trigger] block[k]) is Some
            ==> !m.shared.contains(local_grouping::bound_local(block[k]).id)
}

/// Joining the declarations of a block from position `from` on keeps what the
/// block does in every world.
pub proof fn joining_keeps_runs(
    block: Seq<StatementView>,
    from: int,
    names: Seq<Option<Seq<char>>>,
    m: Machine,
    world: World,
    fuel: nat,
)
    requires
        0 <= from <= block.len(),
        are_unshared(block, m),
    ensures
        StatementView::run_from(
            local_grouping::combined_from(block, from, names),
            0,
            m,
            world,
            fuel,
        ) == StatementView::run_from(block, from, m, world, fuel),
    decreases block.len() - from,
{
    if from < block.len() {
        let end = local_grouping::group_end(block, from, names);
        local_grouping::lemma_group_end(block, from, names);
        if end > from + 1 {
            let list = local_grouping::joined(block, from, end);
            local_grouping::joined_declarations_are_independent(block, from, names);
            let assign = list->Assign_0;
            assert forall|i: int| 0 <= i < assign.left.len() implies (#[trigger] assign.left[i])
                is Local by {
                assert(local_grouping::simple_declaration(block[from + i]) is Some);
            }
            lemma_list_run(assign, m, world, fuel);
            lemma_one_by_one(block, from, end, from, names, m, world, fuel);
            let after = list.run(m, world, fuel).0;
            meaning_laws::lemma_run_first(
                list,
                local_grouping::combined_from(block, end, names),
                m,
                world,
                fuel,
            );
            joining_keeps_runs(block, end, names, m, after, fuel);
        } else {
            let after = block[from].run(m, world, fuel).0;
            meaning_laws::lemma_run_first(
                block[from],
                local_grouping::combined_from(block, from + 1, names),
                m,
                world,
                fuel,
            );
            joining_keeps_runs(block, from + 1, names, m, after, fuel);
        }
    }
}

} // verus!
