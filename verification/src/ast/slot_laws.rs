//! That putting a value in the place of a table slot keeps what is meant.

use vstd::prelude::*;

use crate::ast::local::RcLocal;
use crate::ast::meaning::{Machine, World};
use crate::ast::meaning_laws;
use crate::ast::nodes::{IndexView, RValueView, StatementView};
use crate::ast::slot_folding;
use crate::ast::slot_folding::SlotKeyView;
use crate::ast::{model, shape_laws};

verus! {

/// Whether reading a slot of a table is the same as computing a value.
pub open spec fn is_held(
    table: RcLocal,
    key: SlotKeyView,
    value: RValueView,
    m: Machine,
) -> bool {
    forall|index: IndexView| #[trigger]
        slot_folding::is_slot(index, table, key) ==> meaning_laws::means_same(
            value,
            RValueView::Index(index),
            m,
        )
}

/// An expression with a value in the place of a slot that holds it means what
/// the expression means.
pub proof fn filled_slots_mean_the_same(
    expression: RValueView,
    table: RcLocal,
    key: SlotKeyView,
    value: RValueView,
    m: Machine,
)
    requires
        is_held(table, key, value, m),
    ensures
        meaning_laws::means_same(expression.with_slot(table, key, value), expression, m),
    decreases expression.size(), 0int,
{
    model::lemma_children_smaller(expression);
    let made = expression.with_slot(table, key, value);
    let slot = expression matches RValueView::Index(index) && slot_folding::is_slot(
        index,
        table,
        key,
    );
    if !slot && !(expression is Closure) {
        let operands = RValueView::with_slot_from(expression.children(), 0, table, key, value);
        lemma_filled_slots(expression.children(), 0, table, key, value, m);
        assert(expression.children().skip(0) =~= expression.children());
        assert forall|world: World| #[trigger]
            made.evaluated(m, world) == expression.evaluated(m, world) by {
            meaning_laws::operands_decide(expression, operands, m, world);
        }
    }
}

proof fn lemma_filled_slots(
    values: Seq<RValueView>,
    from: int,
    table: RcLocal,
    key: SlotKeyView,
    value: RValueView,
    m: Machine,
)
    requires
        0 <= from <= values.len(),
        is_held(table, key, value, m),
    ensures
        meaning_laws::all_mean_same(
            RValueView::with_slot_from(values, from, table, key, value),
            values.skip(from),
            m,
        ),
    decreases RValueView::sizes_from(values, from), 1int,
{
    model::lemma_sizes_step(values, from);
    let made = RValueView::with_slot_from(values, from, table, key, value);
    if from < values.len() {
        let rest = RValueView::with_slot_from(values, from + 1, table, key, value);
        filled_slots_mean_the_same(values[from], table, key, value, m);
        lemma_filled_slots(values, from + 1, table, key, value, m);
        assert forall|i: int| 0 <= i < made.len() implies meaning_laws::means_same(
            #[trigger] made[i],
            values.skip(from)[i],
            m,
        ) by {
            if i > 0 {
                assert(made[i] == rest[i - 1]);
                assert(values.skip(from)[i] == values.skip(from + 1)[i - 1]);
            }
        }
    }
}

/// A statement with a value in the place of a slot that holds it does what the
/// statement does.
pub proof fn filled_slots_keep_runs(
    statement: StatementView,
    table: RcLocal,
    key: SlotKeyView,
    value: RValueView,
    m: Machine,
    world: World,
    fuel: nat,
)
    requires
        is_held(table, key, value, m),
    ensures
        statement.with_slot(table, key, value).run(m, world, fuel) == statement.run(
            m,
            world,
            fuel,
        ),
{
    let roots = RValueView::with_slot_from(statement.roots(), 0, table, key, value);
    let blocks = statement.blocks();
    lemma_filled_slots(statement.roots(), 0, table, key, value, m);
    assert(statement.roots().skip(0) =~= statement.roots());
    shape_laws::same_roots(statement);
    shape_laws::given_roots(statement, roots);
    shape_laws::same_blocks(statement.with_roots(roots));
    assert forall|k: int| 0 <= k < blocks.len() implies meaning_laws::runs_same(
        #[trigger] blocks[k],
        statement.blocks()[k],
        m,
    ) && meaning_laws::loops_same(blocks[k], statement.blocks()[k], m) by {}
    meaning_laws::parts_decide(statement, roots, blocks, m, world, fuel);
}

} // verus!
