//! What comes of putting an expression in the place of a local that holds its
//! value.

use vstd::prelude::*;

use crate::ast::alias_elimination;
use crate::ast::frame_laws;
use crate::ast::local::RcLocal;
use crate::ast::meaning;
use crate::ast::meaning::{Machine, Value, World};
use crate::ast::meaning_laws;
use crate::ast::nodes::{LValueView, RValueView, StatementView, UnaryOperation};
use crate::ast::{model, rewrite, shape_laws};

verus! {

/// How often a local is among others.
pub open spec fn count(locals: Seq<RcLocal>, local: RcLocal) -> nat {
    alias_elimination::occurrences_from(locals, 0, local)
}

proof fn lemma_count_suffix(left: Seq<RcLocal>, right: Seq<RcLocal>, from: int, local: RcLocal)
    requires
        0 <= from <= right.len(),
    ensures
        alias_elimination::occurrences_from(left + right, left.len() + from, local)
            == alias_elimination::occurrences_from(right, from, local),
    decreases right.len() - from,
{
    if from < right.len() {
        lemma_count_suffix(left, right, from + 1, local);
        assert((left + right)[left.len() + from] == right[from]);
    }
}

proof fn lemma_count_prefix(left: Seq<RcLocal>, right: Seq<RcLocal>, from: int, local: RcLocal)
    requires
        0 <= from <= left.len(),
    ensures
        alias_elimination::occurrences_from(left + right, from, local)
            == alias_elimination::occurrences_from(left, from, local) + count(right, local),
    decreases left.len() - from,
{
    if from < left.len() {
        lemma_count_prefix(left, right, from + 1, local);
        assert((left + right)[from] == left[from]);
    } else {
        lemma_count_suffix(left, right, 0, local);
    }
}

pub proof fn lemma_count_join(left: Seq<RcLocal>, right: Seq<RcLocal>, local: RcLocal)
    ensures
        count(left + right, local) == count(left, local) + count(right, local),
{
    lemma_count_prefix(left, right, 0, local);
}

proof fn lemma_count_from(locals: Seq<RcLocal>, from: int, local: RcLocal)
    requires
        0 <= from <= locals.len(),
    ensures
        alias_elimination::occurrences_from(locals, from, local) == 0 <==> forall|i: int|
            from <= i < locals.len() ==> #[trigger] locals[i] != local,
    decreases locals.len() - from,
{
    if from < locals.len() {
        lemma_count_from(locals, from + 1, local);
    }
}

/// A local is among others where it is there at least once.
pub proof fn lemma_count_zero(locals: Seq<RcLocal>, local: RcLocal)
    ensures
        count(locals, local) == 0 <==> !locals.contains(local),
{
    lemma_count_from(locals, 0, local);
}

/// How often a local is read by the expressions from position `from` on.
pub proof fn lemma_count_read(values: Seq<RValueView>, from: int, local: RcLocal)
    requires
        0 <= from < values.len(),
    ensures
        count(RValueView::reads_from(values, from), local) == count(values[from].reads(), local)
            + count(RValueView::reads_from(values, from + 1), local),
{
    lemma_count_join(values[from].reads(), RValueView::reads_from(values, from + 1), local);
}

/// Where one expression of a list is replaced, the reads change by what it
/// reads.
pub proof fn lemma_count_replaced(
    values: Seq<RValueView>,
    from: int,
    i: int,
    value: RValueView,
    local: RcLocal,
)
    requires
        0 <= from <= i < values.len(),
    ensures
        count(RValueView::reads_from(values.update(i, value), from), local) + count(
            values[i].reads(),
            local,
        ) == count(RValueView::reads_from(values, from), local) + count(value.reads(), local),
        count(values[i].reads(), local) <= count(RValueView::reads_from(values, from), local),
    decreases i - from,
{
    let other = values.update(i, value);
    lemma_count_read(values, from, local);
    lemma_count_read(other, from, local);
    if from < i {
        lemma_count_replaced(values, from + 1, i, value, local);
    } else {
        lemma_reads_later(values, i, value, i + 1);
    }
}

proof fn lemma_reads_later(values: Seq<RValueView>, i: int, value: RValueView, from: int)
    requires
        0 <= i < from,
        i < values.len(),
    ensures
        RValueView::reads_from(values.update(i, value), from) == RValueView::reads_from(
            values,
            from,
        ),
    decreases values.len() - from,
{
    if from < values.len() {
        lemma_reads_later(values, i, value, from + 1);
    }
}

proof fn lemma_operands_later(
    values: Seq<RValueView>,
    i: int,
    value: RValueView,
    from: int,
    expands: bool,
    m: Machine,
    world: World,
)
    requires
        0 <= i < from,
        i < values.len(),
    ensures
        RValueView::operands_from(values.update(i, value), from, expands, m, world)
            == RValueView::operands_from(values, from, expands, m, world),
    decreases values.len() - from,
{
    if from < values.len() {
        let next = values[from].evaluated(m, world).1;
        lemma_operands_later(values, i, value, from + 1, expands, m, next);
    }
}

/// Whether an expression gives the same in two worlds and leaves them as they
/// are.
pub open spec fn is_steady(value: RValueView, m: Machine, held: World, world: World) -> bool {
    &&& value.evaluated(m, held) == (value.evaluated(m, world).0, held)
    &&& value.evaluated(m, world).1 == world
}

/// Whether an expression gives, in a world where a local holds a value, what
/// another gives in another world, and leaves the same behind but for the
/// local.
pub open spec fn stands_for(
    value: RValueView,
    other: RValueView,
    local: RcLocal,
    given: Value,
    m: Machine,
    held: World,
    world: World,
) -> bool {
    value.evaluated(m, held) == (
        other.evaluated(m, world).0,
        m.stored(local, given, other.evaluated(m, world).1),
    )
}

/// Whether one of a list of expressions can be replaced: those before it are
/// steady, and those behind it do not read the local.
pub open spec fn is_replaceable(
    values: Seq<RValueView>,
    i: int,
    other: RValueView,
    local: RcLocal,
    given: Value,
    m: Machine,
    held: World,
    world: World,
) -> bool {
    &&& 0 <= i < values.len()
    &&& !m.shared.contains(local.id)
    &&& forall|j: int| 0 <= j < i ==> is_steady(#[trigger] values[j], m, held, world)
    &&& stands_for(values[i], other, local, given, m, held, world)
    &&& forall|j: int|
        i < j < values.len() ==> !(#[trigger] values[j]).reads().contains(local)
}

pub proof fn lemma_operands_replaced(
    values: Seq<RValueView>,
    from: int,
    i: int,
    other: RValueView,
    expands: bool,
    local: RcLocal,
    given: Value,
    m: Machine,
    held: World,
    world: World,
)
    requires
        0 <= from <= i,
        is_replaceable(values, i, other, local, given, m, held, world),
    ensures
        RValueView::operands_from(values, from, expands, m, held) == (
            RValueView::operands_from(values.update(i, other), from, expands, m, world).0,
            m.stored(
                local,
                given,
                RValueView::operands_from(values.update(i, other), from, expands, m, world).1,
            ),
        ),
    decreases i - from,
{
    let made = values.update(i, other);
    if from < i {
        assert(is_steady(values[from], m, held, world));
        lemma_operands_replaced(
            values,
            from + 1,
            i,
            other,
            expands,
            local,
            given,
            m,
            held,
            world,
        );
    } else {
        let next = other.evaluated(m, world).1;
        lemma_operands_later(values, i, other, i + 1, expands, m, next);
        lemma_unread_later(values, i + 1, local);
        meaning_laws::lemma_unread_operands(values, i + 1, expands, local, given, m, next);
    }
}

/// What none of a list of expressions reads, the list does not.
pub proof fn lemma_unread_later(values: Seq<RValueView>, from: int, local: RcLocal)
    requires
        0 <= from,
        forall|j: int|
            from <= j < values.len() ==> !(#[trigger] values[j]).reads().contains(local),
    ensures
        !RValueView::reads_from(values, from).contains(local),
    decreases values.len() - from,
{
    if from < values.len() {
        lemma_unread_later(values, from + 1, local);
        frame_laws::lemma_contains_parts(
            values[from].reads(),
            RValueView::reads_from(values, from + 1),
            local,
        );
    }
}

/// An expression with an operand replaced stands for the expression. Where the
/// operand may not be computed, the two worlds differ in the local alone.
pub proof fn lemma_child_replaced(
    value: RValueView,
    i: int,
    other: RValueView,
    local: RcLocal,
    given: Value,
    m: Machine,
    held: World,
    world: World,
)
    requires
        is_replaceable(value.children(), i, other, local, given, m, held, world),
        i == 0 || i < value.certain() || held == m.stored(local, given, world),
    ensures
        stands_for(
            value,
            value.with_children(value.children().update(i, other)),
            local,
            given,
            m,
            held,
            world,
        ),
{
    let children = value.children();
    let operands = children.update(i, other);
    let made = value.with_children(operands);
    meaning::lemma_same_head(value, operands);
    match value {
        RValueView::Unary(operand, UnaryOperation::Not) => {
            assert(children[0] == *operand);
        },
        RValueView::Binary(left, right, operation) => {
            assert(children[0] == *left && children[1] == *right);
            if i == 0 {
                let middle = other.evaluated(m, world).1;
                assert(!children[1].reads().contains(local));
                meaning_laws::unread_locals_stay(*right, local, given, m, middle);
            } else {
                assert(is_steady(children[0], m, held, world));
            }
        },
        RValueView::Conditional(condition, then_value, else_value) => {
            assert(children[0] == *condition && children[1] == *then_value && children[2]
                == *else_value);
            if i == 0 {
                let middle = other.evaluated(m, world).1;
                assert(!children[1].reads().contains(local));
                assert(!children[2].reads().contains(local));
                meaning_laws::unread_locals_stay(*then_value, local, given, m, middle);
                meaning_laws::unread_locals_stay(*else_value, local, given, m, middle);
            } else if i == 1 {
                assert(is_steady(children[0], m, held, world));
                assert(!children[2].reads().contains(local));
                meaning_laws::unread_locals_stay(*else_value, local, given, m, world);
            } else {
                assert(is_steady(children[0], m, held, world));
                assert(is_steady(children[1], m, held, world));
            }
        },
        _ => {
            lemma_operands_replaced(
                children,
                0,
                i,
                other,
                value.expands(),
                local,
                given,
                m,
                held,
                world,
            );
        },
    }
}

proof fn lemma_counting_same(
    left: StatementView,
    right: StatementView,
    values: Seq<Value>,
    m: Machine,
    world: World,
    fuel: nat,
)
    requires
        left is NumericFor || left is GenericFor,
        right is NumericFor || right is GenericFor,
        left.frame() == right.frame(),
        left.writes() == right.writes(),
        left.blocks() == right.blocks(),
    ensures
        left.looped(values, m, world, fuel) == right.looped(values, m, world, fuel),
    decreases fuel,
{
    if fuel > 0 {
        let less = (fuel - 1) as nat;
        let begun = World { rest: (m.perform)(left.frame(), values, world.rest), ..world };
        meaning_laws::lemma_outcomes_same(left, right, left.writes(), 0, values, m, begun);
        let start = left.outcomes_stored(left.writes(), 0, values, m, begun);
        assert(left.blocks()[0] == right.blocks()[0]);
        let after = StatementView::run_from(left.blocks()[0], 0, m, start, less).0;
        lemma_counting_same(left, right, values, m, after, less);
    }
}

/// A statement with an expression replaced does what the statement does, but
/// for the local.
pub proof fn lemma_statement_replaced(
    statement: StatementView,
    i: int,
    other: RValueView,
    local: RcLocal,
    given: Value,
    m: Machine,
    held: World,
    world: World,
    fuel: nat,
)
    requires
        is_replaceable(statement.roots(), i, other, local, given, m, held, world),
        !(statement is While) && !(statement is Repeat),
        !statement.writes().contains(local),
        !StatementView::blocks_touched(statement.blocks(), 0).contains(local),
        statement is SetList ==> held == m.stored(local, given, world)
            && !rewrite::direct_reads(statement).contains(local),
    ensures
        ({
            let made = statement.with_roots(statement.roots().update(i, other));
            statement.run(m, held, fuel) == (
                m.stored(local, given, made.run(m, world, fuel).0),
                made.run(m, world, fuel).1,
            )
        }),
{
    let roots = statement.roots().update(i, other);
    let made = statement.with_roots(roots);
    shape_laws::same_roots(statement);
    shape_laws::given_roots(statement, roots);
    shape_laws::same_blocks(made);
    meaning_laws::lemma_same_frame(statement, roots, statement.blocks());
    lemma_operands_replaced(
        statement.roots(),
        0,
        i,
        other,
        statement.expands(),
        local,
        given,
        m,
        held,
        world,
    );
    if let StatementView::SetList { object_local, .. } = statement {
        assert(rewrite::direct_reads(statement)[0] == object_local);
        assert(object_local.id != local.id) by {
            if object_local.id == local.id {
                assert(object_local == local);
            }
        }
    }
    let (values, after) = made.inputs(m, world);
    assert(statement.inputs(m, held) == (values, m.stored(local, given, after)));
    let done = World { rest: (m.perform)(statement.frame(), values, after.rest), ..after };
    match statement {
        StatementView::Return(_) => {},
        StatementView::If { condition, then_block, else_block } => {
            assert(statement.roots()[0] == condition);
            assert(i == 0);
            assert(statement.blocks()[0] == then_block && statement.blocks()[1] == else_block);
            let middle = other.evaluated(m, world).1;
            frame_laws::lemma_touched_block(statement.blocks(), 0, 0, local);
            frame_laws::lemma_touched_block(statement.blocks(), 0, 1, local);
            frame_laws::lemma_untouched_from(then_block, 0, local, given, m, middle, fuel);
            frame_laws::lemma_untouched_from(else_block, 0, local, given, m, middle, fuel);
        },
        StatementView::NumericFor { .. } | StatementView::GenericFor { .. } => {
            lemma_unread_rounds(statement, values, local, given, m, done, fuel);
            lemma_counting_same(statement, made, values, m, done, fuel);
        },
        StatementView::Assign(assign) => {
            let set = assign.with_roots(roots);
            assert(made == StatementView::Assign(set));
            model::lemma_target_arity(assign.left, 0);
            shape_laws::lemma_refilled_targets(assign.left, 0, roots, 0);
            let begun = if StatementView::target_effects_from(assign.left, 0) {
                done
            } else {
                after
            };
            let arity = LValueView::arity_from(assign.left, 0) as int;
            meaning_laws::lemma_targets_same(set.left, assign.left, 0, values, arity, m, begun);
            frame_laws::lemma_targets_frame(
                assign.left,
                0,
                values,
                arity,
                local,
                given,
                m,
                begun,
            );
        },
        _ => {
            meaning_laws::lemma_outcomes_same(
                made,
                statement,
                statement.writes(),
                0,
                values,
                m,
                done,
            );
            frame_laws::lemma_outcomes_frame(
                statement,
                statement.writes(),
                0,
                values,
                local,
                given,
                m,
                done,
            );
        },
    }
}

proof fn lemma_unread_rounds(
    statement: StatementView,
    values: Seq<Value>,
    local: RcLocal,
    given: Value,
    m: Machine,
    world: World,
    fuel: nat,
)
    requires
        statement is NumericFor || statement is GenericFor,
        !m.shared.contains(local.id),
        !statement.writes().contains(local),
        !StatementView::blocks_touched(statement.blocks(), 0).contains(local),
    ensures
        statement.looped(values, m, m.stored(local, given, world), fuel) == (
            m.stored(local, given, statement.looped(values, m, world, fuel).0),
            statement.looped(values, m, world, fuel).1,
        ),
    decreases fuel,
{
    if fuel > 0 {
        let less = (fuel - 1) as nat;
        let block = statement.blocks()[0];
        let begun = World { rest: (m.perform)(statement.frame(), values, world.rest), ..world };
        frame_laws::lemma_touched_block(statement.blocks(), 0, 0, local);
        frame_laws::lemma_outcomes_frame(
            statement,
            statement.writes(),
            0,
            values,
            local,
            given,
            m,
            begun,
        );
        let start = statement.outcomes_stored(statement.writes(), 0, values, m, begun);
        frame_laws::lemma_untouched_from(block, 0, local, given, m, start, less);
        let after = StatementView::run_from(block, 0, m, start, less).0;
        lemma_unread_rounds(statement, values, local, given, m, after, less);
    }
}

/// Whether two worlds differ in some locals at most.
pub open spec fn agree(left: World, right: World, hidden: Set<u64>) -> bool {
    &&& left.rest == right.rest
    &&& forall|id: u64|
        !hidden.contains(id) ==> left.locals.dom().contains(id) == #[trigger] right.locals.dom().contains(
            id,
        ) && (left.locals.dom().contains(id) ==> left.locals[id] == right.locals[id])
}

/// Whether two runs end the same way, and leave the same behind but for some
/// locals.
pub open spec fn ends_alike(
    left: (World, meaning::Exit),
    right: (World, meaning::Exit),
    hidden: Set<u64>,
) -> bool {
    left.1 == right.1 && agree(left.0, right.0, hidden)
}

} // verus!
