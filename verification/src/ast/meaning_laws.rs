//! What the meaning of a tree depends on.

use vstd::prelude::*;

use crate::ast::local::RcLocal;
use crate::ast::meaning;
use crate::ast::meaning::{Exit, Machine, Value, World};
use crate::ast::nodes::{
    LValueView, RValueView, SelectView, StatementView, UnaryOperation,
};
use crate::ast::{binary, model, rewrite, shape_laws};

verus! {

/// Whether two expressions give the same and do the same in every world.
pub open spec fn means_same(left: RValueView, right: RValueView, m: Machine) -> bool {
    forall|world: World| #[trigger] left.evaluated(m, world) == right.evaluated(m, world)
}

/// The same of each of a list of expressions.
pub open spec fn all_mean_same(left: Seq<RValueView>, right: Seq<RValueView>, m: Machine) -> bool {
    &&& left.len() == right.len()
    &&& forall|i: int| 0 <= i < left.len() ==> means_same(#[trigger] left[i], right[i], m)
}

pub proof fn lemma_same_operands(
    left: Seq<RValueView>,
    right: Seq<RValueView>,
    from: int,
    expands: bool,
    m: Machine,
    world: World,
)
    requires
        0 <= from,
        all_mean_same(left, right, m),
    ensures
        RValueView::operands_from(left, from, expands, m, world) == RValueView::operands_from(
            right,
            from,
            expands,
            m,
            world,
        ),
    decreases left.len() - from,
{
    if from < left.len() {
        assert(means_same(left[from], right[from], m));
        let (results, middle) = left[from].evaluated(m, world);
        assert(left[from].evaluated(m, world) == right[from].evaluated(m, world));
        lemma_same_operands(left, right, from + 1, expands, m, middle);
    }
}

/// An expression means the same with operands that mean the same.
pub proof fn operands_decide(
    value: RValueView,
    operands: Seq<RValueView>,
    m: Machine,
    world: World,
)
    requires
        all_mean_same(operands, value.children(), m),
    ensures
        value.with_children(operands).evaluated(m, world) == value.evaluated(m, world),
{
    let other = value.with_children(operands);
    let children = value.children();
    meaning::lemma_same_head(value, operands);
    lemma_same_operands(operands, children, 0, value.expands(), m, world);
    assert forall|i: int, w: World| 0 <= i < children.len() implies (
    #[trigger] operands[i]).evaluated(m, w) == (#[trigger] children[i].evaluated(m, w)) by {
        assert(means_same(operands[i], children[i], m));
    }
    match value {
        RValueView::Unary(operand, operation) => {
            assert(children[0] == *operand);
            assert(operands[0].evaluated(m, world) == children[0].evaluated(m, world));
        },
        RValueView::Binary(left, right, operation) => {
            assert(children[0] == *left && children[1] == *right);
            assert(operands[0].evaluated(m, world) == children[0].evaluated(m, world));
            let middle = left.evaluated(m, world).1;
            assert(operands[1].evaluated(m, middle) == children[1].evaluated(m, middle));
        },
        RValueView::Conditional(condition, then_value, else_value) => {
            assert(children[0] == *condition && children[1] == *then_value && children[2]
                == *else_value);
            assert(operands[0].evaluated(m, world) == children[0].evaluated(m, world));
            let middle = condition.evaluated(m, world).1;
            assert(operands[1].evaluated(m, middle) == children[1].evaluated(m, middle));
            assert(operands[2].evaluated(m, middle) == children[2].evaluated(m, middle));
        },
        _ => {},
    }
}

/// An expression that cannot be observed leaves the world as it is.
pub proof fn unobservable_changes_nothing(value: RValueView, m: Machine, world: World)
    requires
        !value.has_side_effects(),
    ensures
        value.evaluated(m, world).1 == world,
    decreases value.size(), 0int,
{
    model::lemma_children_smaller(value);
    binary::lemma_operand_sizes(value);
    match value {
        RValueView::Table(_) => {
            lemma_unobservable_operands(value.children(), 0, value.expands(), m, world);
        },
        RValueView::Unary(operand, _) => {
            lemma_no_effect(value.children(), 0, 0);
            unobservable_changes_nothing(*operand, m, world);
        },
        RValueView::Binary(left, right, _) => {
            lemma_no_effect(value.children(), 0, 0);
            lemma_no_effect(value.children(), 0, 1);
            assert(value.children()[1] == *right);
            unobservable_changes_nothing(*left, m, world);
            unobservable_changes_nothing(*right, m, world);
        },
        RValueView::Conditional(condition, then_value, else_value) => {
            lemma_no_effect(value.children(), 0, 0);
            lemma_no_effect(value.children(), 0, 1);
            lemma_no_effect(value.children(), 0, 2);
            assert(value.children()[0] == *condition);
            assert(value.children()[1] == *then_value);
            assert(value.children()[2] == *else_value);
            model::lemma_child_smaller(value, 0);
            model::lemma_child_smaller(value, 1);
            model::lemma_child_smaller(value, 2);
            unobservable_changes_nothing(*condition, m, world);
            unobservable_changes_nothing(*then_value, m, world);
            unobservable_changes_nothing(*else_value, m, world);
        },
        _ => {},
    }
}

pub proof fn lemma_no_effect(values: Seq<RValueView>, from: int, i: int)
    requires
        0 <= from <= i < values.len(),
        !RValueView::effects_from(values, from),
    ensures
        !values[i].has_side_effects(),
    decreases i - from,
{
    if from < i {
        lemma_no_effect(values, from + 1, i);
    }
}

pub proof fn lemma_unobservable_operands(
    values: Seq<RValueView>,
    from: int,
    expands: bool,
    m: Machine,
    world: World,
)
    requires
        0 <= from,
        !RValueView::effects_from(values, from),
    ensures
        RValueView::operands_from(values, from, expands, m, world).1 == world,
    decreases RValueView::sizes_from(values, from), 1int,
{
    model::lemma_sizes_step(values, from);
    if from < values.len() {
        unobservable_changes_nothing(values[from], m, world);
        lemma_unobservable_operands(values, from + 1, expands, m, world);
    }
}

pub proof fn lemma_not_read(values: Seq<RValueView>, from: int, i: int, local: RcLocal)
    requires
        0 <= from <= i < values.len(),
        !RValueView::reads_from(values, from).contains(local),
    ensures
        !values[i].reads().contains(local),
        !RValueView::reads_from(values, from + 1).contains(local),
    decreases i - from,
{
    let first = values[from].reads();
    let rest = RValueView::reads_from(values, from + 1);
    let all = RValueView::reads_from(values, from);
    assert(all == first + rest);
    if first.contains(local) {
        let k = choose|k: int| 0 <= k < first.len() && first[k] == local;
        assert(all[k] == local);
    }
    if rest.contains(local) {
        let k = choose|k: int| 0 <= k < rest.len() && rest[k] == local;
        assert(all[first.len() + k] == local);
    }
    if from < i {
        lemma_not_read(values, from + 1, i, local);
    }
}

/// What an expression gives and does does not depend on a local that it does
/// not read and nobody else sees, and it leaves that local as it is.
pub proof fn unread_locals_stay(
    value: RValueView,
    local: RcLocal,
    given: Value,
    m: Machine,
    world: World,
)
    requires
        !m.shared.contains(local.id),
        !value.reads().contains(local),
    ensures
        value.evaluated(m, m.stored(local, given, world)) == (
            value.evaluated(m, world).0,
            m.stored(local, given, value.evaluated(m, world).1),
        ),
    decreases value.size(), 0int,
{
    let other = m.stored(local, given, world);
    let children = value.children();
    model::lemma_children_smaller(value);
    binary::lemma_operand_sizes(value);
    match value {
        RValueView::Local(read) => {
            assert(value.reads()[0] == read);
            assert(read.id != local.id);
        },
        RValueView::Literal(_) | RValueView::VarArg | RValueView::Select(SelectView::VarArg) => {},
        RValueView::Closure(closure) => {
            assert(m.captures(closure.upvalues, other) =~= m.captures(closure.upvalues, world))
                by {
                assert forall|i: int| 0 <= i < closure.upvalues.len() implies m.loaded(
                    (#[trigger] closure.upvalues[i]).captured(),
                    other,
                ) == m.loaded(closure.upvalues[i].captured(), world) by {
                    assert(value.reads()[i] == closure.upvalues[i].captured());
                    assert(closure.upvalues[i].captured().id != local.id);
                }
            }
        },
        RValueView::Unary(operand, UnaryOperation::Not) => {
            assert(children[0] == *operand);
            lemma_not_read(children, 0, 0, local);
            unread_locals_stay(*operand, local, given, m, world);
        },
        RValueView::Binary(left, right, operation) => {
            assert(children[0] == *left && children[1] == *right);
            lemma_not_read(children, 0, 0, local);
            lemma_not_read(children, 0, 1, local);
            unread_locals_stay(*left, local, given, m, world);
            let middle = left.evaluated(m, world).1;
            unread_locals_stay(*right, local, given, m, middle);
        },
        RValueView::Conditional(condition, then_value, else_value) => {
            assert(children[0] == *condition && children[1] == *then_value && children[2]
                == *else_value);
            lemma_not_read(children, 0, 0, local);
            lemma_not_read(children, 0, 1, local);
            lemma_not_read(children, 0, 2, local);
            model::lemma_child_smaller(value, 0);
            model::lemma_child_smaller(value, 1);
            model::lemma_child_smaller(value, 2);
            unread_locals_stay(*condition, local, given, m, world);
            let middle = condition.evaluated(m, world).1;
            unread_locals_stay(*then_value, local, given, m, middle);
            unread_locals_stay(*else_value, local, given, m, middle);
        },
        _ => {
            lemma_unread_operands(children, 0, value.expands(), local, given, m, world);
        },
    }
}

pub proof fn lemma_unread_operands(
    values: Seq<RValueView>,
    from: int,
    expands: bool,
    local: RcLocal,
    given: Value,
    m: Machine,
    world: World,
)
    requires
        0 <= from,
        !m.shared.contains(local.id),
        !RValueView::reads_from(values, from).contains(local),
    ensures
        RValueView::operands_from(values, from, expands, m, m.stored(local, given, world)) == (
            RValueView::operands_from(values, from, expands, m, world).0,
            m.stored(
                local,
                given,
                RValueView::operands_from(values, from, expands, m, world).1,
            ),
        ),
    decreases RValueView::sizes_from(values, from), 1int,
{
    model::lemma_sizes_step(values, from);
    if from < values.len() {
        lemma_not_read(values, from, from, local);
        unread_locals_stay(values[from], local, given, m, world);
        let middle = values[from].evaluated(m, world).1;
        lemma_unread_operands(values, from + 1, expands, local, given, m, middle);
    }
}

/// An expression that is no call and not all arguments gives one value.
pub proof fn lemma_one_result(value: RValueView, m: Machine, world: World)
    requires
        !value.gives_many(),
    ensures
        value.evaluated(m, world).0 == seq![meaning::first(value.evaluated(m, world).0)],
{
    let results = value.evaluated(m, world).0;
    assert(results.len() == 1);
    assert(results =~= seq![meaning::first(results)]);
}

/// How a round of a loop goes on: past a round that was cut short as past one
/// that was not.
pub open spec fn rounded(exit: Exit) -> Exit {
    if exit is Continue {
        Exit::Normal
    } else {
        exit
    }
}

/// Whether two blocks do the same in every world.
pub open spec fn runs_same(left: Seq<StatementView>, right: Seq<StatementView>, m: Machine) -> bool {
    forall|world: World, fuel: nat| #[trigger]
        StatementView::run_from(left, 0, m, world, fuel) == StatementView::run_from(
            right,
            0,
            m,
            world,
            fuel,
        )
}

/// Whether two blocks do the same as the body of a loop.
pub open spec fn loops_same(left: Seq<StatementView>, right: Seq<StatementView>, m: Machine) -> bool {
    forall|world: World, fuel: nat|
        {
            let (after, exit) = #[trigger] StatementView::run_from(left, 0, m, world, fuel);
            let (last, other) = StatementView::run_from(right, 0, m, world, fuel);
            after == last && rounded(exit) == rounded(other)
        }
}

/// What a statement is does not change with its expressions and blocks.
pub proof fn lemma_same_frame(
    statement: StatementView,
    roots: Seq<RValueView>,
    blocks: Seq<Seq<StatementView>>,
)
    requires
        roots.len() == statement.roots().len(),
        blocks.len() == statement.blocks().len(),
    ensures
        ({
            let other = statement.with_roots(roots).with_blocks(blocks);
            &&& other.frame() == statement.frame()
            &&& other.roots() == roots
            &&& other.blocks() == blocks
            &&& other.writes() == statement.writes()
            &&& other.expands() == statement.expands()
            &&& rewrite::direct_reads(other) == rewrite::direct_reads(statement)
        }),
{
    let middle = statement.with_roots(roots);
    let other = middle.with_blocks(blocks);
    let empties = meaning::blanks(roots.len());
    let nothing: Seq<Seq<StatementView>> = Seq::new(blocks.len(), |i: int| Seq::empty());
    shape_laws::same_roots(statement);
    shape_laws::given_roots(statement, roots);
    shape_laws::given_blocks(middle, blocks);
    shape_laws::regiven_blocks(middle, blocks, nothing, empties);
    shape_laws::regiven_roots(statement, roots, empties);
    shape_laws::regiven_blocks(middle.with_roots(empties), blocks, nothing, empties);
    match statement {
        StatementView::Assign(assign) | StatementView::NumForInit(assign)
        | StatementView::GenericForInit(assign) => {
            rewrite::lemma_refilled_writes(assign.left, 0, roots, 0);
            model::lemma_target_arity(assign.left, 0);
        },
        _ => {},
    }
}

pub proof fn lemma_targets_same(
    left: Seq<LValueView>,
    right: Seq<LValueView>,
    from: int,
    values: Seq<Value>,
    at: int,
    m: Machine,
    world: World,
)
    requires
        0 <= from,
        left.len() == right.len(),
        forall|i: int|
            0 <= i < left.len() ==> {
                &&& ((#[trigger] left[i]) is Index) == (right[i] is Index)
                &&& !(left[i] is Index) ==> left[i] == right[i]
            },
    ensures
        meaning::targets_stored(left, from, values, at, m, world) == meaning::targets_stored(
            right,
            from,
            values,
            at,
            m,
            world,
        ),
        StatementView::target_effects_from(left, from) == StatementView::target_effects_from(
            right,
            from,
        ),
        LValueView::arity_from(left, from) == LValueView::arity_from(right, from),
    decreases left.len() - from,
{
    if from < left.len() {
        let value = if 0 <= at < values.len() {
            values[at]
        } else {
            Value::Nil
        };
        let next = match left[from] {
            LValueView::Local(local) => m.stored(local, value, world),
            _ => world,
        };
        assert((left[from] is Index) == (right[from] is Index));
        lemma_targets_same(left, right, from + 1, values, at + 1, m, next);
    }
}

pub proof fn lemma_outcomes_same(
    left: StatementView,
    right: StatementView,
    locals: Seq<RcLocal>,
    from: int,
    values: Seq<Value>,
    m: Machine,
    world: World,
)
    requires
        0 <= from,
        left.frame() == right.frame(),
    ensures
        left.outcomes_stored(locals, from, values, m, world) == right.outcomes_stored(
            locals,
            from,
            values,
            m,
            world,
        ),
    decreases locals.len() - from,
{
    if from < locals.len() {
        let value = (m.outcome)(left.frame(), values, from, world.rest);
        lemma_outcomes_same(
            left,
            right,
            locals,
            from + 1,
            values,
            m,
            m.stored(locals[from], value, world),
        );
    }
}

/// A statement does the same with expressions that mean the same and blocks
/// that do the same.
pub proof fn parts_decide(
    statement: StatementView,
    roots: Seq<RValueView>,
    blocks: Seq<Seq<StatementView>>,
    m: Machine,
    world: World,
    fuel: nat,
)
    requires
        all_mean_same(roots, statement.roots(), m),
        blocks.len() == statement.blocks().len(),
        forall|k: int|
            0 <= k < blocks.len() ==> if statement.is_loop() {
                loops_same(#[trigger] blocks[k], statement.blocks()[k], m)
            } else {
                runs_same(blocks[k], statement.blocks()[k], m)
            },
    ensures
        statement.with_roots(roots).with_blocks(blocks).run(m, world, fuel) == statement.run(
            m,
            world,
            fuel,
        ),
{
    let other = statement.with_roots(roots).with_blocks(blocks);
    lemma_same_frame(statement, roots, blocks);
    lemma_same_operands(roots, statement.roots(), 0, statement.expands(), m, world);
    assert(other.inputs(m, world) == statement.inputs(m, world));
    let (values, after) = statement.inputs(m, world);
    match statement {
        StatementView::If { condition, then_block, else_block } => {
            assert(statement.roots()[0] == condition);
            assert(means_same(roots[0], statement.roots()[0], m));
            assert(roots[0].evaluated(m, world) == condition.evaluated(m, world));
            assert(statement.blocks()[0] == then_block && statement.blocks()[1] == else_block);
            let middle = condition.evaluated(m, world).1;
            assert(runs_same(blocks[0], statement.blocks()[0], m));
            assert(runs_same(blocks[1], statement.blocks()[1], m));
            assert(StatementView::run_from(blocks[0], 0, m, middle, fuel)
                == StatementView::run_from(then_block, 0, m, middle, fuel));
            assert(StatementView::run_from(blocks[1], 0, m, middle, fuel)
                == StatementView::run_from(else_block, 0, m, middle, fuel));
        },
        StatementView::Do(block) => {
            assert(statement.blocks()[0] == block);
            assert(runs_same(blocks[0], statement.blocks()[0], m));
            assert(StatementView::run_from(blocks[0], 0, m, world, fuel)
                == StatementView::run_from(block, 0, m, world, fuel));
        },
        StatementView::While { .. } | StatementView::Repeat { .. } => {
            assert(loops_same(blocks[0], statement.blocks()[0], m));
            lemma_rounds_same(statement, roots, blocks, Seq::empty(), m, world, fuel);
        },
        StatementView::NumericFor { .. } | StatementView::GenericFor { .. } => {
            assert(loops_same(blocks[0], statement.blocks()[0], m));
            let start = World {
                rest: (m.perform)(statement.frame(), values, after.rest),
                ..after
            };
            lemma_rounds_same(statement, roots, blocks, values, m, start, fuel);
        },
        StatementView::Assign(assign) => {
            let made = assign.with_roots(roots);
            assert(other == StatementView::Assign(made));
            model::lemma_target_arity(assign.left, 0);
            shape_laws::lemma_refilled_targets(assign.left, 0, roots, 0);
            let done = if StatementView::target_effects_from(assign.left, 0) {
                World { rest: (m.perform)(statement.frame(), values, after.rest), ..after }
            } else {
                after
            };
            let arity = LValueView::arity_from(assign.left, 0) as int;
            lemma_targets_same(made.left, assign.left, 0, values, arity, m, done);
        },
        _ => {
            let done = World {
                rest: (m.perform)(statement.frame(), values, after.rest),
                ..after
            };
            lemma_outcomes_same(other, statement, statement.writes(), 0, values, m, done);
        },
    }
}

proof fn lemma_rounds_same(
    statement: StatementView,
    roots: Seq<RValueView>,
    blocks: Seq<Seq<StatementView>>,
    values: Seq<Value>,
    m: Machine,
    world: World,
    fuel: nat,
)
    requires
        statement.is_loop(),
        all_mean_same(roots, statement.roots(), m),
        blocks.len() == statement.blocks().len(),
        loops_same(blocks[0], statement.blocks()[0], m),
    ensures
        statement.with_roots(roots).with_blocks(blocks).looped(values, m, world, fuel)
            == statement.looped(values, m, world, fuel),
    decreases fuel,
{
    let other = statement.with_roots(roots).with_blocks(blocks);
    lemma_same_frame(statement, roots, blocks);
    if fuel > 0 {
        let less = (fuel - 1) as nat;
        let block = statement.blocks()[0];
        let start = match statement {
            StatementView::While { condition, .. } => condition.evaluated(m, world).1,
            StatementView::Repeat { .. } => world,
            _ => statement.outcomes_stored(
                statement.writes(),
                0,
                values,
                m,
                World { rest: (m.perform)(statement.frame(), values, world.rest), ..world },
            ),
        };
        let (after, exit) = StatementView::run_from(blocks[0], 0, m, start, less);
        let (last, usual) = StatementView::run_from(block, 0, m, start, less);
        assert(after == last && rounded(exit) == rounded(usual));
        match statement {
            StatementView::While { condition, .. } => {
                assert(statement.roots()[0] == condition);
                assert(means_same(roots[0], statement.roots()[0], m));
                assert(roots[0].evaluated(m, world) == condition.evaluated(m, world));
                lemma_rounds_same(statement, roots, blocks, values, m, after, less);
            },
            StatementView::Repeat { condition, .. } => {
                assert(statement.roots()[0] == condition);
                assert(means_same(roots[0], statement.roots()[0], m));
                assert(roots[0].evaluated(m, after) == condition.evaluated(m, after));
                let next = condition.evaluated(m, after).1;
                lemma_rounds_same(statement, roots, blocks, values, m, next, less);
            },
            _ => {
                lemma_outcomes_same(
                    other,
                    statement,
                    statement.writes(),
                    0,
                    values,
                    m,
                    World { rest: (m.perform)(statement.frame(), values, world.rest), ..world },
                );
                lemma_rounds_same(statement, roots, blocks, values, m, after, less);
            },
        }
    }
}

/// Running two lists of statements one after the other.
pub proof fn lemma_run_join(
    left: Seq<StatementView>,
    right: Seq<StatementView>,
    from: int,
    m: Machine,
    world: World,
    fuel: nat,
)
    requires
        0 <= from <= left.len(),
    ensures
        ({
            let (middle, exit) = StatementView::run_from(left, from, m, world, fuel);
            StatementView::run_from(left + right, from, m, world, fuel) == if exit is Normal {
                StatementView::run_from(right, 0, m, middle, fuel)
            } else {
                (middle, exit)
            }
        }),
    decreases left.len() - from,
{
    if from < left.len() {
        assert((left + right)[from] == left[from]);
        let (middle, exit) = left[from].run(m, world, fuel);
        lemma_run_join(left, right, from + 1, m, middle, fuel);
    } else {
        lemma_run_suffix(left, right, 0, m, world, fuel);
    }
}

proof fn lemma_run_suffix(
    left: Seq<StatementView>,
    right: Seq<StatementView>,
    from: int,
    m: Machine,
    world: World,
    fuel: nat,
)
    requires
        0 <= from <= right.len(),
    ensures
        StatementView::run_from(left + right, left.len() + from, m, world, fuel)
            == StatementView::run_from(right, from, m, world, fuel),
    decreases right.len() - from,
{
    if from < right.len() {
        assert((left + right)[left.len() + from] == right[from]);
        let (middle, exit) = right[from].run(m, world, fuel);
        lemma_run_suffix(left, right, from + 1, m, middle, fuel);
    }
}

/// Running one statement before others.
pub proof fn lemma_run_first(
    statement: StatementView,
    rest: Seq<StatementView>,
    m: Machine,
    world: World,
    fuel: nat,
)
    ensures
        ({
            let (middle, exit) = statement.run(m, world, fuel);
            StatementView::run_from(seq![statement] + rest, 0, m, world, fuel) == if exit
                is Normal {
                StatementView::run_from(rest, 0, m, middle, fuel)
            } else {
                (middle, exit)
            }
        }),
{
    let one = seq![statement];
    lemma_run_join(one, rest, 0, m, world, fuel);
    assert(one[0] == statement);
    let (middle, exit) = statement.run(m, world, fuel);
    assert(StatementView::run_from(one, 1, m, middle, fuel) == (middle, Exit::Normal));
}

} // verus!
