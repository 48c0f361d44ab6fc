//! Laws of taking nodes apart and putting them together.

use vstd::prelude::*;

use crate::ast::model;
use crate::ast::nodes::{LValueView, RValueView, SelectView, StatementView};

verus! {

proof fn lemma_refilled_fields(
    fields: Seq<(Option<RValueView>, RValueView)>,
    from: int,
    operands: Seq<RValueView>,
    at: int,
)
    requires
        0 <= from <= fields.len(),
        0 <= at,
        operands.len() - at == RValueView::fields_from(fields, from).len(),
    ensures
        RValueView::fields_from(RValueView::refilled_from(fields, from, operands, at), 0)
            == operands.skip(at),
        operands.skip(at) == RValueView::fields_from(fields, from)
            ==> RValueView::refilled_from(fields, from, operands, at) == fields.skip(from),
    decreases fields.len() - from,
{
    let refilled = RValueView::refilled_from(fields, from, operands, at);
    if from < fields.len() {
        let step: int = if fields[from].0 is Some {
            2
        } else {
            1
        };
        let rest = RValueView::refilled_from(fields, from + 1, operands, at + step);
        let listed = RValueView::fields_from(fields, from);
        let listed_rest = RValueView::fields_from(fields, from + 1);
        lemma_refilled_fields(fields, from + 1, operands, at + step);
        assert(refilled =~= seq![refilled[0]] + rest);
        lemma_fields_shift(refilled[0], rest, 0);
        assert(RValueView::fields_from(refilled, 0) =~= operands.skip(at));
        if operands.skip(at) == listed {
            assert(operands.skip(at + step) =~= operands.skip(at).skip(step));
            assert(listed.skip(step) =~= listed_rest);
            assert(operands.skip(at)[0] == operands[at]);
            if step == 2 {
                assert(operands.skip(at)[1] == operands[at + 1]);
            }
            assert(refilled =~= fields.skip(from));
        }
    } else {
        assert(operands.skip(at) =~= Seq::empty());
        assert(fields.skip(from) =~= Seq::empty());
    }
}

proof fn lemma_fields_shift(
    field: (Option<RValueView>, RValueView),
    fields: Seq<(Option<RValueView>, RValueView)>,
    from: int,
)
    requires
        0 <= from,
    ensures
        RValueView::fields_from(seq![field] + fields, from + 1) == RValueView::fields_from(
            fields,
            from,
        ),
    decreases fields.len() - from,
{
    if from < fields.len() {
        lemma_fields_shift(field, fields, from + 1);
        assert((seq![field] + fields)[from + 1] == fields[from]);
    }
}

/// An expression given its own operands is unchanged.
pub proof fn same_operands(value: RValueView)
    ensures
        value.with_children(value.children()) == value,
        value.takes(value.children().len() as int),
{
    match value {
        RValueView::Call(call) | RValueView::Select(SelectView::Call(call)) => {
            assert(call.operands().skip(1) =~= call.arguments);
        },
        RValueView::MethodCall(call) | RValueView::Select(SelectView::MethodCall(call)) => {
            assert(call.operands().skip(1) =~= call.arguments);
        },
        RValueView::Table(fields) => {
            let operands = RValueView::fields_from(fields, 0);
            assert(operands.skip(0) =~= operands);
            assert(fields.skip(0) =~= fields);
            lemma_refilled_fields(fields, 0, operands, 0);
        },
        _ => {},
    }
}

/// The operands that an expression was given are its operands.
pub proof fn given_operands(value: RValueView, operands: Seq<RValueView>)
    requires
        value.takes(operands.len() as int),
    ensures
        value.with_children(operands).children() == operands,
        value.with_children(operands).body() == value.body(),
{
    match value {
        RValueView::Call(call) | RValueView::Select(SelectView::Call(call)) => {
            assert(call.with_operands(operands).operands() =~= operands);
        },
        RValueView::MethodCall(call) | RValueView::Select(SelectView::MethodCall(call)) => {
            assert(call.with_operands(operands).operands() =~= operands);
        },
        RValueView::Table(fields) => {
            assert(operands.skip(0) =~= operands);
            lemma_refilled_fields(fields, 0, operands, 0);
        },
        _ => {
            assert(value.with_children(operands).children() =~= operands);
        },
    }
}

proof fn lemma_targets_shift(target: LValueView, targets: Seq<LValueView>, from: int)
    requires
        0 <= from,
    ensures
        LValueView::children_from(seq![target] + targets, from + 1) == LValueView::children_from(
            targets,
            from,
        ),
    decreases targets.len() - from,
{
    if from < targets.len() {
        lemma_targets_shift(target, targets, from + 1);
        assert((seq![target] + targets)[from + 1] == targets[from]);
    }
}

pub proof fn lemma_refilled_targets(
    targets: Seq<LValueView>,
    from: int,
    operands: Seq<RValueView>,
    at: int,
)
    requires
        0 <= from <= targets.len(),
        0 <= at,
        operands.len() - at >= LValueView::arity_from(targets, from),
    ensures
        LValueView::children_from(LValueView::refilled_from(targets, from, operands, at), 0)
            == operands.subrange(at, at + LValueView::arity_from(targets, from)),
        operands.subrange(at, at + LValueView::arity_from(targets, from))
            == LValueView::children_from(targets, from) ==> LValueView::refilled_from(
            targets,
            from,
            operands,
            at,
        ) == targets.skip(from),
        LValueView::refilled_from(targets, from, operands, at).len() == targets.len() - from,
        forall|i: int|
            0 <= i < targets.len() - from ==> {
                let target = (#[trigger] LValueView::refilled_from(targets, from, operands, at)[i]);
                &&& (target is Index) == (targets[from + i] is Index)
                &&& !(target is Index) ==> target == targets[from + i]
            },
    decreases targets.len() - from,
{
    let refilled = LValueView::refilled_from(targets, from, operands, at);
    let count = LValueView::arity_from(targets, from) as int;
    if from < targets.len() {
        let step = targets[from].arity();
        let rest = LValueView::refilled_from(targets, from + 1, operands, at + step);
        let rest_count = LValueView::arity_from(targets, from + 1) as int;
        lemma_refilled_targets(targets, from + 1, operands, at + step);
        assert(refilled =~= seq![refilled[0]] + rest);
        lemma_targets_shift(refilled[0], rest, 0);
        assert(refilled[0].children() =~= operands.subrange(at, at + step));
        assert(operands.subrange(at, at + count) =~= operands.subrange(at, at + step)
            + operands.subrange(at + step, at + step + rest_count));
        let listed = LValueView::children_from(targets, from);
        let listed_rest = LValueView::children_from(targets, from + 1);
        model::lemma_target_arity(targets, from + 1);
        assert(listed.skip(step) =~= listed_rest);
        if operands.subrange(at, at + count) == listed {
            assert(operands.subrange(at + step, at + step + rest_count) =~= operands.subrange(
                at,
                at + count,
            ).skip(step));
            if step == 2 {
                assert(operands[at] == operands.subrange(at, at + count)[0]);
                assert(operands[at + 1] == operands.subrange(at, at + count)[1]);
                assert(listed[0] == targets[from].children()[0]);
                assert(listed[1] == targets[from].children()[1]);
            }
            assert(refilled[0] == targets[from]);
            assert(refilled =~= targets.skip(from));
        }
        assert forall|i: int| 0 <= i < targets.len() - from implies {
            let target = (#[trigger] refilled[i]);
            &&& (target is Index) == (targets[from + i] is Index)
            &&& !(target is Index) ==> target == targets[from + i]
        } by {
            if i > 0 {
                assert(refilled[i] == rest[i - 1]);
            }
        }
    } else {
        assert(operands.subrange(at, at + count) =~= Seq::empty());
        assert(targets.skip(from) =~= Seq::empty());
    }
}

/// A statement given its own expressions is unchanged.
pub proof fn same_roots(statement: StatementView)
    ensures
        statement.with_roots(statement.roots()) == statement,
        statement.takes(statement.roots().len() as int),
{
    model::lemma_statement_parts(statement);
    match statement {
        StatementView::Call(call) => {
            assert(call.operands().skip(1) =~= call.arguments);
        },
        StatementView::MethodCall(call) => {
            assert(call.operands().skip(1) =~= call.arguments);
        },
        StatementView::Assign(assign) | StatementView::NumForInit(assign)
        | StatementView::GenericForInit(assign) => {
            let roots = assign.roots();
            model::lemma_target_arity(assign.left, 0);
            let arity = LValueView::arity_from(assign.left, 0) as int;
            assert(roots.subrange(0, arity) =~= LValueView::children_from(assign.left, 0));
            lemma_refilled_targets(assign.left, 0, roots, 0);
            assert(assign.left.skip(0) =~= assign.left);
            assert(roots.skip(arity) =~= assign.right);
        },
        StatementView::SetList { values, tail, .. } => {
            let roots = statement.roots();
            assert(roots.take(roots.len() - model::optional(tail).len()) =~= values);
        },
        StatementView::Class(class) => {
            assert(class.with_values(class.values()).methods =~= class.methods);
        },
        _ => {},
    }
}

/// The expressions that a statement was given are its expressions, and its
/// blocks are the ones it had.
pub proof fn given_roots(statement: StatementView, roots: Seq<RValueView>)
    requires
        statement.takes(roots.len() as int),
    ensures
        statement.with_roots(roots).roots() == roots,
        statement.with_roots(roots).blocks() == statement.blocks(),
{
    match statement {
        StatementView::Call(call) => {
            assert(call.with_operands(roots).operands() =~= roots);
        },
        StatementView::MethodCall(call) => {
            assert(call.with_operands(roots).operands() =~= roots);
        },
        StatementView::Assign(assign) | StatementView::NumForInit(assign)
        | StatementView::GenericForInit(assign) => {
            let arity = LValueView::arity_from(assign.left, 0) as int;
            lemma_refilled_targets(assign.left, 0, roots, 0);
            assert(roots.subrange(0, arity) + roots.skip(arity) =~= roots);
        },
        StatementView::SetList { values, tail, .. } => {
            let given = statement.with_roots(roots);
            assert(given.roots() =~= roots);
        },
        StatementView::Class(class) => {
            assert(class.with_values(roots).values() =~= roots);
        },
        _ => {
            assert(statement.with_roots(roots).roots() =~= roots);
        },
    }
}

/// A statement given its own blocks is unchanged.
pub proof fn same_blocks(statement: StatementView)
    ensures
        statement.with_blocks(statement.blocks()) == statement,
{
}

/// The blocks that a statement was given are its blocks, and its expressions
/// are the ones it had.
pub proof fn given_blocks(statement: StatementView, blocks: Seq<Seq<StatementView>>)
    requires
        blocks.len() == statement.blocks().len(),
    ensures
        statement.with_blocks(blocks).blocks() == blocks,
        statement.with_blocks(blocks).roots() == statement.roots(),
{
    assert(statement.with_blocks(blocks).blocks() =~= blocks);
}

/// Whether the same fields of two tables have keys.
spec fn are_keyed_alike(
    left: Seq<(Option<RValueView>, RValueView)>,
    right: Seq<(Option<RValueView>, RValueView)>,
) -> bool {
    &&& left.len() == right.len()
    &&& forall|i: int|
        0 <= i < left.len() ==> ((#[trigger] left[i]).0 is Some) == (right[i].0 is Some)
}

proof fn lemma_refilled_keys(
    fields: Seq<(Option<RValueView>, RValueView)>,
    from: int,
    operands: Seq<RValueView>,
    at: int,
)
    requires
        0 <= from <= fields.len(),
    ensures
        are_keyed_alike(
            RValueView::refilled_from(fields, from, operands, at),
            fields.skip(from),
        ),
    decreases fields.len() - from,
{
    if from < fields.len() {
        let step: int = if fields[from].0 is Some {
            2
        } else {
            1
        };
        let refilled = RValueView::refilled_from(fields, from, operands, at);
        let rest = RValueView::refilled_from(fields, from + 1, operands, at + step);
        lemma_refilled_keys(fields, from + 1, operands, at + step);
        assert forall|i: int| 0 <= i < refilled.len() implies ((#[trigger] refilled[i]).0 is Some)
            == (fields.skip(from)[i].0 is Some) by {
            if i > 0 {
                assert(refilled[i] == rest[i - 1]);
                assert(fields.skip(from)[i] == fields.skip(from + 1)[i - 1]);
            }
        }
    }
}

proof fn lemma_refilled_alike(
    left: Seq<(Option<RValueView>, RValueView)>,
    right: Seq<(Option<RValueView>, RValueView)>,
    from: int,
    operands: Seq<RValueView>,
    at: int,
)
    requires
        are_keyed_alike(left, right),
        0 <= from,
    ensures
        RValueView::refilled_from(left, from, operands, at) == RValueView::refilled_from(
            right,
            from,
            operands,
            at,
        ),
    decreases left.len() - from,
{
    if from < left.len() {
        assert((left[from].0 is Some) == (right[from].0 is Some));
        lemma_refilled_alike(left, right, from + 1, operands, at + 1);
        lemma_refilled_alike(left, right, from + 1, operands, at + 2);
    }
}

/// A table that was given other operands has keys for the same fields.
pub proof fn lemma_keys_kept(value: RValueView, operands: Seq<RValueView>)
    ensures
        value matches RValueView::Table(fields) ==> {
            &&& value.with_children(operands) is Table
            &&& (value.with_children(operands)->Table_0).len() == fields.len()
            &&& forall|i: int|
                0 <= i < fields.len() ==> ((#[trigger] (value.with_children(operands)->Table_0)[i]).0
                    is Some) == (fields[i].0 is Some)
        },
{
    if let RValueView::Table(fields) = value {
        lemma_refilled_keys(fields, 0, operands, 0);
        assert(fields.skip(0) =~= fields);
    }
}

/// Tables with keys for the same fields become the same with the same operands.
pub proof fn lemma_same_tables(
    left: Seq<(Option<RValueView>, RValueView)>,
    right: Seq<(Option<RValueView>, RValueView)>,
    operands: Seq<RValueView>,
)
    requires
        crate::ast::shape::same_keys(left, right),
    ensures
        RValueView::refilled_from(left, 0, operands, 0) == RValueView::refilled_from(
            right,
            0,
            operands,
            0,
        ),
{
    assert forall|i: int| 0 <= i < left.len() implies ((#[trigger] left[i]).0 is Some) == (
    right[i].0 is Some) by {
        assert((left[i].0 is Some) == (right[i].0 is Some));
    }
    lemma_refilled_alike(left, right, 0, operands, 0);
}

/// Of the operands that an expression was given, the last ones count.
pub proof fn regiven_operands(
    value: RValueView,
    first: Seq<RValueView>,
    second: Seq<RValueView>,
)
    requires
        value.takes(first.len() as int),
    ensures
        value.with_children(first).with_children(second) == value.with_children(second),
{
    match value {
        RValueView::Table(fields) => {
            lemma_refilled_keys(fields, 0, first, 0);
            assert(fields.skip(0) =~= fields);
            lemma_refilled_alike(
                RValueView::refilled_from(fields, 0, first, 0),
                fields,
                0,
                second,
                0,
            );
        },
        _ => {},
    }
}

proof fn lemma_targets_alike(
    left: Seq<LValueView>,
    right: Seq<LValueView>,
    from: int,
    operands: Seq<RValueView>,
    at: int,
)
    requires
        left.len() == right.len(),
        0 <= from,
        forall|i: int|
            0 <= i < left.len() ==> {
                &&& ((#[trigger] left[i]) is Index) == (right[i] is Index)
                &&& !(left[i] is Index) ==> left[i] == right[i]
            },
    ensures
        LValueView::refilled_from(left, from, operands, at) == LValueView::refilled_from(
            right,
            from,
            operands,
            at,
        ),
        LValueView::arity_from(left, from) == LValueView::arity_from(right, from),
    decreases left.len() - from,
{
    if from < left.len() {
        assert((left[from] is Index) == (right[from] is Index));
        lemma_targets_alike(left, right, from + 1, operands, at + left[from].arity());
    }
}

/// Of the expressions that a statement was given, the last ones count.
pub proof fn regiven_roots(
    statement: StatementView,
    first: Seq<RValueView>,
    second: Seq<RValueView>,
)
    requires
        statement.takes(first.len() as int),
    ensures
        statement.with_roots(first).with_roots(second) == statement.with_roots(second),
{
    match statement {
        StatementView::Assign(assign) | StatementView::NumForInit(assign)
        | StatementView::GenericForInit(assign) => {
            lemma_refilled_targets(assign.left, 0, first, 0);
            lemma_targets_alike(
                LValueView::refilled_from(assign.left, 0, first, 0),
                assign.left,
                0,
                second,
                0,
            );
        },
        StatementView::Class(class) => {
            assert(class.with_values(first).with_values(second).methods =~= class.with_values(
                second,
            ).methods);
        },
        _ => {},
    }
}

/// Of the blocks that a statement was given, the last ones count, and it does
/// not matter whether its expressions were given before.
pub proof fn regiven_blocks(
    statement: StatementView,
    first: Seq<Seq<StatementView>>,
    second: Seq<Seq<StatementView>>,
    roots: Seq<RValueView>,
)
    ensures
        statement.with_blocks(first).with_blocks(second) == statement.with_blocks(second),
        statement.with_blocks(first).with_roots(roots) == statement.with_roots(roots).with_blocks(
            first,
        ),
{
}

} // verus!
