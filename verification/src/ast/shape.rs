//! Taking nodes apart into their operands and putting them together again.

use vstd::prelude::*;

use crate::ast::literal::{Literal, LiteralView};
use crate::ast::nodes::{
    Binary, Call, Conditional, Index, MethodCall, RValue, RValueView, Select, Table, Unary,
};
use crate::ast::nodes;

verus! {

broadcast use nodes::group_views;

pub(crate) fn nil() -> (value: RValue)
    ensures
        value@ == RValueView::Literal(LiteralView::Nil),
{
    let value = RValue::Literal(Literal::Nil);
    proof {
        nodes::rvalue_node(value);
    }
    value
}

/// Borrows a first expression and the rest of a list.
pub(crate) fn borrow_operands<'a>(first: &'a RValue, rest: &'a Vec<RValue>) -> (operands: Vec<&'a RValue>)
    ensures
        RValue::borrowed(operands@) == seq![first@] + RValue::views(rest@),
{
    let mut operands: Vec<&'a RValue> = Vec::new();
    operands.push(first);
    let mut index: usize = 0;
    while index < rest.len()
        invariant
            index <= rest.len(),
            RValue::borrowed(operands@) =~= seq![first@] + RValue::views(rest@).take(index as int),
        decreases rest.len() - index,
    {
        operands.push(&rest[index]);
        index += 1;
        proof {
            assert(RValue::views(rest@).take(index as int) =~= RValue::views(rest@).take(
                index - 1,
            ).push(rest@[index - 1]@));
        }
    }
    proof {
        assert(RValue::views(rest@).take(rest.len() as int) =~= RValue::views(rest@));
    }
    operands
}

/// Borrows the expressions of a list.
pub(crate) fn borrow_all<'a>(values: &'a Vec<RValue>) -> (borrows: Vec<&'a RValue>)
    ensures
        RValue::borrowed(borrows@) == RValue::views(values@),
{
    let mut borrows: Vec<&'a RValue> = Vec::new();
    let mut index: usize = 0;
    while index < values.len()
        invariant
            index <= values.len(),
            RValue::borrowed(borrows@) =~= RValue::views(values@).take(index as int),
        decreases values.len() - index,
    {
        borrows.push(&values[index]);
        index += 1;
        proof {
            assert(RValue::views(values@).take(index as int) =~= RValue::views(values@).take(
                index - 1,
            ).push(values@[index - 1]@));
        }
    }
    proof {
        assert(RValue::views(values@).take(values.len() as int) =~= RValue::views(values@));
    }
    borrows
}

fn borrow_fields<'a>(fields: &'a Vec<(Option<RValue>, RValue)>) -> (operands: Vec<&'a RValue>)
    ensures
        RValue::borrowed(operands@) == RValueView::fields_from(RValue::field_views(fields@), 0),
{
    let mut operands: Vec<&'a RValue> = Vec::new();
    let mut index: usize = 0;
    let ghost views = RValue::field_views(fields@);
    while index < fields.len()
        invariant
            index <= fields.len(),
            views == RValue::field_views(fields@),
            RValue::borrowed(operands@) + RValueView::fields_from(views, index as int)
                =~= RValueView::fields_from(views, 0),
        decreases fields.len() - index,
    {
        let ghost before = operands@;
        match &fields[index].0 {
            Some(key) => {
                operands.push(key);
                operands.push(&fields[index].1);
                proof {
                    assert(RValue::borrowed(operands@) =~= RValue::borrowed(before) + seq![
                        key@,
                        fields@[index as int].1@,
                    ]);
                }
            },
            None => {
                operands.push(&fields[index].1);
                proof {
                    assert(RValue::borrowed(operands@) =~= RValue::borrowed(before) + seq![
                        fields@[index as int].1@,
                    ]);
                }
            },
        }
        index += 1;
    }
    operands
}

pub(crate) fn borrow_methods<'a>(methods: &'a Vec<(String, RValue)>) -> (values: Vec<&'a RValue>)
    ensures
        RValue::borrowed(values@) == RValue::method_views(methods@).map_values(
            |method: (Seq<char>, RValueView)| method.1,
        ),
{
    let mut values: Vec<&'a RValue> = Vec::new();
    let mut index: usize = 0;
    let ghost views = RValue::method_views(methods@).map_values(
        |method: (Seq<char>, RValueView)| method.1,
    );
    while index < methods.len()
        invariant
            index <= methods.len(),
            views == RValue::method_views(methods@).map_values(
                |method: (Seq<char>, RValueView)| method.1,
            ),
            RValue::borrowed(values@) =~= views.take(index as int),
        decreases methods.len() - index,
    {
        values.push(&methods[index].1);
        index += 1;
        proof {
            assert(views.take(index as int) =~= views.take(index - 1).push(
                methods@[index - 1].1@,
            ));
        }
    }
    proof {
        assert(views.take(methods.len() as int) =~= views);
    }
    values
}

impl RValue {
    /// The operands of this expression.
    pub fn rvalues(&self) -> (operands: Vec<&RValue>)
        ensures
            RValue::borrowed(operands@) == self@.children(),
    {
        proof {
            nodes::rvalue_node(*self);
        }
        match self {
            RValue::Local(_) | RValue::Global(_) | RValue::VarArg(_) | RValue::Literal(_)
            | RValue::Closure(_) | RValue::Select(Select::VarArg(_)) => {
                let operands: Vec<&RValue> = Vec::new();
                proof {
                    assert(RValue::borrowed(operands@) =~= self@.children());
                }
                operands
            },
            RValue::Call(call) | RValue::Select(Select::Call(call)) => borrow_operands(
                &call.value,
                &call.arguments,
            ),
            RValue::MethodCall(call) | RValue::Select(Select::MethodCall(call)) => borrow_operands(
                &call.value,
                &call.arguments,
            ),
            RValue::Table(table) => borrow_fields(&table.0),
            RValue::Index(index) => {
                let mut operands: Vec<&RValue> = Vec::new();
                operands.push(&index.left);
                operands.push(&index.right);
                proof {
                    assert(RValue::borrowed(operands@) =~= self@.children());
                }
                operands
            },
            RValue::Unary(unary) => {
                let mut operands: Vec<&RValue> = Vec::new();
                operands.push(&unary.value);
                proof {
                    assert(RValue::borrowed(operands@) =~= self@.children());
                }
                operands
            },
            RValue::Binary(binary) => {
                let mut operands: Vec<&RValue> = Vec::new();
                operands.push(&binary.left);
                operands.push(&binary.right);
                proof {
                    assert(RValue::borrowed(operands@) =~= self@.children());
                }
                operands
            },
            RValue::Conditional(conditional) => {
                let mut operands: Vec<&RValue> = Vec::new();
                operands.push(&conditional.condition);
                operands.push(&conditional.then_value);
                operands.push(&conditional.else_value);
                proof {
                    assert(RValue::borrowed(operands@) =~= self@.children());
                }
                operands
            },
        }
    }
}

/// Joins a first expression and the rest of a list.
pub(crate) fn join_operands(first: RValue, rest: Vec<RValue>) -> (operands: Vec<RValue>)
    ensures
        RValue::views(operands@) == seq![first@] + RValue::views(rest@),
{
    let ghost tail = RValue::views(rest@);
    let mut operands = rest;
    operands.insert(0, first);
    proof {
        assert(RValue::views(operands@) =~= seq![first@] + tail);
    }
    operands
}

fn split_fields(fields: Vec<(Option<RValue>, RValue)>) -> (parts: (
    Vec<(Option<RValue>, RValue)>,
    Vec<RValue>,
))
    ensures
        RValue::views(parts.1@) == RValueView::fields_from(RValue::field_views(fields@), 0),
        same_keys(RValue::field_views(parts.0@), RValue::field_views(fields@)),
{
    let mut rest = fields;
    let mut shell: Vec<(Option<RValue>, RValue)> = Vec::new();
    let mut operands: Vec<RValue> = Vec::new();
    let ghost views = RValue::field_views(fields@);
    let count: usize = rest.len();
    let mut index: usize = 0;
    while index < count
        invariant
            index <= count == views.len(),
            shell@.len() == index,
            rest@.len() == count - index,
            RValue::field_views(rest@) =~= views.skip(index as int),
            RValue::views(operands@) + RValueView::fields_from(views, index as int)
                =~= RValueView::fields_from(views, 0),
            forall|i: int|
                0 <= i < index ==> (RValue::field_views(shell@)[i].0 is Some) == (
                #[trigger] views[i].0 is Some),
        decreases count - index,
    {
        let ghost before = RValue::field_views(rest@);
        let ghost held = RValue::views(operands@);
        let (key, value) = rest.remove(0);
        proof {
            assert(before[0] == views[index as int]);
            assert(RValue::field_views(rest@) =~= before.skip(1));
        }
        match key {
            Some(key) => {
                operands.push(key);
                operands.push(value);
                shell.push((Some(nil()), nil()));
                proof {
                    assert(RValue::views(operands@) =~= held + seq![key@, value@]);
                }
            },
            None => {
                operands.push(value);
                shell.push((None, nil()));
                proof {
                    assert(RValue::views(operands@) =~= held + seq![value@]);
                }
            },
        }
        index += 1;
    }
    (shell, operands)
}

/// Whether two lists of fields have keys at the same places.
pub open spec fn same_keys(
    left: Seq<(Option<RValueView>, RValueView)>,
    right: Seq<(Option<RValueView>, RValueView)>,
) -> bool {
    &&& left.len() == right.len()
    &&& forall|i: int|
        0 <= i < left.len() ==> (left[i].0 is Some) == (#[trigger] right[i].0 is Some)
}

proof fn lemma_same_keys(
    left: Seq<(Option<RValueView>, RValueView)>,
    right: Seq<(Option<RValueView>, RValueView)>,
    from: int,
    operands: Seq<RValueView>,
    at: int,
)
    requires
        same_keys(left, right),
        0 <= from,
    ensures
        RValueView::fields_from(left, from).len() == RValueView::fields_from(right, from).len(),
        RValueView::refilled_from(left, from, operands, at) == RValueView::refilled_from(
            right,
            from,
            operands,
            at,
        ),
    decreases left.len() - from,
{
    if from < left.len() {
        assert((left[from].0 is Some) == (right[from].0 is Some));
        lemma_same_keys(left, right, from + 1, operands, at + 1);
        lemma_same_keys(left, right, from + 1, operands, at + 2);
    }
}

/// Whether two expressions are of one kind, so that giving them the same
/// operands makes them the same expression.
pub open spec fn same_kind(left: RValueView, right: RValueView) -> bool {
    &&& forall|operands: Seq<RValueView>|
        #[trigger] left.with_children(operands) == right.with_children(operands)
    &&& forall|count: int| #[trigger] left.takes(count) == right.takes(count)
}

impl RValue {
    /// Takes an expression apart into a shell of its kind and its operands.
    pub fn decompose(self) -> (parts: (RValue, Vec<RValue>))
        ensures
            RValue::views(parts.1@) == self@.children(),
            same_kind(parts.0@, self@),
            self@.takes(self@.children().len() as int),
    {
        let ghost whole = self@;
        proof {
            nodes::rvalue_node(self);
        }
        let parts = match self {
            RValue::Call(call) => {
                let operands = join_operands(*call.value, call.arguments);
                (RValue::Call(Call { value: Box::new(nil()), arguments: Vec::new() }), operands)
            },
            RValue::MethodCall(call) => {
                let operands = join_operands(*call.value, call.arguments);
                (
                    RValue::MethodCall(
                        MethodCall {
                            value: Box::new(nil()),
                            method: call.method,
                            arguments: Vec::new(),
                        },
                    ),
                    operands,
                )
            },
            RValue::Select(Select::Call(call)) => {
                let operands = join_operands(*call.value, call.arguments);
                (
                    RValue::Select(
                        Select::Call(Call { value: Box::new(nil()), arguments: Vec::new() }),
                    ),
                    operands,
                )
            },
            RValue::Select(Select::MethodCall(call)) => {
                let operands = join_operands(*call.value, call.arguments);
                (
                    RValue::Select(
                        Select::MethodCall(
                            MethodCall {
                                value: Box::new(nil()),
                                method: call.method,
                                arguments: Vec::new(),
                            },
                        ),
                    ),
                    operands,
                )
            },
            RValue::Table(table) => {
                let (shell, operands) = split_fields(table.0);
                proof {
                    assert forall|given: Seq<RValueView>|
                        #[trigger] RValueView::Table(RValue::field_views(shell@)).with_children(
                            given,
                        ) == whole.with_children(given) by {
                        lemma_same_keys(
                            RValue::field_views(shell@),
                            RValue::field_views(table.0@),
                            0,
                            given,
                            0,
                        );
                    }
                    lemma_same_keys(
                        RValue::field_views(shell@),
                        RValue::field_views(table.0@),
                        0,
                        Seq::empty(),
                        0,
                    );
                }
                (RValue::Table(Table(shell)), operands)
            },
            RValue::Index(index) => {
                let mut operands: Vec<RValue> = Vec::new();
                operands.push(*index.left);
                operands.push(*index.right);
                proof {
                    assert(RValue::views(operands@) =~= whole.children());
                }
                (
                    RValue::Index(Index { left: Box::new(nil()), right: Box::new(nil()) }),
                    operands,
                )
            },
            RValue::Unary(unary) => {
                let mut operands: Vec<RValue> = Vec::new();
                operands.push(*unary.value);
                proof {
                    assert(RValue::views(operands@) =~= whole.children());
                }
                (
                    RValue::Unary(Unary { value: Box::new(nil()), operation: unary.operation }),
                    operands,
                )
            },
            RValue::Binary(binary) => {
                let mut operands: Vec<RValue> = Vec::new();
                operands.push(*binary.left);
                operands.push(*binary.right);
                proof {
                    assert(RValue::views(operands@) =~= whole.children());
                }
                (
                    RValue::Binary(
                        Binary {
                            left: Box::new(nil()),
                            right: Box::new(nil()),
                            operation: binary.operation,
                        },
                    ),
                    operands,
                )
            },
            RValue::Conditional(conditional) => {
                let mut operands: Vec<RValue> = Vec::new();
                operands.push(*conditional.condition);
                operands.push(*conditional.then_value);
                operands.push(*conditional.else_value);
                proof {
                    assert(RValue::views(operands@) =~= whole.children());
                }
                (
                    RValue::Conditional(
                        Conditional {
                            condition: Box::new(nil()),
                            then_value: Box::new(nil()),
                            else_value: Box::new(nil()),
                        },
                    ),
                    operands,
                )
            },
            leaf => {
                let operands: Vec<RValue> = Vec::new();
                proof {
                    assert(RValue::views(operands@) =~= whole.children());
                }
                (leaf, operands)
            },
        };
        proof {
            nodes::rvalue_node(parts.0);
        }
        parts
    }

    /// This expression with other operands.
    pub fn compose(self, operands: Vec<RValue>) -> (value: RValue)
        requires
            self@.takes(operands@.len() as int),
        ensures
            value@ == self@.with_children(RValue::views(operands@)),
    {
        let mut operands = operands;
        let ghost views = RValue::views(operands@);
        proof {
            nodes::rvalue_node(self);
        }
        let value = match self {
            RValue::Call(_) => {
                let value = operands.remove(0);
                proof {
                    assert(RValue::views(operands@) =~= views.skip(1));
                }
                RValue::Call(Call { value: Box::new(value), arguments: operands })
            },
            RValue::MethodCall(call) => {
                let value = operands.remove(0);
                proof {
                    assert(RValue::views(operands@) =~= views.skip(1));
                }
                RValue::MethodCall(
                    MethodCall {
                        value: Box::new(value),
                        method: call.method,
                        arguments: operands,
                    },
                )
            },
            RValue::Select(Select::Call(_)) => {
                let value = operands.remove(0);
                proof {
                    assert(RValue::views(operands@) =~= views.skip(1));
                }
                RValue::Select(Select::Call(Call { value: Box::new(value), arguments: operands }))
            },
            RValue::Select(Select::MethodCall(call)) => {
                let value = operands.remove(0);
                proof {
                    assert(RValue::views(operands@) =~= views.skip(1));
                }
                RValue::Select(
                    Select::MethodCall(
                        MethodCall {
                            value: Box::new(value),
                            method: call.method,
                            arguments: operands,
                        },
                    ),
                )
            },
            RValue::Table(table) => RValue::Table(Table(refill_fields(table.0, operands))),
            RValue::Index(_) => {
                let left = operands.remove(0);
                let right = operands.remove(0);
                RValue::Index(Index { left: Box::new(left), right: Box::new(right) })
            },
            RValue::Unary(unary) => {
                let value = operands.remove(0);
                RValue::Unary(Unary { value: Box::new(value), operation: unary.operation })
            },
            RValue::Binary(binary) => {
                let left = operands.remove(0);
                let right = operands.remove(0);
                RValue::Binary(
                    Binary {
                        left: Box::new(left),
                        right: Box::new(right),
                        operation: binary.operation,
                    },
                )
            },
            RValue::Conditional(_) => {
                let condition = operands.remove(0);
                let then_value = operands.remove(0);
                let else_value = operands.remove(0);
                RValue::Conditional(
                    Conditional {
                        condition: Box::new(condition),
                        then_value: Box::new(then_value),
                        else_value: Box::new(else_value),
                    },
                )
            },
            leaf => leaf,
        };
        proof {
            nodes::rvalue_node(value);
        }
        value
    }
}

fn refill_fields(fields: Vec<(Option<RValue>, RValue)>, operands: Vec<RValue>) -> (refilled: Vec<
    (Option<RValue>, RValue),
>)
    requires
        operands@.len() == RValueView::fields_from(RValue::field_views(fields@), 0).len(),
    ensures
        RValue::field_views(refilled@) == RValueView::refilled_from(
            RValue::field_views(fields@),
            0,
            RValue::views(operands@),
            0,
        ),
{
    let ghost views = RValue::field_views(fields@);
    let ghost given = RValue::views(operands@);
    let mut rest = operands;
    let mut refilled: Vec<(Option<RValue>, RValue)> = Vec::new();
    let mut index: usize = 0;
    let ghost mut at: int = 0;
    proof {
        assert(given.skip(0) =~= given);
    }
    while index < fields.len()
        invariant
            index <= fields.len(),
            views == RValue::field_views(fields@),
            0 <= at,
            given.len() - at == RValueView::fields_from(views, index as int).len(),
            rest@.len() == given.len() - at,
            RValue::views(rest@) == given.skip(at),
            RValue::field_views(refilled@) + RValueView::refilled_from(
                views,
                index as int,
                given,
                at,
            ) =~= RValueView::refilled_from(views, 0, given, 0),
        decreases fields.len() - index,
    {
        let ghost before = RValue::field_views(refilled@);
        let ghost left = RValue::views(rest@);
        if fields[index].0.is_some() {
            let key = rest.remove(0);
            let value = rest.remove(0);
            proof {
                assert(RValue::views(rest@) =~= left.skip(2));
                assert(left.skip(2) =~= given.skip(at + 2));
                assert(key@ == left[0] && value@ == left[1]);
                at = at + 2;
            }
            refilled.push((Some(key), value));
        } else {
            let value = rest.remove(0);
            proof {
                assert(RValue::views(rest@) =~= left.skip(1));
                assert(left.skip(1) =~= given.skip(at + 1));
                assert(value@ == left[0]);
                at = at + 1;
            }
            refilled.push((None, value));
        }
        index += 1;
    }
    refilled
}

} // verus!
