//! That folding constants away keeps what an expression means.

use vstd::prelude::*;

use crate::ast::binary;
use crate::ast::literal::LiteralView;
use crate::ast::meaning;
use crate::ast::meaning::{Machine, Value, World};
use crate::ast::meaning_laws;
use crate::ast::nodes::{BinaryOperation, RValueView, UnaryOperation};
use crate::ast::{model, shape_laws};

verus! {

impl Machine {
    /// Whether literals that are equal are the same value, and closures of one
    /// prototype over the same captures are the same function.
    pub open spec fn respects_equality(self) -> bool {
        &&& forall|left: LiteralView, right: LiteralView| #[trigger]
            left.equals(right) ==> self.literal(left) == self.literal(right)
        &&& forall|left: RValueView, right: RValueView, captures: Seq<Value>, rest: int|
            left is Closure && #[trigger] left.same_head(right) ==> #[trigger] (self.closure)(
                left.head(),
                (self.code)(left.body()),
                captures,
                rest,
            ) == (self.closure)(right.head(), (self.code)(right.body()), captures, rest)
    }

    /// Whether no operation changes the world: each part of an expression has
    /// one value, however often it is computed.
    pub open spec fn is_quiet(self) -> bool {
        forall|head: RValueView, values: Seq<Value>, rest: int| #[trigger]
            (self.apply)(head, values, rest).1 == rest
    }
}

/// Whether two expressions have the same value and do the same in every world.
pub open spec fn same_value(left: RValueView, right: RValueView, m: Machine) -> bool {
    forall|world: World|
        {
            let (a, after) = #[trigger] left.evaluated(m, world);
            let (b, last) = right.evaluated(m, world);
            meaning::first(a) == meaning::first(b) && after == last
        }
}

/// Whether two expressions decide a condition the same way and do the same in
/// every world.
pub open spec fn same_test(left: RValueView, right: RValueView, m: Machine) -> bool {
    forall|world: World|
        {
            let (a, after) = #[trigger] left.evaluated(m, world);
            let (b, last) = right.evaluated(m, world);
            meaning::first(a).is_truthy() == meaning::first(b).is_truthy() && after == last
        }
}

proof fn lemma_quiet(value: RValueView, m: Machine, world: World)
    requires
        m.is_quiet(),
    ensures
        value.evaluated(m, world).1 == world,
    decreases value.size(), 0int,
{
    model::lemma_children_smaller(value);
    binary::lemma_operand_sizes(value);
    match value {
        RValueView::Unary(operand, UnaryOperation::Not) => lemma_quiet(*operand, m, world),
        RValueView::Binary(left, right, _) => {
            lemma_quiet(*left, m, world);
            lemma_quiet(*right, m, world);
            let a = meaning::first(left.evaluated(m, world).0);
            let b = meaning::first(right.evaluated(m, world).0);
            assert((m.apply)(value.head(), seq![a, b], world.rest).1 == world.rest);
        },
        RValueView::Conditional(condition, then_value, else_value) => {
            model::lemma_child_smaller(value, 0);
            model::lemma_child_smaller(value, 1);
            model::lemma_child_smaller(value, 2);
            assert(value.children()[0] == *condition && value.children()[1] == *then_value
                && value.children()[2] == *else_value);
            lemma_quiet(*condition, m, world);
            lemma_quiet(*then_value, m, world);
            lemma_quiet(*else_value, m, world);
        },
        _ => {
            lemma_quiet_operands(value.children(), 0, value.expands(), m, world);
            let values = RValueView::operands_from(
                value.children(),
                0,
                value.expands(),
                m,
                world,
            ).0;
            assert((m.apply)(value.head(), values, world.rest).1 == world.rest);
        },
    }
}

proof fn lemma_quiet_operands(
    values: Seq<RValueView>,
    from: int,
    expands: bool,
    m: Machine,
    world: World,
)
    requires
        m.is_quiet(),
        0 <= from,
    ensures
        RValueView::operands_from(values, from, expands, m, world).1 == world,
    decreases RValueView::sizes_from(values, from), 1int,
{
    model::lemma_sizes_step(values, from);
    if from < values.len() {
        lemma_quiet(values[from], m, world);
        lemma_quiet_operands(values, from + 1, expands, m, world);
    }
}

/// Equal expressions mean the same.
pub proof fn equal_expressions_mean_the_same(
    left: RValueView,
    right: RValueView,
    m: Machine,
    world: World,
)
    requires
        m.respects_equality(),
        left.equals(right),
    ensures
        left.evaluated(m, world) == right.evaluated(m, world),
    decreases left.size(), 0int,
{
    let a = left.children();
    let b = right.children();
    model::lemma_children_smaller(left);
    lemma_equal_operands(a, b, 0, left.expands(), m, world);
    assert(a.len() == b.len());
    assert forall|i: int, w: World| 0 <= i < a.len() implies (#[trigger] a[i].evaluated(m, w))
        == b[i].evaluated(m, w) by {
        lemma_all_equal(a, b, 0, i);
        model::lemma_child_smaller(left, i);
        equal_expressions_mean_the_same(a[i], b[i], m, w);
    }
    match (left, right) {
        (RValueView::Literal(x), RValueView::Literal(y)) => {
            assert(x.equals(y));
        },
        (RValueView::Closure(x), RValueView::Closure(y)) => {
            assert(left.same_head(right));
            let captures = m.captures(x.upvalues, world);
            assert((m.closure)(left.head(), (m.code)(left.body()), captures, world.rest) == (
            m.closure)(right.head(), (m.code)(right.body()), captures, world.rest));
        },
        (RValueView::Table(x), RValueView::Table(y)) => {
            shape_laws::lemma_same_tables(x, y, meaning::blanks(a.len()));
            assert((x.len() > 0) ==> (x.last().0 is Some) == (y.last().0 is Some)) by {
                if x.len() > 0 {
                    assert((x[x.len() - 1].0 is Some) == (y[x.len() - 1].0 is Some));
                }
            }
        },
        (RValueView::Unary(x, _), RValueView::Unary(y, _)) => {
            assert(a[0].evaluated(m, world) == b[0].evaluated(m, world));
        },
        (RValueView::Binary(x, z, _), RValueView::Binary(y, w, _)) => {
            assert(a[0].evaluated(m, world) == b[0].evaluated(m, world));
            let middle = x.evaluated(m, world).1;
            assert(a[1].evaluated(m, middle) == b[1].evaluated(m, middle));
        },
        (RValueView::Conditional(x, y, z), RValueView::Conditional(_, _, _)) => {
            assert(a[0].evaluated(m, world) == b[0].evaluated(m, world));
            let middle = x.evaluated(m, world).1;
            assert(a[1].evaluated(m, middle) == b[1].evaluated(m, middle));
            assert(a[2].evaluated(m, middle) == b[2].evaluated(m, middle));
        },
        _ => {},
    }
}

proof fn lemma_all_equal(left: Seq<RValueView>, right: Seq<RValueView>, from: int, i: int)
    requires
        0 <= from <= i < left.len(),
        RValueView::all_equal_from(left, right, from),
    ensures
        left.len() == right.len(),
        left[i].equals(right[i]),
    decreases left.len() - from,
{
    assert(RValueView::all_equal_from(left, right, from + 1));
    if from < i {
        lemma_all_equal(left, right, from + 1, i);
    } else if from + 1 < left.len() {
        lemma_all_equal(left, right, from + 1, from + 1);
    }
}

proof fn lemma_equal_operands(
    left: Seq<RValueView>,
    right: Seq<RValueView>,
    from: int,
    expands: bool,
    m: Machine,
    world: World,
)
    requires
        m.respects_equality(),
        0 <= from <= left.len(),
        RValueView::all_equal_from(left, right, from),
    ensures
        left.len() == right.len(),
        RValueView::operands_from(left, from, expands, m, world) == RValueView::operands_from(
            right,
            from,
            expands,
            m,
            world,
        ),
    decreases RValueView::sizes_from(left, from), 1int,
{
    model::lemma_sizes_step(left, from);
    if from < left.len() {
        equal_expressions_mean_the_same(left[from], right[from], m, world);
        let middle = left[from].evaluated(m, world).1;
        lemma_equal_operands(left, right, from + 1, expands, m, middle);
    }
}

impl RValueView {
    /// Whether folding as a value takes one of two equal operands that can be
    /// observed away.
    pub open spec fn repeats(self) -> bool
        decreases self.size(),
    {
        proof {
            binary::lemma_operand_sizes(self);
        }
        match self {
            RValueView::Unary(operand, _) => operand.repeats(),
            RValueView::Binary(left, right, operation) => {
                let (a, b) = (left.reduced(), right.reduced());
                let (result, again) = Self::combined(a, b, operation);
                ||| left.repeats()
                ||| right.repeats()
                ||| Self::decided(a, b, operation) is None && operation == BinaryOperation::Or
                    && a.equals(b) && a.has_side_effects()
                ||| again && result.size() < self.size() && result.repeats()
            },
            _ => false,
        }
    }

    /// Whether folding as a condition takes an operand that can be observed
    /// away.
    pub open spec fn drops(self) -> bool
        decreases self.size(),
    {
        proof {
            binary::lemma_operand_sizes(self);
        }
        match self {
            RValueView::Literal(_) | RValueView::Table(_) => false,
            RValueView::Binary(left, right, operation) => if operation.is_logical() {
                let (a, b) = (left.reduced_condition(), right.reduced_condition());
                let (result, again) = Self::combined_condition(a, b, operation);
                ||| left.drops()
                ||| right.drops()
                ||| Self::decided(a, b, operation) is None && a.has_side_effects() && b
                    == Self::boolean(operation == BinaryOperation::Or)
                ||| again && result.size() < self.size() && result.repeats()
            } else {
                left.repeats() || right.repeats()
            },
            _ => self.repeats(),
        }
    }
}

proof fn lemma_same_binary(
    left: RValueView,
    right: RValueView,
    a: RValueView,
    b: RValueView,
    operation: BinaryOperation,
    m: Machine,
)
    ensures
        ({
            let given = RValueView::Binary(Box::new(left), Box::new(right), operation);
            let made = RValueView::Binary(Box::new(a), Box::new(b), operation);
            &&& same_value(a, left, m) && same_value(b, right, m) ==> same_value(made, given, m)
            &&& operation.is_logical() && same_test(a, left, m) && same_test(b, right, m)
                ==> same_test(made, given, m)
        }),
{
    let given = RValueView::Binary(Box::new(left), Box::new(right), operation);
    let made = RValueView::Binary(Box::new(a), Box::new(b), operation);
    assert(given.head() == made.head());
    assert forall|world: World| same_value(a, left, m) && same_value(b, right, m) implies ({
        let (x, after) = #[trigger] made.evaluated(m, world);
        let (y, last) = given.evaluated(m, world);
        meaning::first(x) == meaning::first(y) && after == last
    }) by {
        let (x, middle) = a.evaluated(m, world);
        let (y, other) = left.evaluated(m, world);
        assert(meaning::first(x) == meaning::first(y) && middle == other);
        let (z, after) = b.evaluated(m, middle);
        let (w, last) = right.evaluated(m, middle);
        assert(meaning::first(z) == meaning::first(w) && after == last);
    }
    assert forall|world: World|
        operation.is_logical() && same_test(a, left, m) && same_test(b, right, m) implies ({
        let (x, after) = #[trigger] made.evaluated(m, world);
        let (y, last) = given.evaluated(m, world);
        meaning::first(x).is_truthy() == meaning::first(y).is_truthy() && after == last
    }) by {
        let (x, middle) = a.evaluated(m, world);
        let (y, other) = left.evaluated(m, world);
        assert(meaning::first(x).is_truthy() == meaning::first(y).is_truthy() && middle == other);
        let (z, after) = b.evaluated(m, middle);
        let (w, last) = right.evaluated(m, middle);
        assert(meaning::first(z).is_truthy() == meaning::first(w).is_truthy() && after == last);
    }
}

/// Deciding a logical operation by its constants keeps its value.
proof fn lemma_decided(left: RValueView, right: RValueView, operation: BinaryOperation, m: Machine)
    ensures
        match RValueView::decided(left, right, operation) {
            Some((result, _)) => same_value(
                result,
                RValueView::Binary(Box::new(left), Box::new(right), operation),
                m,
            ),
            None => true,
        },
{
    let given = RValueView::Binary(Box::new(left), Box::new(right), operation);
    if let Some((result, _)) = RValueView::decided(left, right, operation) {
        assert forall|world: World| ({
            let (a, after) = #[trigger] result.evaluated(m, world);
            let (b, last) = given.evaluated(m, world);
            meaning::first(a) == meaning::first(b) && after == last
        }) by {
            if left.is_negation() && right.is_negation() {
                let inner = RValueView::Binary(
                    Box::new(left.operand()),
                    Box::new(right.operand()),
                    operation.dual(),
                );
                assert(result == RValueView::Unary(Box::new(inner), UnaryOperation::Not));
                let middle = left.operand().evaluated(m, world).1;
                assert(left.evaluated(m, world).1 == middle);
                assert(right.evaluated(m, middle).1 == right.operand().evaluated(m, middle).1);
                assert(inner.evaluated(m, world).1 == given.evaluated(m, world).1);
            }
        }
    }
}

/// Combining reduced operands keeps the value of the operation on them.
proof fn lemma_combined(
    left: RValueView,
    right: RValueView,
    operation: BinaryOperation,
    m: Machine,
)
    requires
        m.respects_equality(),
        m.is_quiet() || !(RValueView::decided(left, right, operation) is None && operation
            == BinaryOperation::Or && left.equals(right) && left.has_side_effects()),
    ensures
        same_value(
            RValueView::combined(left, right, operation).0,
            RValueView::Binary(Box::new(left), Box::new(right), operation),
            m,
        ),
{
    let given = RValueView::Binary(Box::new(left), Box::new(right), operation);
    let result = RValueView::combined(left, right, operation).0;
    lemma_decided(left, right, operation, m);
    if RValueView::decided(left, right, operation) is None {
        assert forall|world: World| ({
            let (a, after) = #[trigger] result.evaluated(m, world);
            let (b, last) = given.evaluated(m, world);
            meaning::first(a) == meaning::first(b) && after == last
        }) by {
            let (x, middle) = left.evaluated(m, world);
            if operation.is_logical() && left.equals(right) {
                equal_expressions_mean_the_same(left, right, m, world);
                if m.is_quiet() {
                    lemma_quiet(left, m, world);
                } else if !left.has_side_effects() {
                    meaning_laws::unobservable_changes_nothing(left, m, world);
                }
            }
            if operation == BinaryOperation::And && !left.has_side_effects()
                && !right.has_side_effects() && left.equals(right) {
                assert(result == left);
                assert(right.evaluated(m, world) == left.evaluated(m, world));
            } else if operation == BinaryOperation::Or && left.is_guarded_negation() && right
                == RValueView::boolean(false) {
                if let RValueView::Binary(a, b, _) = left {
                    assert(left.children()[0] == *a);
                    let (y, after) = a.evaluated(m, world);
                    assert(b.evaluated(m, after) == (seq![Value::Boolean(true)], after));
                    assert(right.evaluated(m, after) == (seq![Value::Boolean(false)], after));
                    assert(meaning::first(y) is Boolean);
                }
            } else if operation == BinaryOperation::Or && left.equals(right) {
                assert(result == left);
                assert(right.evaluated(m, world) == left.evaluated(m, world));
            } else {
                assert(result == RValueView::rebuilt(left, right, operation));
                if operation == BinaryOperation::Concat {
                    lemma_rebuilt(left, right, m, world);
                }
            }
        }
    }
}

proof fn lemma_rebuilt(left: RValueView, right: RValueView, m: Machine, world: World)
    ensures
        ({
            let given = RValueView::Binary(
                Box::new(left),
                Box::new(right),
                BinaryOperation::Concat,
            );
            RValueView::rebuilt(left, right, BinaryOperation::Concat).evaluated(m, world)
                == given.evaluated(m, world)
        }),
{
    let given = RValueView::Binary(Box::new(left), Box::new(right), BinaryOperation::Concat);
    match (left, right) {
        (
            RValueView::Literal(LiteralView::String(a)),
            RValueView::Literal(LiteralView::String(b)),
        ) => {
            assert(left.evaluated(m, world) == (seq![Value::String(a)], world));
            assert(right.evaluated(m, world) == (seq![Value::String(b)], world));
            assert(given.head() matches RValueView::Binary(_, _, BinaryOperation::Concat));
            assert(given.evaluated(m, world) == (seq![Value::String(a + b)], world));
        },
        _ => {},
    }
}

/// Folding the constants of an expression keeps its value and what computing it
/// does, in every world. What it does can be lost only where `or` has the same
/// operand on both sides and computing that can be observed.
pub proof fn reduction_keeps_values(value: RValueView, m: Machine)
    requires
        m.respects_equality(),
        m.is_quiet() || !value.repeats(),
    ensures
        same_value(value.reduced(), value, m),
    decreases value.size(),
{
    binary::lemma_operand_sizes(value);
    match value {
        RValueView::Unary(operand, operation) => {
            reduction_keeps_values(*operand, m);
            let inner = operand.reduced();
            let result = value.reduced();
            assert(result.head() == value.head());
            assert forall|world: World| ({
                let (a, after) = #[trigger] result.evaluated(m, world);
                let (b, last) = value.evaluated(m, world);
                meaning::first(a) == meaning::first(b) && after == last
            }) by {
                let (a, after) = inner.evaluated(m, world);
                let (b, last) = operand.evaluated(m, world);
                assert(meaning::first(a) == meaning::first(b) && after == last);
                lemma_single_operand(*operand, m, world);
                lemma_single_operand(inner, m, world);
                assert(value.children() =~= seq![*operand]);
                assert(result.children() =~= seq![inner]);
            }
        },
        RValueView::Binary(left, right, operation) => {
            reduction_keeps_values(*left, m);
            reduction_keeps_values(*right, m);
            let (a, b) = (left.reduced(), right.reduced());
            let (result, again) = RValueView::combined(a, b, operation);
            let middle = RValueView::Binary(Box::new(a), Box::new(b), operation);
            lemma_same_binary(*left, *right, a, b, operation, m);
            lemma_combined(a, b, operation, m);
            if again && result.size() < value.size() {
                reduction_keeps_values(result, m);
            }
            assert forall|world: World| ({
                let (x, after) = #[trigger] value.reduced().evaluated(m, world);
                let (y, last) = value.evaluated(m, world);
                meaning::first(x) == meaning::first(y) && after == last
            }) by {
                let (x, after) = middle.evaluated(m, world);
                let (y, last) = result.evaluated(m, world);
                let (z, done) = value.reduced().evaluated(m, world);
            }
        },
        _ => {},
    }
}

proof fn lemma_single_operand(operand: RValueView, m: Machine, world: World)
    ensures
        RValueView::operands_from(seq![operand], 0, false, m, world) == (
            seq![meaning::first(operand.evaluated(m, world).0)],
            operand.evaluated(m, world).1,
        ),
{
    let (results, after) = operand.evaluated(m, world);
    let one = seq![operand];
    assert(one[0] == operand);
    assert(RValueView::operands_from(one, 1, false, m, after) == (Seq::<Value>::empty(), after));
    assert(seq![meaning::first(results)] + Seq::<Value>::empty() =~= seq![
        meaning::first(results),
    ]);
}

/// Combining reduced operands as a condition keeps how the operation on them is
/// decided.
proof fn lemma_combined_condition(
    left: RValueView,
    right: RValueView,
    operation: BinaryOperation,
    m: Machine,
)
    requires
        m.is_quiet() || !(operation.is_logical() && RValueView::decided(left, right, operation)
            is None && left.has_side_effects() && right == RValueView::boolean(
            operation == BinaryOperation::Or,
        )),
    ensures
        same_test(
            RValueView::combined_condition(left, right, operation).0,
            RValueView::Binary(Box::new(left), Box::new(right), operation),
            m,
        ),
{
    let given = RValueView::Binary(Box::new(left), Box::new(right), operation);
    let result = RValueView::combined_condition(left, right, operation).0;
    lemma_decided(left, right, operation, m);
    assert forall|world: World| ({
        let (a, after) = #[trigger] result.evaluated(m, world);
        let (b, last) = given.evaluated(m, world);
        meaning::first(a).is_truthy() == meaning::first(b).is_truthy() && after == last
    }) by {
        if RValueView::decided(left, right, operation) is None {
            let (x, middle) = left.evaluated(m, world);
            if m.is_quiet() {
                lemma_quiet(left, m, world);
            } else if !left.has_side_effects() {
                meaning_laws::unobservable_changes_nothing(left, m, world);
            }
            match right {
                RValueView::Literal(LiteralView::Boolean(b)) if operation.is_logical() => {
                    assert(right.evaluated(m, middle) == (seq![Value::Boolean(b)], middle));
                    if operation == BinaryOperation::And {
                        if b {
                            assert(result == left);
                        } else {
                            assert(right == RValueView::boolean(operation == BinaryOperation::Or));
                        }
                    } else {
                        if b {
                            assert(right == RValueView::boolean(operation == BinaryOperation::Or));
                        } else {
                            assert(result == left);
                        }
                    }
                },
                _ => {
                    assert(result == RValueView::rebuilt(left, right, operation));
                    if operation == BinaryOperation::Concat {
                        lemma_rebuilt(left, right, m, world);
                    }
                },
            }
        }
    }
}

/// Folding the constants of a condition keeps how it is decided and what
/// computing it does, in every world. What it does can be lost only where a
/// constant decides behind an operand that can be observed, or where `or` has
/// such an operand on both sides.
pub proof fn reduction_keeps_conditions(value: RValueView, m: Machine)
    requires
        m.respects_equality(),
        m.is_quiet() || !value.drops(),
    ensures
        same_test(value.reduced_condition(), value, m),
    decreases value.size(),
{
    binary::lemma_operand_sizes(value);
    let reduced = value.reduced_condition();
    match value {
        RValueView::Literal(literal) => {
            assert forall|world: World| ({
                let (a, after) = #[trigger] reduced.evaluated(m, world);
                let (b, last) = value.evaluated(m, world);
                meaning::first(a).is_truthy() == meaning::first(b).is_truthy() && after == last
            }) by {}
        },
        RValueView::Table(_) => {
            assert forall|world: World| ({
                let (a, after) = #[trigger] reduced.evaluated(m, world);
                let (b, last) = value.evaluated(m, world);
                meaning::first(a).is_truthy() == meaning::first(b).is_truthy() && after == last
            }) by {
                if !value.has_side_effects() {
                    meaning_laws::unobservable_changes_nothing(value, m, world);
                }
            }
        },
        RValueView::Binary(left, right, operation) => {
            let (a, b) = if operation.is_logical() {
                (left.reduced_condition(), right.reduced_condition())
            } else {
                (left.reduced(), right.reduced())
            };
            if operation.is_logical() {
                reduction_keeps_conditions(*left, m);
                reduction_keeps_conditions(*right, m);
            } else {
                reduction_keeps_values(*left, m);
                reduction_keeps_values(*right, m);
            }
            let (result, again) = RValueView::combined_condition(a, b, operation);
            let middle = RValueView::Binary(Box::new(a), Box::new(b), operation);
            lemma_same_binary(*left, *right, a, b, operation, m);
            lemma_combined_condition(a, b, operation, m);
            if again && result.size() < value.size() {
                reduction_keeps_values(result, m);
            }
            assert forall|world: World| ({
                let (x, after) = #[trigger] reduced.evaluated(m, world);
                let (y, last) = value.evaluated(m, world);
                meaning::first(x).is_truthy() == meaning::first(y).is_truthy() && after == last
            }) by {
                let (x, after) = middle.evaluated(m, world);
                let (y, last) = result.evaluated(m, world);
                let (z, done) = value.evaluated(m, world);
                assert(meaning::first(x).is_truthy() == meaning::first(z).is_truthy() && after
                    == done);
                assert(meaning::first(x).is_truthy() == meaning::first(y).is_truthy() && after
                    == last);
            }
        },
        _ => {
            reduction_keeps_values(value, m);
            assert forall|world: World| ({
                let (a, after) = #[trigger] reduced.evaluated(m, world);
                let (b, last) = value.evaluated(m, world);
                meaning::first(a).is_truthy() == meaning::first(b).is_truthy() && after == last
            }) by {}
        },
    }
}

} // verus!
