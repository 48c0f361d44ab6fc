//! Binary operations: grouping, and the folding of constant conditions.

use vstd::prelude::*;

use crate::ast::literal::{Literal, LiteralView};
use crate::ast::nodes::{
    Binary, BinaryOperation, RValue, RValueView, Table, Unary, UnaryOperation,
};
use crate::ast::nodes;

verus! {

broadcast use nodes::group_views;

impl BinaryOperation {
    /// Whether the operation compares.
    pub open spec fn compares(self) -> bool {
        ||| self == BinaryOperation::Equal
        ||| self == BinaryOperation::NotEqual
        ||| self == BinaryOperation::LessThanOrEqual
        ||| self == BinaryOperation::GreaterThanOrEqual
        ||| self == BinaryOperation::LessThan
        ||| self == BinaryOperation::GreaterThan
    }

    pub fn is_comparator(&self) -> (result: bool)
        ensures
            result == self.compares(),
    {
        matches!(
            self,
            BinaryOperation::Equal
                | BinaryOperation::NotEqual
                | BinaryOperation::LessThanOrEqual
                | BinaryOperation::GreaterThanOrEqual
                | BinaryOperation::LessThan
                | BinaryOperation::GreaterThan
        )
    }

    /// How the operation is written.
    pub open spec fn text(self) -> Seq<char> {
        match self {
            BinaryOperation::Add => "+"@,
            BinaryOperation::Sub => "-"@,
            BinaryOperation::Mul => "*"@,
            BinaryOperation::Div => "/"@,
            BinaryOperation::Mod => "%"@,
            BinaryOperation::Pow => "^"@,
            BinaryOperation::Concat => ".."@,
            BinaryOperation::Equal => "=="@,
            BinaryOperation::NotEqual => "~="@,
            BinaryOperation::LessThanOrEqual => "<="@,
            BinaryOperation::GreaterThanOrEqual => ">="@,
            BinaryOperation::LessThan => "<"@,
            BinaryOperation::GreaterThan => ">"@,
            BinaryOperation::And => "and"@,
            BinaryOperation::Or => "or"@,
            BinaryOperation::IDiv => "//"@,
        }
    }

    pub fn as_str(&self) -> (text: &'static str)
        ensures
            text@ == self.text(),
    {
        match self {
            BinaryOperation::Add => "+",
            BinaryOperation::Sub => "-",
            BinaryOperation::Mul => "*",
            BinaryOperation::Div => "/",
            BinaryOperation::Mod => "%",
            BinaryOperation::Pow => "^",
            BinaryOperation::Concat => "..",
            BinaryOperation::Equal => "==",
            BinaryOperation::NotEqual => "~=",
            BinaryOperation::LessThanOrEqual => "<=",
            BinaryOperation::GreaterThanOrEqual => ">=",
            BinaryOperation::LessThan => "<",
            BinaryOperation::GreaterThan => ">",
            BinaryOperation::And => "and",
            BinaryOperation::Or => "or",
            BinaryOperation::IDiv => "//",
        }
    }

    /// How tightly the operation binds.
    pub open spec fn binding(self) -> nat {
        match self {
            BinaryOperation::Pow => 8,
            BinaryOperation::Mul | BinaryOperation::Div | BinaryOperation::Mod
            | BinaryOperation::IDiv => 6,
            BinaryOperation::Add | BinaryOperation::Sub => 5,
            BinaryOperation::Concat => 4,
            BinaryOperation::LessThan | BinaryOperation::GreaterThan
            | BinaryOperation::LessThanOrEqual | BinaryOperation::GreaterThanOrEqual
            | BinaryOperation::Equal | BinaryOperation::NotEqual => 3,
            BinaryOperation::And => 2,
            BinaryOperation::Or => 1,
        }
    }

    /// Whether a chain of the operation groups to the right.
    pub open spec fn groups_right(self) -> bool {
        self == BinaryOperation::Pow || self == BinaryOperation::Concat
    }

    /// Whether the operation short-circuits.
    pub open spec fn is_logical(self) -> bool {
        self == BinaryOperation::And || self == BinaryOperation::Or
    }

    /// The operation that negation exchanges a logical one for.
    pub open spec fn dual(self) -> BinaryOperation {
        if self == BinaryOperation::And {
            BinaryOperation::Or
        } else {
            BinaryOperation::And
        }
    }
}

impl RValueView {
    /// How tightly an expression binds. A conditional expression reaches as
    /// far to the right as it can, so it binds loosest.
    pub open spec fn precedence(self) -> nat {
        match self {
            RValueView::Binary(_, _, operation) => operation.binding(),
            RValueView::Unary(_, _) => 7,
            RValueView::Conditional(_, _, _) => 0,
            _ => 9,
        }
    }

    /// Whether the left operand of `operation` needs parentheses.
    pub open spec fn left_grouped(left: RValueView, operation: BinaryOperation) -> bool {
        operation.binding() > left.precedence() || (operation.binding() == left.precedence()
            && operation.groups_right())
    }

    /// Whether the right operand of `operation` needs parentheses. A chain of
    /// one logical operation means the same however it is grouped, so there
    /// the right operand goes without.
    pub open spec fn right_grouped(right: RValueView, operation: BinaryOperation) -> bool {
        operation.binding() > right.precedence() || (operation.binding() == right.precedence()
            && !operation.groups_right() && !operation.is_logical())
    }
}

impl RValue {
    /// How tightly this expression binds.
    pub fn precedence(&self) -> (precedence: usize)
        ensures
            precedence == self@.precedence(),
    {
        proof {
            nodes::rvalue_node(*self);
        }
        match self {
            RValue::Binary(binary) => binary.precedence(),
            RValue::Unary(_) => 7,
            RValue::Conditional(_) => 0,
            _ => 9,
        }
    }
}

impl Binary {
    pub open spec fn view(&self) -> RValueView {
        RValueView::Binary(Box::new(self.left@), Box::new(self.right@), self.operation)
    }

    pub fn new(left: RValue, right: RValue, operation: BinaryOperation) -> (binary: Self)
        ensures
            binary@ == RValueView::Binary(Box::new(left@), Box::new(right@), operation),
    {
        Binary { left: Box::new(left), right: Box::new(right), operation }
    }

    pub fn precedence(&self) -> (precedence: usize)
        ensures
            precedence == self.operation.binding(),
            precedence == self@.precedence(),
    {
        match self.operation {
            BinaryOperation::Pow => 8,
            BinaryOperation::Mul | BinaryOperation::Div | BinaryOperation::Mod
            | BinaryOperation::IDiv => 6,
            BinaryOperation::Add | BinaryOperation::Sub => 5,
            BinaryOperation::Concat => 4,
            BinaryOperation::LessThan | BinaryOperation::GreaterThan
            | BinaryOperation::LessThanOrEqual | BinaryOperation::GreaterThanOrEqual
            | BinaryOperation::Equal | BinaryOperation::NotEqual => 3,
            BinaryOperation::And => 2,
            BinaryOperation::Or => 1,
        }
    }

    pub fn right_associative(&self) -> (result: bool)
        ensures
            result == self.operation.groups_right(),
    {
        matches!(self.operation, BinaryOperation::Pow | BinaryOperation::Concat)
    }

    /// Whether re-parsing this node's right child as part of a left-leaning
    /// chain would still produce the same program.
    ///
    /// Only `and` and `or` qualify. Both are fully associative: `a or (b or
    /// c)` and `(a or b) or c` pick the same operand, evaluate the same
    /// operands in the same order, and short-circuit at the same point. No
    /// arithmetic operator qualifies: numbers are IEEE-754 doubles, where
    /// addition and multiplication are not associative.
    fn right_child_reassociates(&self) -> (result: bool)
        ensures
            result == self.operation.is_logical(),
    {
        matches!(self.operation, BinaryOperation::And | BinaryOperation::Or)
    }

    /// Whether the left operand needs parentheses.
    pub fn left_group(&self) -> (result: bool)
        ensures
            result == RValueView::left_grouped(self.left@, self.operation),
    {
        self.precedence() > self.left.precedence() || (self.precedence() == self.left.precedence()
            && self.right_associative())
    }

    /// Whether the right operand needs parentheses.
    pub fn right_group(&self) -> (result: bool)
        ensures
            result == RValueView::right_grouped(self.right@, self.operation),
    {
        if self.precedence() > self.right.precedence() {
            return true;
        }
        self.precedence() == self.right.precedence() && !self.right_associative()
            && !self.right_child_reassociates()
    }
}

impl RValueView {
    pub open spec fn boolean(value: bool) -> RValueView {
        RValueView::Literal(LiteralView::Boolean(value))
    }

    /// Whether an expression is a negation.
    pub open spec fn is_negation(self) -> bool {
        self matches RValueView::Unary(_, operation) && operation == UnaryOperation::Not
    }

    /// The operand of a unary operation.
    pub open spec fn operand(self) -> RValueView {
        match self {
            RValueView::Unary(value, _) => *value,
            _ => self,
        }
    }

    /// Two negations joined by a logical operation, as one negation of the
    /// dual operation.
    pub open spec fn joined_negations(
        left: RValueView,
        right: RValueView,
        operation: BinaryOperation,
    ) -> RValueView {
        RValueView::Unary(
            Box::new(
                RValueView::Binary(
                    Box::new(left.operand()),
                    Box::new(right.operand()),
                    operation.dual(),
                ),
            ),
            UnaryOperation::Not,
        )
    }

    /// What a logical operation on two reduced operands becomes in any
    /// position, where its constants decide it; with it, whether the result is
    /// to be reduced again.
    pub open spec fn decided(
        left: RValueView,
        right: RValueView,
        operation: BinaryOperation,
    ) -> Option<(RValueView, bool)> {
        if !operation.is_logical() {
            None
        } else if left.is_negation() && right.is_negation() {
            Some((Self::joined_negations(left, right, operation), false))
        } else {
            match (left, right) {
                (
                    RValueView::Literal(LiteralView::Boolean(a)),
                    RValueView::Literal(LiteralView::Boolean(b)),
                ) => Some(
                    (
                        Self::boolean(
                            if operation == BinaryOperation::And {
                                a && b
                            } else {
                                a || b
                            },
                        ),
                        false,
                    ),
                ),
                (RValueView::Literal(LiteralView::Boolean(a)), _) => if operation
                    == BinaryOperation::And {
                    if a {
                        Some((right, true))
                    } else {
                        Some((Self::boolean(false), false))
                    }
                } else {
                    if a {
                        Some((Self::boolean(true), false))
                    } else {
                        Some((right, true))
                    }
                },
                _ => None,
            }
        }
    }

    /// What a concatenation of two string constants becomes, or else the
    /// operation as it stands.
    pub open spec fn rebuilt(
        left: RValueView,
        right: RValueView,
        operation: BinaryOperation,
    ) -> RValueView {
        match (left, right, operation) {
            (
                RValueView::Literal(LiteralView::String(a)),
                RValueView::Literal(LiteralView::String(b)),
                BinaryOperation::Concat,
            ) => RValueView::Literal(LiteralView::String(a + b)),
            _ => RValueView::Binary(Box::new(left), Box::new(right), operation),
        }
    }

    /// Whether an expression is a negation joined to `true` by `and`.
    pub open spec fn is_guarded_negation(self) -> bool {
        self matches RValueView::Binary(left, right, operation) && operation
            == BinaryOperation::And && left.is_negation() && *right == Self::boolean(true)
    }

    /// What an operation on two reduced operands becomes in a value position.
    pub open spec fn combined(
        left: RValueView,
        right: RValueView,
        operation: BinaryOperation,
    ) -> (RValueView, bool) {
        match Self::decided(left, right, operation) {
            Some(result) => result,
            None => if operation == BinaryOperation::And && !left.has_side_effects()
                && !right.has_side_effects() && left.equals(right) {
                (left, false)
            } else if operation == BinaryOperation::Or && left.is_guarded_negation() && right
                == Self::boolean(false) {
                (left.children()[0], false)
            } else if operation == BinaryOperation::Or && left.equals(right) {
                (left, false)
            } else {
                (Self::rebuilt(left, right, operation), false)
            },
        }
    }

    /// What an operation on two reduced operands becomes as a condition.
    pub open spec fn combined_condition(
        left: RValueView,
        right: RValueView,
        operation: BinaryOperation,
    ) -> (RValueView, bool) {
        match Self::decided(left, right, operation) {
            Some(result) => result,
            None => match right {
                RValueView::Literal(LiteralView::Boolean(b)) if operation.is_logical() =>
                    if operation == BinaryOperation::And {
                    if b {
                        (left, true)
                    } else {
                        (Self::boolean(false), false)
                    }
                } else {
                    if b {
                        (Self::boolean(true), false)
                    } else {
                        (left, true)
                    }
                },
                _ => (Self::rebuilt(left, right, operation), false),
            },
        }
    }

    /// The expression with its constant parts folded away, as a value.
    pub open spec fn reduced(self) -> RValueView
        decreases self.size(),
    {
        proof {
            lemma_operand_sizes(self);
        }
        match self {
            RValueView::Unary(value, operation) => RValueView::Unary(
                Box::new(value.reduced()),
                operation,
            ),
            RValueView::Binary(left, right, operation) => {
                let (result, again) = Self::combined(left.reduced(), right.reduced(), operation);
                if again && result.size() < self.size() {
                    result.reduced()
                } else {
                    result
                }
            },
            _ => self,
        }
    }

    /// The expression with its constant parts folded away, as a condition: any
    /// value that is neither `nil` nor `false` stands for `true`.
    pub open spec fn reduced_condition(self) -> RValueView
        decreases self.size(),
    {
        proof {
            lemma_operand_sizes(self);
        }
        match self {
            RValueView::Literal(literal) => Self::boolean(literal.is_truthy()),
            RValueView::Table(_) => if self.has_side_effects() {
                self
            } else {
                Self::boolean(true)
            },
            RValueView::Binary(left, right, operation) => {
                let (result, again) = if operation.is_logical() {
                    Self::combined_condition(
                        left.reduced_condition(),
                        right.reduced_condition(),
                        operation,
                    )
                } else {
                    Self::combined_condition(left.reduced(), right.reduced(), operation)
                };
                if again && result.size() < self.size() {
                    result.reduced()
                } else {
                    result
                }
            },
            _ => self.reduced(),
        }
    }
}

pub proof fn lemma_operand_sizes(value: RValueView)
    ensures
        value matches RValueView::Unary(operand, _) ==> value.size() == 1 + operand.size(),
        value matches RValueView::Binary(left, right, _) ==> value.size() == 1 + left.size()
            + right.size(),
        value.size() >= 1,
        value is Literal ==> value.size() == 1,
{
    reveal(RValueView::size);
}

proof fn lemma_combined_size(left: RValueView, right: RValueView, operation: BinaryOperation)
    ensures
        RValueView::combined(left, right, operation).0.size() <= 1 + left.size() + right.size(),
        RValueView::combined(left, right, operation).1 ==> RValueView::combined(
            left,
            right,
            operation,
        ).0.size() < 1 + left.size() + right.size(),
        RValueView::combined_condition(left, right, operation).0.size() <= 1 + left.size()
            + right.size(),
        RValueView::combined_condition(left, right, operation).1
            ==> RValueView::combined_condition(left, right, operation).0.size() < 1 + left.size()
            + right.size(),
{
    lemma_operand_sizes(left);
    lemma_operand_sizes(right);
    lemma_operand_sizes(RValueView::boolean(true));
    lemma_operand_sizes(RValueView::boolean(false));
    lemma_operand_sizes(RValueView::rebuilt(left, right, operation));
    let negations = RValueView::joined_negations(left, right, operation);
    lemma_operand_sizes(negations);
    lemma_operand_sizes(negations.operand());
    if left.is_guarded_negation() {
        lemma_operand_sizes(left.children()[0]);
    }
}

/// Folding constants never makes an expression larger.
pub proof fn reduction_does_not_grow(value: RValueView)
    ensures
        value.reduced().size() <= value.size(),
        value.reduced_condition().size() <= value.size(),
    decreases value.size(),
{
    lemma_operand_sizes(value);
    lemma_operand_sizes(RValueView::boolean(true));
    match value {
        RValueView::Unary(operand, operation) => {
            reduction_does_not_grow(*operand);
            lemma_operand_sizes(value.reduced());
        },
        RValueView::Binary(left, right, operation) => {
            reduction_does_not_grow(*left);
            reduction_does_not_grow(*right);
            lemma_combined_size(left.reduced(), right.reduced(), operation);
            let combined = RValueView::combined(left.reduced(), right.reduced(), operation);
            if combined.1 {
                reduction_does_not_grow(combined.0);
            }
            let (a, b) = if operation.is_logical() {
                (left.reduced_condition(), right.reduced_condition())
            } else {
                (left.reduced(), right.reduced())
            };
            lemma_combined_size(a, b, operation);
            let condition = RValueView::combined_condition(a, b, operation);
            if condition.1 {
                reduction_does_not_grow(condition.0);
            }
        },
        RValueView::Literal(literal) => {
            lemma_operand_sizes(RValueView::boolean(literal.is_truthy()));
        },
        _ => {},
    }
}

fn boolean(value: bool) -> (result: RValue)
    ensures
        result@ == RValueView::boolean(value),
{
    let result = RValue::Literal(Literal::Boolean(value));
    proof {
        nodes::rvalue_node(result);
    }
    result
}

fn is_negation(value: &RValue) -> (result: bool)
    ensures
        result == value@.is_negation(),
{
    proof {
        nodes::rvalue_node(*value);
    }
    match value {
        RValue::Unary(unary) => unary.operation == UnaryOperation::Not,
        _ => false,
    }
}

fn as_boolean(value: &RValue) -> (result: Option<bool>)
    ensures
        match result {
            Some(boolean) => value@ == RValueView::boolean(boolean),
            None => !(value@ matches RValueView::Literal(literal) && literal is Boolean),
        },
{
    proof {
        nodes::rvalue_node(*value);
    }
    match value {
        RValue::Literal(Literal::Boolean(boolean)) => Some(*boolean),
        _ => None,
    }
}

fn into_operand(value: RValue) -> (operand: RValue)
    requires
        value@.is_negation(),
    ensures
        operand@ == value@.operand(),
{
    proof {
        nodes::rvalue_node(value);
    }
    match value {
        RValue::Unary(unary) => *unary.value,
        other => other,
    }
}

fn decide(left: RValue, right: RValue, operation: BinaryOperation) -> (result: Result<
    (RValue, bool),
    (RValue, RValue),
>)
    ensures
        match result {
            Ok((value, again)) => RValueView::decided(left@, right@, operation) == Some(
                (value@, again),
            ),
            Err((a, b)) => RValueView::decided(left@, right@, operation) is None && a == left
                && b == right,
        },
{
    if operation != BinaryOperation::And && operation != BinaryOperation::Or {
        return Err((left, right));
    }
    let dual = if operation == BinaryOperation::And {
        BinaryOperation::Or
    } else {
        BinaryOperation::And
    };
    if is_negation(&left) && is_negation(&right) {
        let inner = RValue::Binary(
            Binary {
                left: Box::new(into_operand(left)),
                right: Box::new(into_operand(right)),
                operation: dual,
            },
        );
        let outer = RValue::Unary(Unary { value: Box::new(inner), operation: UnaryOperation::Not });
        proof {
            nodes::rvalue_node(inner);
            nodes::rvalue_node(outer);
        }
        return Ok((outer, false));
    }
    match (as_boolean(&left), as_boolean(&right)) {
        (Some(a), Some(b)) => {
            let value = if operation == BinaryOperation::And {
                a && b
            } else {
                a || b
            };
            Ok((boolean(value), false))
        },
        (Some(a), None) => if operation == BinaryOperation::And {
            if a {
                Ok((right, true))
            } else {
                Ok((boolean(false), false))
            }
        } else {
            if a {
                Ok((boolean(true), false))
            } else {
                Ok((right, true))
            }
        },
        _ => Err((left, right)),
    }
}

fn rebuild(left: RValue, right: RValue, operation: BinaryOperation) -> (value: RValue)
    ensures
        value@ == RValueView::rebuilt(left@, right@, operation),
{
    proof {
        nodes::rvalue_node(left);
        nodes::rvalue_node(right);
    }
    let value = match (left, right) {
        (
            RValue::Literal(Literal::String(first)),
            RValue::Literal(Literal::String(second)),
        ) if operation == BinaryOperation::Concat => {
            let mut bytes = first;
            let mut rest = second;
            bytes.append(&mut rest);
            RValue::Literal(Literal::String(bytes))
        },
        (left, right) => RValue::Binary(
            Binary { left: Box::new(left), right: Box::new(right), operation },
        ),
    };
    proof {
        nodes::rvalue_node(value);
    }
    value
}

fn is_guarded_negation(value: &RValue) -> (result: bool)
    ensures
        result == value@.is_guarded_negation(),
{
    proof {
        nodes::rvalue_node(*value);
    }
    match value {
        RValue::Binary(binary) => {
            if binary.operation != BinaryOperation::And || !is_negation(&binary.left) {
                return false;
            }
            match as_boolean(&binary.right) {
                Some(boolean) => boolean,
                None => false,
            }
        },
        _ => false,
    }
}

fn combine(left: RValue, right: RValue, operation: BinaryOperation) -> (result: (RValue, bool))
    ensures
        (result.0@, result.1) == RValueView::combined(left@, right@, operation),
{
    let (left, right) = match decide(left, right, operation) {
        Ok(result) => {
            return result;
        },
        Err(operands) => operands,
    };
    if operation == BinaryOperation::And && !left.has_side_effects() && !right.has_side_effects()
        && left.equals(&right) {
        return (left, false);
    }
    if operation == BinaryOperation::Or {
        let against_false = match as_boolean(&right) {
            Some(boolean) => !boolean,
            None => false,
        };
        if against_false && is_guarded_negation(&left) {
            proof {
                nodes::rvalue_node(left);
            }
            match left {
                RValue::Binary(binary) => {
                    return (*binary.left, false);
                },
                other => {
                    return (other, false);
                },
            }
        }
        if left.equals(&right) {
            return (left, false);
        }
    }
    (rebuild(left, right, operation), false)
}

fn combine_condition(left: RValue, right: RValue, operation: BinaryOperation) -> (result: (
    RValue,
    bool,
))
    ensures
        (result.0@, result.1) == RValueView::combined_condition(left@, right@, operation),
{
    let (left, right) = match decide(left, right, operation) {
        Ok(result) => {
            return result;
        },
        Err(operands) => operands,
    };
    if operation == BinaryOperation::And || operation == BinaryOperation::Or {
        match as_boolean(&right) {
            Some(b) => {
                if operation == BinaryOperation::And {
                    if b {
                        return (left, true);
                    }
                    return (boolean(false), false);
                }
                if b {
                    return (boolean(true), false);
                }
                return (left, true);
            },
            None => {},
        }
    }
    (rebuild(left, right, operation), false)
}

impl RValue {
    /// Folds the constant parts of this expression away, as a value.
    pub fn reduce(self) -> (value: RValue)
        ensures
            value@ == self@.reduced(),
        decreases self@.size(),
    {
        let ghost whole = self@;
        proof {
            nodes::rvalue_node(self);
            lemma_operand_sizes(whole);
        }
        match self {
            RValue::Unary(unary) => {
                let value = RValue::Unary(
                    Unary {
                        value: Box::new((*unary.value).reduce()),
                        operation: unary.operation,
                    },
                );
                proof {
                    nodes::rvalue_node(value);
                }
                value
            },
            RValue::Binary(binary) => {
                let ghost left_view = binary.left@;
                let ghost right_view = binary.right@;
                let left = (*binary.left).reduce();
                let right = (*binary.right).reduce();
                proof {
                    reduction_does_not_grow(left_view);
                    reduction_does_not_grow(right_view);
                    lemma_combined_size(left@, right@, binary.operation);
                }
                let (result, again) = combine(left, right, binary.operation);
                if again {
                    result.reduce()
                } else {
                    result
                }
            },
            other => other,
        }
    }

    /// Folds the constant parts of this expression away, as a condition.
    pub fn reduce_condition(self) -> (value: RValue)
        ensures
            value@ == self@.reduced_condition(),
        decreases self@.size(),
    {
        let ghost whole = self@;
        proof {
            nodes::rvalue_node(self);
            lemma_operand_sizes(whole);
        }
        match self {
            RValue::Literal(literal) => boolean(literal.is_truthy()),
            RValue::Table(table) => {
                let value = RValue::Table(table);
                if value.has_side_effects() {
                    value
                } else {
                    boolean(true)
                }
            },
            RValue::Binary(binary) => {
                let ghost left_view = binary.left@;
                let ghost right_view = binary.right@;
                let logical = binary.operation == BinaryOperation::And || binary.operation
                    == BinaryOperation::Or;
                let (left, right) = if logical {
                    ((*binary.left).reduce_condition(), (*binary.right).reduce_condition())
                } else {
                    ((*binary.left).reduce(), (*binary.right).reduce())
                };
                proof {
                    reduction_does_not_grow(left_view);
                    reduction_does_not_grow(right_view);
                    lemma_combined_size(left@, right@, binary.operation);
                }
                let (result, again) = combine_condition(left, right, binary.operation);
                if again {
                    result.reduce()
                } else {
                    result
                }
            },
            other => other.reduce(),
        }
    }
}

} // verus!
