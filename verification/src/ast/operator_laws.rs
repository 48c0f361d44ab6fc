//! That the operators of an expression read back as they are meant, whichever
//! parentheses are left out.

use vstd::prelude::*;

use crate::ast::layout::Layout;
use crate::ast::meaning::{Machine, World};
use crate::ast::meaning_laws;
use crate::ast::nodes::{BinaryOperation, RValueView, UnaryOperation};

verus! {

/// What operators are written between: an expression that is read as one, an
/// operator, a parenthesis, or a word of a conditional.
pub enum Token {
    Atom(RValueView),
    Prefix(UnaryOperation),
    Infix(BinaryOperation),
    Open,
    Close,
    If,
    Then,
    /// Whether another conditional follows.
    Else(bool),
}

impl Token {
    pub open spec fn text(self, layout: Layout) -> Seq<char> {
        match self {
            Token::Atom(value) => layout.value(value),
            Token::Prefix(operation) => operation.text(),
            Token::Infix(operation) => " "@ + operation.text() + " "@,
            Token::Open => "("@,
            Token::Close => ")"@,
            Token::If => "if "@,
            Token::Then => " then "@,
            Token::Else(true) => " else"@,
            Token::Else(false) => " else "@,
        }
    }
}

impl BinaryOperation {
    /// How strongly the grammar binds an operator to what is left of it and to
    /// what is right of it.
    pub open spec fn strength(self) -> (int, int) {
        match self {
            BinaryOperation::Or => (1, 1),
            BinaryOperation::And => (2, 2),
            BinaryOperation::LessThan | BinaryOperation::GreaterThan
            | BinaryOperation::LessThanOrEqual | BinaryOperation::GreaterThanOrEqual
            | BinaryOperation::Equal | BinaryOperation::NotEqual => (3, 3),
            BinaryOperation::Concat => (5, 4),
            BinaryOperation::Add | BinaryOperation::Sub => (6, 6),
            BinaryOperation::Mul | BinaryOperation::Div | BinaryOperation::Mod
            | BinaryOperation::IDiv => (7, 7),
            BinaryOperation::Pow => (10, 9),
        }
    }
}

/// How strongly the grammar binds a unary operator to its operand.
pub open spec fn unary_strength() -> int {
    8
}

/// The expression that starts at a position: an operand, and the operators
/// behind it that bind more strongly than a limit; and where it ends.
pub open spec fn parsed(tokens: Seq<Token>, at: int, limit: int) -> Option<(RValueView, int)>
    decreases tokens.len() - at, 1int,
{
    match operand(tokens, at) {
        Some((value, next)) => if at < next <= tokens.len() {
            climbed(value, tokens, next, limit)
        } else {
            None
        },
        None => None,
    }
}

/// The operand that starts at a position, and where it ends.
pub open spec fn operand(tokens: Seq<Token>, at: int) -> Option<(RValueView, int)>
    decreases tokens.len() - at, 0int,
{
    if 0 <= at < tokens.len() {
        match tokens[at] {
            Token::Atom(value) => Some((value, at + 1)),
            Token::Prefix(operation) => match parsed(tokens, at + 1, unary_strength()) {
                Some((value, next)) => Some((RValueView::Unary(Box::new(value), operation), next)),
                None => None,
            },
            Token::Open => match parsed(tokens, at + 1, 0) {
                Some((value, next)) => if 0 <= next < tokens.len() && tokens[next] is Close {
                    Some((value, next + 1))
                } else {
                    None
                },
                None => None,
            },
            Token::If => match parsed(tokens, at + 1, 0) {
                Some((condition, first)) => if at < first < tokens.len() && tokens[first] is Then {
                    match parsed(tokens, first + 1, 0) {
                        Some((then_value, second)) => if first < second < tokens.len()
                            && tokens[second] is Else {
                            match parsed(tokens, second + 1, 0) {
                                Some((else_value, next)) => Some(
                                    (
                                        RValueView::Conditional(
                                            Box::new(condition),
                                            Box::new(then_value),
                                            Box::new(else_value),
                                        ),
                                        next,
                                    ),
                                ),
                                None => None,
                            }
                        } else {
                            None
                        },
                        None => None,
                    }
                } else {
                    None
                },
                None => None,
            },
            _ => None,
        }
    } else {
        None
    }
}

/// An expression with the operators from a position on that bind more strongly
/// than a limit.
pub open spec fn climbed(left: RValueView, tokens: Seq<Token>, at: int, limit: int) -> Option<
    (RValueView, int),
>
    decreases tokens.len() - at, 0int,
{
    if 0 <= at < tokens.len() {
        match tokens[at] {
            Token::Infix(operation) => if operation.strength().0 > limit {
                match parsed(tokens, at + 1, operation.strength().1) {
                    Some((right, next)) => if at < next <= tokens.len() {
                        climbed(
                            RValueView::Binary(Box::new(left), Box::new(right), operation),
                            tokens,
                            next,
                            limit,
                        )
                    } else {
                        None
                    },
                    None => None,
                }
            } else {
                Some((left, at))
            },
            _ => Some((left, at)),
        }
    } else {
        Some((left, at))
    }
}

/// What an expression is written with.
pub open spec fn tokens_of(value: RValueView) -> Seq<Token>
    decreases value.size(), 0int,
{
    proof {
        reveal(RValueView::size);
    }
    match value {
        RValueView::Unary(operand, operation) => seq![Token::Prefix(operation)] + grouped_tokens(
            *operand,
            RValueView::unary_grouped(*operand, operation),
        ),
        RValueView::Binary(left, right, operation) => grouped_tokens(
            *left,
            RValueView::left_grouped(*left, operation),
        ) + (seq![Token::Infix(operation)] + grouped_tokens(
            *right,
            RValueView::right_grouped(*right, operation),
        )),
        RValueView::Conditional(condition, then_value, else_value) => seq![Token::If] + (tokens_of(
            *condition,
        ) + (seq![Token::Then] + (tokens_of(*then_value) + (seq![
            Token::Else(*else_value is Conditional),
        ] + tokens_of(*else_value))))),
        _ => seq![Token::Atom(value)],
    }
}

/// What an expression is written with, in parentheses where it needs them.
pub open spec fn grouped_tokens(value: RValueView, group: bool) -> Seq<Token>
    decreases value.size(), 1int,
{
    if group {
        seq![Token::Open] + (tokens_of(value) + seq![Token::Close])
    } else {
        tokens_of(value)
    }
}

/// The text of tokens after each other.
pub open spec fn joined(layout: Layout, tokens: Seq<Token>) -> Seq<char>
    decreases tokens.len(),
{
    if tokens.len() == 0 {
        Seq::empty()
    } else {
        joined(layout, tokens.drop_last()) + tokens.last().text(layout)
    }
}

proof fn lemma_joined(layout: Layout, left: Seq<Token>, right: Seq<Token>)
    ensures
        joined(layout, left + right) == joined(layout, left) + joined(layout, right),
    decreases right.len(),
{
    if right.len() == 0 {
        assert(left + right =~= left);
        assert(joined(layout, left) + Seq::<char>::empty() =~= joined(layout, left));
    } else {
        assert((left + right).drop_last() =~= left + right.drop_last());
        lemma_joined(layout, left, right.drop_last());
        let a = joined(layout, left);
        let b = joined(layout, right.drop_last());
        let c = right.last().text(layout);
        assert((a + b) + c =~= a + (b + c));
    }
}

proof fn lemma_joined_one(layout: Layout, token: Token)
    ensures
        joined(layout, seq![token]) == token.text(layout),
{
    let one = seq![token];
    assert(one.drop_last() =~= Seq::<Token>::empty());
    assert(joined(layout, one.drop_last()) == Seq::<char>::empty());
    assert(one.last() == token);
    assert(Seq::<char>::empty() + token.text(layout) =~= token.text(layout));
}

proof fn lemma_put(layout: Layout, token: Token, rest: Seq<Token>)
    ensures
        joined(layout, seq![token] + rest) == token.text(layout) + joined(layout, rest),
{
    lemma_joined(layout, seq![token], rest);
    lemma_joined_one(layout, token);
}

/// The text of an expression is the text of its tokens.
proof fn lemma_text(layout: Layout, value: RValueView)
    ensures
        layout.value(value) == joined(layout, tokens_of(value)),
    decreases value.size(), 0int,
{
    reveal(RValueView::size);
    match value {
        RValueView::Unary(operand, operation) => {
            let group = RValueView::unary_grouped(*operand, operation);
            lemma_grouped_text(layout, *operand, group);
            lemma_put(layout, Token::Prefix(operation), grouped_tokens(*operand, group));
        },
        RValueView::Binary(left, right, operation) => {
            let a = grouped_tokens(*left, RValueView::left_grouped(*left, operation));
            let b = grouped_tokens(*right, RValueView::right_grouped(*right, operation));
            lemma_grouped_text(layout, *left, RValueView::left_grouped(*left, operation));
            lemma_grouped_text(layout, *right, RValueView::right_grouped(*right, operation));
            lemma_put(layout, Token::Infix(operation), b);
            lemma_joined(layout, a, seq![Token::Infix(operation)] + b);
            let x = joined(layout, a);
            let y = joined(layout, b);
            let o = operation.text();
            assert(x + " "@ + o + " "@ + y =~= x + ((" "@ + o + " "@) + y));
        },
        RValueView::Conditional(condition, then_value, else_value) => {
            lemma_text(layout, *condition);
            lemma_text(layout, *then_value);
            lemma_text(layout, *else_value);
            let last = Token::Else(*else_value is Conditional);
            let a = tokens_of(*condition);
            let b = tokens_of(*then_value);
            let c = tokens_of(*else_value);
            let third = seq![last] + c;
            let second = seq![Token::Then] + (b + third);
            lemma_put(layout, last, c);
            lemma_joined(layout, b, third);
            lemma_put(layout, Token::Then, b + third);
            lemma_joined(layout, a, second);
            lemma_put(layout, Token::If, a + second);
            let x = joined(layout, a);
            let y = joined(layout, b);
            let z = joined(layout, c);
            let w = last.text(layout);
            assert("if "@ + x + " then "@ + y + w + z =~= "if "@ + (x + (" then "@ + (y + (w
                + z)))));
        },
        _ => {
            lemma_joined_one(layout, Token::Atom(value));
        },
    }
}

proof fn lemma_grouped_text(layout: Layout, value: RValueView, group: bool)
    ensures
        layout.grouped(value, group) == joined(layout, grouped_tokens(value, group)),
    decreases value.size(), 1int,
{
    lemma_text(layout, value);
    if group {
        let inner = tokens_of(value);
        lemma_joined_one(layout, Token::Close);
        lemma_joined(layout, inner, seq![Token::Close]);
        lemma_put(layout, Token::Open, inner + seq![Token::Close]);
        let x = joined(layout, inner);
        assert("("@ + x + ")"@ =~= "("@ + (x + ")"@));
    }
}

/// How strongly an operator behind an expression may bind to be left outside
/// of it.
pub open spec fn edge(value: RValueView) -> int
    decreases value.size(), 0int,
{
    proof {
        reveal(RValueView::size);
    }
    match value {
        RValueView::Unary(operand, operation) => least(
            unary_strength(),
            grouped_edge(*operand, RValueView::unary_grouped(*operand, operation)),
        ),
        RValueView::Binary(_, right, operation) => least(
            operation.strength().1,
            grouped_edge(*right, RValueView::right_grouped(*right, operation)),
        ),
        RValueView::Conditional(_, _, _) => 0,
        _ => 20,
    }
}

pub open spec fn grouped_edge(value: RValueView, group: bool) -> int
    decreases value.size(), 1int,
{
    if group {
        20
    } else {
        edge(value)
    }
}

pub open spec fn least(left: int, right: int) -> int {
    if left < right {
        left
    } else {
        right
    }
}

/// What an expression that is not grouped leaves outside.
proof fn lemma_edge(value: RValueView)
    ensures
        value is Binary ==> edge(value) <= value->Binary_2.strength().1,
        forall|operation: BinaryOperation|
            operation.binding() < value.precedence() || (operation.binding() == value.precedence()
                && !operation.groups_right()) ==> #[trigger] operation.strength().0 <= edge(value),
    decreases value.size(),
{
    reveal(RValueView::size);
    match value {
        RValueView::Unary(operand, _) => lemma_edge(*operand),
        RValueView::Binary(_, right, operation) => lemma_edge(*right),
        _ => {},
    }
}

/// Whether the operator at a position, if there is one, is left outside of an
/// expression before it.
pub open spec fn is_outside(tokens: Seq<Token>, at: int, edge: int) -> bool {
    0 <= at < tokens.len() ==> (tokens[at] matches Token::Infix(operation)
        ==> operation.strength().0 <= edge)
}

/// Whether tokens stand at a position.
pub open spec fn stands(tokens: Seq<Token>, at: int, part: Seq<Token>) -> bool {
    &&& 0 <= at
    &&& at + part.len() <= tokens.len()
    &&& forall|k: int| 0 <= k < part.len() ==> tokens[at + k] == #[trigger] part[k]
}

proof fn lemma_stands(tokens: Seq<Token>, at: int, left: Seq<Token>, right: Seq<Token>)
    requires
        stands(tokens, at, left + right),
    ensures
        stands(tokens, at, left),
        stands(tokens, at + left.len(), right),
{
    let whole = left + right;
    assert forall|k: int| 0 <= k < left.len() implies tokens[at + k] == #[trigger] left[k] by {
        assert(whole[k] == left[k]);
    }
    assert forall|k: int| 0 <= k < right.len() implies tokens[at + left.len() + k]
        == #[trigger] right[k] by {
        assert(whole[left.len() + k] == right[k]);
        assert(tokens[at + (left.len() + k)] == whole[left.len() + k]);
    }
}

/// Whether no chain of one logical operator leans to the right.
pub open spec fn leans_left(value: RValueView) -> bool
    decreases value.size(),
{
    proof {
        reveal(RValueView::size);
    }
    match value {
        RValueView::Unary(operand, _) => leans_left(*operand),
        RValueView::Binary(left, right, operation) => leans_left(*left) && leans_left(*right) && !(
        operation.is_logical() && (*right matches RValueView::Binary(_, _, other) && other
            == operation)),
        RValueView::Conditional(condition, then_value, else_value) => leans_left(*condition)
            && leans_left(*then_value) && leans_left(*else_value),
        _ => true,
    }
}

/// The left strength of what is written at the front of an expression.
pub open spec fn is_within(value: RValueView, limit: int) -> bool {
    value matches RValueView::Binary(_, _, operation) ==> operation.strength().0 > limit
}

proof fn lemma_not_empty(value: RValueView)
    ensures
        tokens_of(value).len() > 0,
    decreases value.size(),
{
    reveal(RValueView::size);
    if let RValueView::Binary(left, _, _) = value {
        lemma_not_empty(*left);
    }
}

proof fn lemma_parsed_unary(value: RValueView, tokens: Seq<Token>, at: int, limit: int)
    requires
        value is Unary,
        leans_left(value),
        limit >= 0,
        stands(tokens, at, tokens_of(value)),
        is_within(value, limit),
        is_outside(tokens, at + tokens_of(value).len(), edge(value)),
    ensures
        parsed(tokens, at, limit) == climbed(
            value,
            tokens,
            at + tokens_of(value).len(),
            limit,
        ),
    decreases value.size(), 0int,
{
    reveal(RValueView::size);
    let end = at + tokens_of(value).len();
    if let RValueView::Unary(inner, operation) = value {
        let group = RValueView::unary_grouped(*inner, operation);
        let part = grouped_tokens(*inner, group);
        let strength = unary_strength();
        lemma_stands(tokens, at, seq![Token::Prefix(operation)], part);
        assert(tokens[at + 0] == seq![Token::Prefix(operation)][0]);
        lemma_grouped_parsed(*inner, group, tokens, at + 1, strength);
        lemma_grouped_not_empty(*inner, group);
        assert(climbed(*inner, tokens, end, strength) == Some((*inner, end)));
        assert(operand(tokens, at) == Some((value, end)));
    }
}

proof fn lemma_parsed_binary(value: RValueView, tokens: Seq<Token>, at: int, limit: int)
    requires
        value is Binary,
        leans_left(value),
        limit >= 0,
        stands(tokens, at, tokens_of(value)),
        is_within(value, limit),
        is_outside(tokens, at + tokens_of(value).len(), edge(value)),
    ensures
        parsed(tokens, at, limit) == climbed(
            value,
            tokens,
            at + tokens_of(value).len(),
            limit,
        ),
    decreases value.size(), 0int,
{
    reveal(RValueView::size);
    let end = at + tokens_of(value).len();
    if let RValueView::Binary(left, right, operation) = value {
        let left_group = RValueView::left_grouped(*left, operation);
        let right_group = RValueView::right_grouped(*right, operation);
        let a = grouped_tokens(*left, left_group);
        let b = grouped_tokens(*right, right_group);
        let middle = at + a.len();
        let strength = operation.strength().1;
        lemma_stands(tokens, at, a, seq![Token::Infix(operation)] + b);
        lemma_stands(tokens, middle, seq![Token::Infix(operation)], b);
        assert(tokens[middle + 0] == seq![Token::Infix(operation)][0]);
        lemma_edge(*left);
        lemma_edge(*right);
        lemma_grouped_parsed(*left, left_group, tokens, at, limit);
        lemma_grouped_parsed(*right, right_group, tokens, middle + 1, strength);
        assert(end == middle + 1 + b.len());
        assert(climbed(*right, tokens, end, strength) == Some((*right, end)));
        lemma_grouped_not_empty(*right, right_group);
        assert(climbed(*left, tokens, middle, limit) == climbed(value, tokens, end, limit));
    }
}

proof fn lemma_parsed_conditional(value: RValueView, tokens: Seq<Token>, at: int, limit: int)
    requires
        value is Conditional,
        leans_left(value),
        limit >= 0,
        stands(tokens, at, tokens_of(value)),
        is_within(value, limit),
        is_outside(tokens, at + tokens_of(value).len(), edge(value)),
    ensures
        parsed(tokens, at, limit) == climbed(
            value,
            tokens,
            at + tokens_of(value).len(),
            limit,
        ),
    decreases value.size(), 0int,
{
    reveal(RValueView::size);
    let end = at + tokens_of(value).len();
    if let RValueView::Conditional(condition, then_value, else_value) = value {
        let a = tokens_of(*condition);
        let b = tokens_of(*then_value);
        let c = tokens_of(*else_value);
        let last = seq![Token::Else(*else_value is Conditional)];
        lemma_stands(tokens, at, seq![Token::If], a + (seq![Token::Then] + (b + (last + c))));
        assert(tokens[at + 0] == seq![Token::If][0]);
        lemma_stands(tokens, at + 1, a, seq![Token::Then] + (b + (last + c)));
        let first = at + 1 + a.len();
        lemma_stands(tokens, first, seq![Token::Then], b + (last + c));
        assert(tokens[first + 0] == seq![Token::Then][0]);
        lemma_stands(tokens, first + 1, b, last + c);
        let second = first + 1 + b.len();
        lemma_stands(tokens, second, last, c);
        assert(tokens[second + 0] == last[0]);
        lemma_parsed(*condition, tokens, at + 1, 0);
        lemma_parsed(*then_value, tokens, first + 1, 0);
        assert(end == second + 1 + c.len());
        lemma_parsed(*else_value, tokens, second + 1, 0);
        assert(climbed(*condition, tokens, first, 0) == Some((*condition, first)));
        assert(climbed(*then_value, tokens, second, 0) == Some((*then_value, second)));
        assert(climbed(*else_value, tokens, end, 0) == Some((*else_value, end)));
        assert(operand(tokens, at) == Some((value, end)));
    }
}

/// Reading the tokens of an expression gives it as the left operand of what
/// follows.
proof fn lemma_parsed(value: RValueView, tokens: Seq<Token>, at: int, limit: int)
    requires
        leans_left(value),
        limit >= 0,
        stands(tokens, at, tokens_of(value)),
        is_within(value, limit),
        is_outside(tokens, at + tokens_of(value).len(), edge(value)),
    ensures
        parsed(tokens, at, limit) == climbed(
            value,
            tokens,
            at + tokens_of(value).len(),
            limit,
        ),
    decreases value.size(), 1int,
{
    match value {
        RValueView::Unary(_, _) => lemma_parsed_unary(value, tokens, at, limit),
        RValueView::Binary(_, _, _) => lemma_parsed_binary(value, tokens, at, limit),
        RValueView::Conditional(_, _, _) => lemma_parsed_conditional(value, tokens, at, limit),
        _ => {
            assert(tokens[at + 0] == tokens_of(value)[0]);
        },
    }
}

proof fn lemma_grouped_not_empty(value: RValueView, group: bool)
    ensures
        grouped_tokens(value, group).len() > 0,
{
    lemma_not_empty(value);
}

proof fn lemma_grouped_parsed(
    value: RValueView,
    group: bool,
    tokens: Seq<Token>,
    at: int,
    limit: int,
)
    requires
        leans_left(value),
        limit >= 0,
        stands(tokens, at, grouped_tokens(value, group)),
        group || is_within(value, limit),
        is_outside(tokens, at + grouped_tokens(value, group).len(), grouped_edge(value, group)),
    ensures
        parsed(tokens, at, limit) == climbed(
            value,
            tokens,
            at + grouped_tokens(value, group).len(),
            limit,
        ),
    decreases value.size(), 2int,
{
    if group {
        let inner = tokens_of(value);
        lemma_stands(tokens, at, seq![Token::Open], inner + seq![Token::Close]);
        assert(tokens[at + 0] == seq![Token::Open][0]);
        lemma_stands(tokens, at + 1, inner, seq![Token::Close]);
        let close = at + 1 + inner.len();
        assert(tokens[close + 0] == seq![Token::Close][0]);
        lemma_parsed(value, tokens, at + 1, 0);
        assert(climbed(value, tokens, close, 0) == Some((value, close)));
    } else {
        lemma_parsed(value, tokens, at, limit);
    }
}

/// An expression is written with parentheses enough for the grammar to read it
/// back as itself: its text is that of tokens which the strengths of the
/// operators put together to the same tree.
pub proof fn operators_read_back(layout: Layout, value: RValueView)
    requires
        leans_left(value),
    ensures
        layout.value(value) == joined(layout, tokens_of(value)),
        parsed(tokens_of(value), 0, 0) == Some((value, tokens_of(value).len() as int)),
{
    let tokens = tokens_of(value);
    lemma_text(layout, value);
    lemma_parsed(value, tokens, 0, 0);
}

/// A chain of one logical operator that leans to the right is written as the
/// one that leans to the left, and means the same.
pub proof fn logical_chains_are_alike(
    first: RValueView,
    second: RValueView,
    third: RValueView,
    operation: BinaryOperation,
    m: Machine,
)
    requires
        operation.is_logical(),
    ensures
        ({
            let right = RValueView::Binary(
                Box::new(first),
                Box::new(RValueView::Binary(Box::new(second), Box::new(third), operation)),
                operation,
            );
            let left = RValueView::Binary(
                Box::new(RValueView::Binary(Box::new(first), Box::new(second), operation)),
                Box::new(third),
                operation,
            );
            tokens_of(right) == tokens_of(left) && meaning_laws::means_same(right, left, m)
        }),
{
    let inner = RValueView::Binary(Box::new(second), Box::new(third), operation);
    let outer = RValueView::Binary(Box::new(first), Box::new(second), operation);
    let right = RValueView::Binary(Box::new(first), Box::new(inner), operation);
    let left = RValueView::Binary(Box::new(outer), Box::new(third), operation);
    let a = grouped_tokens(first, RValueView::left_grouped(first, operation));
    let b = grouped_tokens(second, RValueView::left_grouped(second, operation));
    let c = grouped_tokens(third, RValueView::right_grouped(third, operation));
    let o = seq![Token::Infix(operation)];
    assert(!RValueView::right_grouped(inner, operation));
    assert(!RValueView::left_grouped(outer, operation));
    assert(RValueView::right_grouped(second, operation) == RValueView::left_grouped(
        second,
        operation,
    ));
    assert(tokens_of(inner) == b + (o + c));
    assert(tokens_of(outer) == a + (o + b));
    assert(grouped_tokens(inner, false) == tokens_of(inner));
    assert(grouped_tokens(outer, false) == tokens_of(outer));
    assert(tokens_of(right) == a + (o + (b + (o + c))));
    assert(tokens_of(left) == (a + (o + b)) + (o + c));
    assert(a + (o + (b + (o + c))) =~= (a + (o + b)) + (o + c));
    assert forall|world: World| #[trigger] right.evaluated(m, world) == left.evaluated(
        m,
        world,
    ) by {
        let (results, middle) = first.evaluated(m, world);
        let (others, after) = second.evaluated(m, middle);
        assert(outer.evaluated(m, world).1 == middle || outer.evaluated(m, world).1 == after);
        assert(inner.evaluated(m, middle) == inner.evaluated(m, middle));
    }
}

/// How many letters an operator has, the first, and the second where there is
/// one.
spec fn letters(operation: BinaryOperation) -> (nat, char, char) {
    match operation {
        BinaryOperation::Add => (1, '+', ' '),
        BinaryOperation::Sub => (1, '-', ' '),
        BinaryOperation::Mul => (1, '*', ' '),
        BinaryOperation::Div => (1, '/', ' '),
        BinaryOperation::Mod => (1, '%', ' '),
        BinaryOperation::Pow => (1, '^', ' '),
        BinaryOperation::Concat => (2, '.', '.'),
        BinaryOperation::Equal => (2, '=', '='),
        BinaryOperation::NotEqual => (2, '~', '='),
        BinaryOperation::LessThanOrEqual => (2, '<', '='),
        BinaryOperation::GreaterThanOrEqual => (2, '>', '='),
        BinaryOperation::LessThan => (1, '<', ' '),
        BinaryOperation::GreaterThan => (1, '>', ' '),
        BinaryOperation::And => (3, 'a', 'n'),
        BinaryOperation::Or => (2, 'o', 'r'),
        BinaryOperation::IDiv => (2, '/', '/'),
    }
}

proof fn lemma_letters(operation: BinaryOperation)
    ensures
        operation.text().len() == letters(operation).0,
        operation.text()[0] == letters(operation).1,
        operation.text().len() > 1 ==> operation.text()[1] == letters(operation).2,
{
    match operation {
        BinaryOperation::Add => reveal_strlit("+"),
        BinaryOperation::Sub => reveal_strlit("-"),
        BinaryOperation::Mul => reveal_strlit("*"),
        BinaryOperation::Div => reveal_strlit("/"),
        BinaryOperation::Mod => reveal_strlit("%"),
        BinaryOperation::Pow => reveal_strlit("^"),
        BinaryOperation::Concat => reveal_strlit(".."),
        BinaryOperation::Equal => reveal_strlit("=="),
        BinaryOperation::NotEqual => reveal_strlit("~="),
        BinaryOperation::LessThanOrEqual => reveal_strlit("<="),
        BinaryOperation::GreaterThanOrEqual => reveal_strlit(">="),
        BinaryOperation::LessThan => reveal_strlit("<"),
        BinaryOperation::GreaterThan => reveal_strlit(">"),
        BinaryOperation::And => reveal_strlit("and"),
        BinaryOperation::Or => reveal_strlit("or"),
        BinaryOperation::IDiv => reveal_strlit("//"),
    }
}

/// No two operators are written alike.
pub proof fn operators_are_told_apart(left: BinaryOperation, right: BinaryOperation)
    requires
        left.text() == right.text(),
    ensures
        left == right,
{
    lemma_letters(left);
    lemma_letters(right);
}

} // verus!
