//! Literal constants.

use vstd::prelude::*;

use crate::ast::spelling;
use crate::ast::spelling::{
    find_spelled, push_positional, push_scientific, DOUBLE_EXACT, LONGEST_PLAIN, SINGLE_EXACT,
};
use crate::text::{
    copy_bytes, push_decimal, push_escaped, push_signed_decimal, same_bytes, same_text, text_bytes,
};

verus! {

/// A floating-point number of the source program. A whole number stands for the
/// nearest that the floating-point number can be. Another one is held by the
/// text that denotes it, the shortest one that reads back as the same number,
/// with an exponent where it is very small or very large.
#[derive(Debug)]
pub enum Number {
    /// A whole number; zero here is positive zero.
    Integer(i128),
    NegativeZero,
    /// Any other finite number.
    Decimal(String),
    Infinity,
    NegativeInfinity,
    NotANumber,
}

/// The model of a `Number`.
pub enum NumberView {
    Integer(int),
    NegativeZero,
    Decimal(Seq<char>),
    Infinity,
    NegativeInfinity,
    NotANumber,
}

impl NumberView {
    /// How a number is told from others: by how it is spelled without an
    /// exponent, and the two zeros alike.
    pub open spec fn identity(self, exact: nat) -> Seq<char> {
        if self is NegativeZero {
            "0"@
        } else {
            self.plain_text(exact)
        }
    }

    /// Equality of numbers that count whole numbers exactly up to a limit: the
    /// two zeros are equal, and a value that is not a number differs even from
    /// itself.
    pub open spec fn equals_within(self, other: NumberView, exact: nat) -> bool {
        self !is NotANumber && other !is NotANumber && self.identity(exact) == other.identity(exact)
    }

    /// Equality of double-precision numbers.
    pub open spec fn equals(self, other: NumberView) -> bool {
        self.equals_within(other, DOUBLE_EXACT as nat)
    }

    /// Whether the number is finite.
    pub open spec fn is_finite(self) -> bool {
        self is Integer || self is NegativeZero || self is Decimal
    }

    /// How a finite number is written; the others are written by the words
    /// that a vector component has for them.
    pub open spec fn text(self) -> Seq<char> {
        match self {
            NumberView::Integer(value) => {
                let shortest = spelling::spelled(magnitude(value), DOUBLE_EXACT as nat);
                signed(
                    value,
                    if shortest < LONGEST_PLAIN {
                        crate::text::decimal(shortest)
                    } else {
                        spelling::scientific(shortest)
                    },
                )
            },
            NumberView::NegativeZero => "-0"@,
            NumberView::Decimal(text) => text,
            NumberView::Infinity => "inf"@,
            NumberView::NegativeInfinity => "-inf"@,
            NumberView::NotANumber => "NaN"@,
        }
    }

    /// How a number that counts whole numbers exactly up to a limit is written
    /// without an exponent.
    pub open spec fn plain_text(self, exact: nat) -> Seq<char> {
        match self {
            NumberView::Integer(value) => signed(
                value,
                crate::text::decimal(spelling::spelled(magnitude(value), exact)),
            ),
            _ => spelling::positional(self.text()),
        }
    }
}

/// A number without its sign.
pub open spec fn magnitude(value: int) -> nat {
    if value < 0 {
        (-value) as nat
    } else {
        value as nat
    }
}

/// The text of a number's magnitude with the number's sign.
pub open spec fn signed(value: int, text: Seq<char>) -> Seq<char> {
    if value < 0 {
        seq!['-'] + text
    } else {
        text
    }
}

fn find_magnitude(value: i128) -> (result: u128)
    ensures
        result == magnitude(value as int),
        result <= spelling::LARGEST,
{
    if value < 0 {
        (-(value + 1)) as u128 + 1
    } else {
        value as u128
    }
}

impl Number {
    pub open spec fn view(&self) -> NumberView {
        match self {
            Number::Integer(value) => NumberView::Integer(*value as int),
            Number::NegativeZero => NumberView::NegativeZero,
            Number::Decimal(text) => NumberView::Decimal(text@),
            Number::Infinity => NumberView::Infinity,
            Number::NegativeInfinity => NumberView::NegativeInfinity,
            Number::NotANumber => NumberView::NotANumber,
        }
    }

    pub fn is_finite(&self) -> (result: bool)
        ensures
            result == self@.is_finite(),
    {
        match self {
            Number::Integer(_) | Number::NegativeZero | Number::Decimal(_) => true,
            Number::Infinity | Number::NegativeInfinity | Number::NotANumber => false,
        }
    }

    /// Appends the text of this number.
    pub fn push_to(&self, out: &mut String)
        ensures
            final(out)@ == old(out)@ + self@.text(),
    {
        match self {
            Number::Integer(value) => {
                let shortest = find_spelled(find_magnitude(*value), DOUBLE_EXACT);
                if *value < 0 {
                    out.push('-');
                }
                if shortest < LONGEST_PLAIN {
                    push_decimal(out, shortest);
                } else {
                    push_scientific(out, shortest);
                }
                proof {
                    assert(out@ =~= old(out)@ + self@.text());
                }
            },
            Number::NegativeZero => out.append("-0"),
            Number::Decimal(text) => out.append(text.as_str()),
            Number::Infinity => out.append("inf"),
            Number::NegativeInfinity => out.append("-inf"),
            Number::NotANumber => out.append("NaN"),
        }
    }

    /// Appends the text of this number without an exponent.
    fn push_plain_to(&self, exact: u128, out: &mut String)
        requires
            exact >= 16,
        ensures
            final(out)@ == old(out)@ + self@.plain_text(exact as nat),
    {
        match self {
            Number::Integer(value) => {
                let shortest = find_spelled(find_magnitude(*value), exact);
                if *value < 0 {
                    out.push('-');
                }
                push_decimal(out, shortest);
                proof {
                    assert(out@ =~= old(out)@ + self@.plain_text(exact as nat));
                }
            },
            _ => {
                let mut text = String::new();
                self.push_to(&mut text);
                proof {
                    assert(text@ =~= self@.text());
                }
                push_positional(out, text.as_str());
            },
        }
    }

    /// How this number is told from others.
    fn find_identity(&self, exact: u128) -> (text: String)
        requires
            exact >= 16,
        ensures
            text@ == self@.identity(exact as nat),
    {
        let mut text = String::new();
        match self {
            Number::NegativeZero => text.append("0"),
            _ => self.push_plain_to(exact, &mut text),
        }
        proof {
            assert(text@ =~= self@.identity(exact as nat));
        }
        text
    }

    /// Whether two numbers that count whole numbers exactly up to a limit are
    /// equal.
    fn equals_within(&self, other: &Number, exact: u128) -> (result: bool)
        requires
            exact >= 16,
        ensures
            result == self@.equals_within(other@, exact as nat),
    {
        match (self, other) {
            (Number::NotANumber, _) => false,
            (_, Number::NotANumber) => false,
            _ => same_text(&self.find_identity(exact), other.find_identity(exact).as_str()),
        }
    }
}

impl Clone for Number {
    fn clone(&self) -> (copy: Self)
        ensures
            copy@ == self@,
    {
        match self {
            Number::Integer(value) => Number::Integer(*value),
            Number::NegativeZero => Number::NegativeZero,
            Number::Decimal(text) => Number::Decimal(text.clone()),
            Number::Infinity => Number::Infinity,
            Number::NegativeInfinity => Number::NegativeInfinity,
            Number::NotANumber => Number::NotANumber,
        }
    }
}

impl PartialEq for Number {
    fn eq(&self, other: &Self) -> (result: bool) {
        self.equals_within(other, DOUBLE_EXACT)
    }
}

impl vstd::std_specs::cmp::PartialEqSpecImpl for Number {
    open spec fn obeys_eq_spec() -> bool {
        true
    }

    open spec fn eq_spec(&self, other: &Self) -> bool {
        self@.equals(other@)
    }
}

/// What a double-precision number holds for a whole number.
pub open spec fn held(value: int) -> int {
    let size = spelling::rounded(magnitude(value), DOUBLE_EXACT as nat);
    if value < 0 {
        -(size as int)
    } else {
        size as int
    }
}

/// Whole numbers are equal where the same number is held for them.
pub proof fn numbers_are_equal_as_held(left: int, right: int)
    ensures
        NumberView::Integer(left).equals(NumberView::Integer(right)) <==> held(left) == held(right),
{
    let exact = DOUBLE_EXACT as nat;
    let first = spelling::spelled(magnitude(left), exact);
    let second = spelling::spelled(magnitude(right), exact);
    spelling::spellings_agree(magnitude(left), magnitude(right), exact);
    spelling::lemma_digits(first);
    spelling::lemma_digits(second);
    crate::text::lemma_decimal_length(first);
    crate::text::lemma_decimal_length(second);
    spelling::lemma_rounded_near(magnitude(left), exact);
    spelling::lemma_rounded_near(magnitude(right), exact);
    let one = crate::text::decimal(first);
    let other = crate::text::decimal(second);
    if left < 0 && right < 0 {
        assert((seq!['-'] + one).skip(1) =~= one);
        assert((seq!['-'] + other).skip(1) =~= other);
    }
    if left < 0 {
        assert((seq!['-'] + one)[0] == '-');
    }
    if right < 0 {
        assert((seq!['-'] + other)[0] == '-');
    }
    if one == other {
        crate::text::lemma_decimal_injective(first, second);
    }
}

/// A whole number equals the number that is held by its text.
pub proof fn numbers_equal_their_text(value: i128)
    ensures
        NumberView::Integer(value as int).equals(
            NumberView::Decimal(NumberView::Integer(value as int).text()),
        ),
{
    let shortest = spelling::spelled(magnitude(value as int), DOUBLE_EXACT as nat);
    spelling::lemma_spelled_near(magnitude(value as int), DOUBLE_EXACT as nat);
    if shortest < LONGEST_PLAIN {
        spelling::numerals_stay(shortest);
    } else {
        spelling::exponents_move_the_point(shortest);
    }
}

/// A literal constant. The components of a `Vector` are single-precision
/// numbers, other numbers double-precision ones.
#[derive(Debug)]
pub enum Literal {
    Nil,
    Boolean(bool),
    Number(Number),
    Integer(i64),
    String(Vec<u8>),
    Vector(Number, Number, Number),
    VectorD(Number, Number, Number),
}

/// The model of a `Literal`.
#[verifier::ext_equal]
pub enum LiteralView {
    Nil,
    Boolean(bool),
    Number(NumberView),
    Integer(int),
    String(Seq<u8>),
    Vector(NumberView, NumberView, NumberView),
    VectorD(NumberView, NumberView, NumberView),
}

impl LiteralView {
    /// Equality of literals, by the kind and the contents.
    pub open spec fn equals(self, other: LiteralView) -> bool {
        match (self, other) {
            (LiteralView::Number(left), LiteralView::Number(right)) => left.equals(right),
            (LiteralView::Vector(x, y, z), LiteralView::Vector(a, b, c)) => {
                let exact = SINGLE_EXACT as nat;
                x.equals_within(a, exact) && y.equals_within(b, exact) && z.equals_within(c, exact)
            },
            (LiteralView::VectorD(x, y, z), LiteralView::VectorD(a, b, c)) => x.equals(a)
                && y.equals(b) && z.equals(c),
            _ => self == other,
        }
    }

    /// Whether a condition that is this literal holds: all but `nil` and
    /// `false` do.
    pub open spec fn is_truthy(self) -> bool {
        self != LiteralView::Nil && self != LiteralView::Boolean(false)
    }

    /// How the literal is written.
    pub open spec fn text(self) -> Seq<char> {
        match self {
            LiteralView::Nil => "nil"@,
            LiteralView::Boolean(true) => "true"@,
            LiteralView::Boolean(false) => "false"@,
            LiteralView::Number(value) => value.text(),
            LiteralView::Integer(value) => if value == i64::MIN {
                "(-9223372036854775807i - 1i)"@
            } else {
                crate::text::signed_decimal(value).push('i')
            },
            LiteralView::String(bytes) => seq!['"'] + crate::text::escaped(bytes) + seq!['"'],
            LiteralView::Vector(x, y, z) => Self::vector_text(x, y, z, SINGLE_EXACT as nat),
            LiteralView::VectorD(x, y, z) => Self::vector_text(x, y, z, DOUBLE_EXACT as nat),
        }
    }

    /// How a vector is written whose components count whole numbers exactly up
    /// to a limit.
    pub open spec fn vector_text(
        x: NumberView,
        y: NumberView,
        z: NumberView,
        exact: nat,
    ) -> Seq<char> {
        "Vector3.new("@ + x.plain_text(exact) + ", "@ + y.plain_text(exact) + ", "@ + z.plain_text(
            exact,
        ) + ")"@
    }
}

fn push_vector(x: &Number, y: &Number, z: &Number, exact: u128, out: &mut String)
    requires
        exact >= 16,
    ensures
        final(out)@ == old(out)@ + LiteralView::vector_text(x@, y@, z@, exact as nat),
{
    out.append("Vector3.new(");
    x.push_plain_to(exact, out);
    out.append(", ");
    y.push_plain_to(exact, out);
    out.append(", ");
    z.push_plain_to(exact, out);
    out.append(")");
    proof {
        assert(out@ =~= old(out)@ + LiteralView::vector_text(x@, y@, z@, exact as nat));
    }
}

impl Literal {
    pub open spec fn view(&self) -> LiteralView {
        match self {
            Literal::Nil => LiteralView::Nil,
            Literal::Boolean(value) => LiteralView::Boolean(*value),
            Literal::Number(value) => LiteralView::Number(value@),
            Literal::Integer(value) => LiteralView::Integer(*value as int),
            Literal::String(bytes) => LiteralView::String(bytes@),
            Literal::Vector(x, y, z) => LiteralView::Vector(x@, y@, z@),
            Literal::VectorD(x, y, z) => LiteralView::VectorD(x@, y@, z@),
        }
    }

    /// Whether a condition that is this literal holds.
    pub fn is_truthy(&self) -> (result: bool)
        ensures
            result == self@.is_truthy(),
    {
        match self {
            Literal::Boolean(false) | Literal::Nil => false,
            _ => true,
        }
    }

    /// Appends the text of this literal.
    pub fn push_to(&self, out: &mut String)
        ensures
            final(out)@ == old(out)@ + self@.text(),
    {
        match self {
            Literal::Nil => out.append("nil"),
            Literal::Boolean(value) => if *value {
                out.append("true")
            } else {
                out.append("false")
            },
            Literal::Number(value) => value.push_to(out),
            Literal::Integer(value) => if *value == i64::MIN {
                out.append("(-9223372036854775807i - 1i)")
            } else {
                push_signed_decimal(out, *value as i128);
                out.push('i');
                proof {
                    assert(out@ =~= old(out)@ + self@.text());
                }
            },
            Literal::String(bytes) => {
                out.push('"');
                push_escaped(out, bytes.as_slice());
                out.push('"');
                proof {
                    assert(out@ =~= old(out)@ + self@.text());
                }
            },
            Literal::Vector(x, y, z) => push_vector(x, y, z, SINGLE_EXACT, out),
            Literal::VectorD(x, y, z) => push_vector(x, y, z, DOUBLE_EXACT, out),
        }
    }

    /// How the literal is written in the source.
    pub fn to_string(&self) -> (text: String)
        ensures
            text@ == self@.text(),
    {
        let mut text = String::new();
        self.push_to(&mut text);
        proof {
            assert(text@ =~= self@.text());
        }
        text
    }
}

impl Clone for Literal {
    fn clone(&self) -> (copy: Self)
        ensures
            copy@ == self@,
    {
        match self {
            Literal::Nil => Literal::Nil,
            Literal::Boolean(value) => Literal::Boolean(*value),
            Literal::Number(value) => Literal::Number(value.clone()),
            Literal::Integer(value) => Literal::Integer(*value),
            Literal::String(bytes) => Literal::String(copy_bytes(bytes.as_slice())),
            Literal::Vector(x, y, z) => Literal::Vector(x.clone(), y.clone(), z.clone()),
            Literal::VectorD(x, y, z) => Literal::VectorD(x.clone(), y.clone(), z.clone()),
        }
    }
}

impl PartialEq for Literal {
    fn eq(&self, other: &Self) -> (result: bool) {
        match (self, other) {
            (Literal::Nil, Literal::Nil) => true,
            (Literal::Boolean(left), Literal::Boolean(right)) => *left == *right,
            (Literal::Number(left), Literal::Number(right)) => left.eq(right),
            (Literal::Integer(left), Literal::Integer(right)) => *left == *right,
            (Literal::String(left), Literal::String(right)) => same_bytes(
                left.as_slice(),
                right.as_slice(),
            ),
            (Literal::Vector(x, y, z), Literal::Vector(a, b, c)) => x.equals_within(a, SINGLE_EXACT)
                && y.equals_within(b, SINGLE_EXACT) && z.equals_within(c, SINGLE_EXACT),
            (Literal::VectorD(x, y, z), Literal::VectorD(a, b, c)) => x.eq(a) && y.eq(b) && z.eq(c),
            _ => false,
        }
    }
}

impl vstd::std_specs::cmp::PartialEqSpecImpl for Literal {
    open spec fn obeys_eq_spec() -> bool {
        true
    }

    open spec fn eq_spec(&self, other: &Self) -> bool {
        self@.equals(other@)
    }
}

impl<'a> From<&'a str> for Literal {
    fn from(text: &'a str) -> (literal: Self)
        ensures
            literal@ == LiteralView::String(vstd::utf8::encode_utf8(text@)),
    {
        Literal::String(text_bytes(text))
    }
}

impl<'a> vstd::std_specs::convert::FromSpecImpl<&'a str> for Literal {
    open spec fn obeys_from_spec() -> bool {
        false
    }

    open spec fn from_spec(text: &'a str) -> Self {
        arbitrary()
    }
}

} // verus!
