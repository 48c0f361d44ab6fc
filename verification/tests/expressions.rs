//! Names, literals and operators.

use medal::ast::literal::Number;
use medal::ast::{
    is_valid_identifier_in, Binary, BinaryOperation, Call, Conditional, Global, GlobalOrigin,
    IdentifierContext, Literal, Local, LocalRw, Locals, RValue, RcLocal,
};

fn value(name: &str) -> RValue {
    Global::from(name).into()
}

fn number(value: f64) -> Number {
    if value.fract() == 0.0 {
        Number::Integer(value as i128)
    } else {
        let mut buffer = ryu::Buffer::new();
        Number::Decimal(buffer.format_finite(value).to_owned())
    }
}

/// `a <op> (b <op> c)`, the shape short-circuit recovery builds for a
/// chain of the same operator.
fn right_leaning(operation: BinaryOperation) -> String {
    Binary::new(
        value("a"),
        Binary::new(value("b"), value("c"), operation).into(),
        operation,
    )
    .to_string(&Locals::new())
}

#[test]
fn a_right_leaning_and_chain_prints_flat() {
    assert_eq!(right_leaning(BinaryOperation::And), "a and b and c");
}

#[test]
fn a_right_leaning_or_chain_prints_flat() {
    assert_eq!(right_leaning(BinaryOperation::Or), "a or b or c");
}

#[test]
fn a_four_term_and_chain_prints_flat() {
    let inner = Binary::new(
        value("b"),
        Binary::new(value("c"), value("d"), BinaryOperation::And).into(),
        BinaryOperation::And,
    );
    let chain = Binary::new(value("a"), inner.into(), BinaryOperation::And);

    assert_eq!(chain.to_string(&Locals::new()), "a and b and c and d");
}

/// Reassociating arithmetic is not a formatting change.
///
/// Lua numbers are IEEE-754 doubles, so `+` and `*` are not associative:
/// with `a, b, c = 1e16, -1e16, 1`, Luau prints `0` for `a + (b + c)` and
/// `1` for `a + b + c`. Dropping these parentheses would silently change
/// what the recompiled program computes, so every arithmetic operator
/// keeps them.
#[test]
fn a_right_leaning_arithmetic_chain_keeps_its_parentheses() {
    for operation in [
        BinaryOperation::Add,
        BinaryOperation::Sub,
        BinaryOperation::Mul,
        BinaryOperation::Div,
        BinaryOperation::Mod,
        BinaryOperation::IDiv,
    ] {
        let text = operation.as_str();
        assert_eq!(
            right_leaning(operation),
            format!("a {text} (b {text} c)"),
            "{text} reassociated"
        );
    }
}

#[test]
fn a_right_leaning_comparison_keeps_its_parentheses() {
    for operation in [
        BinaryOperation::Equal,
        BinaryOperation::NotEqual,
        BinaryOperation::LessThan,
        BinaryOperation::GreaterThan,
        BinaryOperation::LessThanOrEqual,
        BinaryOperation::GreaterThanOrEqual,
    ] {
        let text = operation.as_str();
        assert_eq!(
            right_leaning(operation),
            format!("a {text} (b {text} c)"),
            "{text} reassociated"
        );
    }
}

/// `..` and `^` are right-associative, so a right-leaning chain is what
/// the flat text already parses as and never needed parentheses.
#[test]
fn a_right_associative_chain_prints_flat_and_a_left_leaning_one_does_not() {
    for operation in [BinaryOperation::Concat, BinaryOperation::Pow] {
        let text = operation.as_str();
        assert_eq!(right_leaning(operation), format!("a {text} b {text} c"));
        let left_leaning = Binary::new(
            Binary::new(value("a"), value("b"), operation).into(),
            value("c"),
            operation,
        );
        assert_eq!(
            left_leaning.to_string(&Locals::new()),
            format!("(a {text} b) {text} c")
        );
    }
}

#[test]
fn a_lower_precedence_right_child_still_gets_parentheses() {
    let chain = Binary::new(
        value("a"),
        Binary::new(value("b"), value("c"), BinaryOperation::Or).into(),
        BinaryOperation::And,
    );

    assert_eq!(chain.to_string(&Locals::new()), "a and (b or c)");
}

#[test]
fn vector_conversion_preserves_dynamic_name_access() {
    let expected = b"possibly_dynamic".to_vec();
    let global: Global = expected.clone().into();

    assert_eq!(global.origin(), GlobalOrigin::Dynamic);
    assert_eq!(global.name(), expected);
    assert_eq!(global.into_name(), expected);
}

#[test]
fn contextual_global_is_direct_and_unspellable_global_uses_runtime_environment() {
    assert_eq!(Global::from("type").to_string(), "type");
    assert_eq!(
        Global::new(b"bad-name".to_vec()).to_string(),
        "getfenv(0)[\"bad-name\"]"
    );
}

#[test]
fn contextual_words_are_legal_identifiers_in_supported_luau_contexts() {
    for context in [
        IdentifierContext::Local,
        IdentifierContext::Parameter,
        IdentifierContext::GlobalExpression,
        IdentifierContext::FunctionName,
        IdentifierContext::MethodName,
        IdentifierContext::MemberName,
        IdentifierContext::TableField,
        IdentifierContext::TypeDeclaration,
    ] {
        for name in [
            b"type".as_slice(),
            b"class",
            b"continue",
            b"export",
            b"goto",
        ] {
            assert!(
                is_valid_identifier_in(name, context),
                "{name:?} in {context:?}"
            );
        }
    }
}

#[test]
fn hard_keywords_and_invalid_shapes_stay_illegal() {
    for context in [
        IdentifierContext::Local,
        IdentifierContext::GlobalExpression,
        IdentifierContext::MethodName,
        IdentifierContext::TableField,
    ] {
        assert!(!is_valid_identifier_in(b"end", context));
        assert!(!is_valid_identifier_in(b"bad-name", context));
        assert!(!is_valid_identifier_in(b"2fast", context));
    }
}

#[test]
fn formats_exact_integer_literals() {
    assert_eq!(
        Literal::Integer(9_007_199_254_740_993).to_string(),
        "9007199254740993i"
    );
    assert_eq!(
        Literal::Integer(i64::MIN).to_string(),
        "(-9223372036854775807i - 1i)"
    );
}

#[test]
fn formats_double_vector_literals() {
    assert_eq!(
        Literal::VectorD(number(1.25), number(2.5), number(3.75)).to_string(),
        "Vector3.new(1.25, 2.5, 3.75)"
    );
}

fn local(locals: &mut Locals, name: &str) -> RcLocal {
    RcLocal::new(locals, Local::new(Some(name.to_owned())))
}

#[test]
fn formats_conditional_expression() {
    let mut locals = Locals::new();
    let condition = local(&mut locals, "condition");
    let expression = Conditional::new(
        condition.into(),
        Literal::String(b"yes".to_vec()).into(),
        Literal::String(b"no".to_vec()).into(),
    );

    assert_eq!(
        expression.to_string(&locals),
        "if condition then \"yes\" else \"no\""
    );
}

#[test]
fn formats_nested_else_as_elseif() {
    let mut locals = Locals::new();
    let inner = Conditional::new(
        local(&mut locals, "second").into(),
        Literal::String(b"two".to_vec()).into(),
        Literal::String(b"other".to_vec()).into(),
    );
    let expression = Conditional::new(
        local(&mut locals, "first").into(),
        Literal::String(b"one".to_vec()).into(),
        inner.into(),
    );

    assert_eq!(
        expression.to_string(&locals),
        "if first then \"one\" elseif second then \"two\" else \"other\""
    );
}

#[test]
fn exposes_all_reads_and_branch_effects() {
    let mut locals = Locals::new();
    let condition = local(&mut locals, "condition");
    let then_value = local(&mut locals, "then_value");
    let fallback = Call::new(Global::from("fallback").into(), Vec::new());
    let expression = Conditional::new(
        RValue::Local(condition.clone()),
        RValue::Local(then_value.clone()),
        fallback.into(),
    );

    assert_eq!(
        RValue::from(expression).values_read().as_slice(),
        [condition, then_value]
    );
    let fallback = Call::new(Global::from("fallback").into(), Vec::new());
    let expression = Conditional::new(
        RValue::Local(condition),
        RValue::Local(then_value),
        fallback.into(),
    );
    assert!(expression.has_side_effects());
}
