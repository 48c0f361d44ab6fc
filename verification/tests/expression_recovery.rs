//! Recovering expressions from statements.

use medal::ast::expression_recovery::ExpressionRecoveryStats;
use medal::ast::{
    Assign, Binary, BinaryOperation, Block, Call, Global, If, Index, LValue, Literal, Local,
    Locals, MethodCall, Number, RValue, RcLocal, Return, Select, Statement, Unary, UnaryOperation,
};

fn number(value: f64) -> Number {
    if value.fract() == 0.0 {
        Number::Integer(value as i128)
    } else {
        let mut buffer = ryu::Buffer::new();
        Number::Decimal(buffer.format_finite(value).to_owned())
    }
}

trait Parts {
    fn as_if(&self) -> Option<&If>;
}

impl Parts for Statement {
    fn as_if(&self) -> Option<&If> {
        match self {
            Statement::If(part) => Some(part),
            _ => None,
        }
    }
}

fn local(locals: &mut Locals, name: &str) -> RcLocal {
    RcLocal::new(locals, Local::new(Some(name.to_owned())))
}

fn recover_expressions_with_protected(
    block: &mut Block,
    protected: &[RcLocal],
) -> ExpressionRecoveryStats {
    let (left, stats) = medal::ast::expression_recovery::recover_expressions_with_protected(
        std::mem::take(block),
        &protected.to_vec(),
    );
    *block = left;
    stats
}

fn assign(target: &RcLocal, value: RValue) -> Statement {
    Assign::new(vec![LValue::Local(target.clone())], vec![value]).into()
}

#[test]
fn folds_falsy_conditional_assignment() {
    let mut locals = Locals::new();
    let condition = local(&mut locals, "condition");
    let result = local(&mut locals, "result");
    let fallback = Call::new(Global::from("fallback").into(), Vec::new());
    let mut block = Block(vec![
        If::new(
            condition.into(),
            Block(vec![assign(&result, Literal::Boolean(false).into())]),
            Block(vec![assign(&result, fallback.into())]),
        )
        .into(),
    ]);

    let stats = recover_expressions_with_protected(&mut block, &[]);

    assert_eq!(stats.conditionals, 1);
    assert_eq!(
        block.to_string(&locals),
        "result = if condition then false else fallback()"
    );
}

#[test]
fn keeps_conditional_with_extra_branch_statement() {
    let mut locals = Locals::new();
    let condition = local(&mut locals, "condition");
    let result = local(&mut locals, "result");
    let observe = Call::new(Global::from("observe").into(), Vec::new());
    let mut block = Block(vec![
        If::new(
            condition.into(),
            Block(vec![
                observe.into(),
                assign(&result, Literal::Boolean(true).into()),
            ]),
            Block(vec![assign(&result, Literal::Boolean(false).into())]),
        )
        .into(),
    ]);

    let stats = recover_expressions_with_protected(&mut block, &[]);

    assert_eq!(stats.conditionals, 0);
    assert!(block.0[0].as_if().is_some());
}

#[test]
fn keeps_conditional_with_different_targets() {
    let mut locals = Locals::new();
    let condition = local(&mut locals, "condition");
    let left = local(&mut locals, "left");
    let right = local(&mut locals, "right");
    let mut block = Block(vec![
        If::new(
            condition.into(),
            Block(vec![assign(&left, Literal::Boolean(true).into())]),
            Block(vec![assign(&right, Literal::Boolean(false).into())]),
        )
        .into(),
    ]);

    let stats = recover_expressions_with_protected(&mut block, &[]);

    assert_eq!(stats.conditionals, 0);
    assert!(block.0[0].as_if().is_some());
}

#[test]
fn keeps_conditional_when_a_branch_does_not_assign() {
    let mut locals = Locals::new();
    let condition = local(&mut locals, "condition");
    let result = local(&mut locals, "result");
    let mut block = Block(vec![
        If::new(
            condition.into(),
            Block(vec![assign(&result, Literal::Boolean(true).into())]),
            Block::default(),
        )
        .into(),
    ]);

    let stats = recover_expressions_with_protected(&mut block, &[]);

    assert_eq!(stats.conditionals, 0);
    assert!(block.0[0].as_if().is_some());
}

#[test]
fn keeps_declaration_sensitive_conditional_self_read() {
    let mut locals = Locals::new();
    let condition = local(&mut locals, "condition");
    let result = local(&mut locals, "result");
    let mut block = Block(vec![
        If::new(
            condition.into(),
            Block(vec![assign(&result, result.clone().into())]),
            Block(vec![assign(&result, Literal::Nil.into())]),
        )
        .into(),
    ]);

    let stats = recover_expressions_with_protected(&mut block, &[]);

    assert_eq!(stats.conditionals, 0);
    assert!(block.0[0].as_if().is_some());
}

#[test]
fn extends_adjacent_short_circuit_chain() {
    let mut locals = Locals::new();
    let first = local(&mut locals, "first");
    let second = local(&mut locals, "second");
    let third = local(&mut locals, "third");
    let result = local(&mut locals, "result");
    let prefix = Binary::new(first.into(), second.into(), BinaryOperation::And);
    let mut block = Block(vec![
        assign(&result, prefix.into()),
        If::new(
            result.clone().into(),
            Block(vec![assign(&result, third.into())]),
            Block::default(),
        )
        .into(),
    ]);

    let stats = recover_expressions_with_protected(&mut block, &[]);

    assert_eq!(stats.short_circuits, 1);
    assert_eq!(block.to_string(&locals), "result = first and second and third");
}

#[test]
fn extends_adjacent_or_chain() {
    let mut locals = Locals::new();
    let first = local(&mut locals, "first");
    let fallback = local(&mut locals, "fallback");
    let result = local(&mut locals, "result");
    let mut block = Block(vec![
        assign(&result, first.into()),
        If::new(
            Unary::new(result.clone().into(), UnaryOperation::Not).into(),
            Block(vec![assign(&result, fallback.into())]),
            Block::default(),
        )
        .into(),
    ]);

    let stats = recover_expressions_with_protected(&mut block, &[]);

    assert_eq!(stats.short_circuits, 1);
    assert_eq!(block.to_string(&locals), "result = first or fallback");
}

#[test]
fn keeps_short_circuit_when_appended_value_reads_target() {
    let mut locals = Locals::new();
    let first = local(&mut locals, "first");
    let result = local(&mut locals, "result");
    let next = Binary::new(
        result.clone().into(),
        Literal::Number(number(1.0)).into(),
        BinaryOperation::Add,
    );
    let mut block = Block(vec![
        assign(&result, first.into()),
        If::new(
            result.clone().into(),
            Block(vec![assign(&result, next.into())]),
            Block::default(),
        )
        .into(),
    ]);

    let stats = recover_expressions_with_protected(&mut block, &[]);

    assert_eq!(stats.short_circuits, 0);
    assert_eq!(block.len(), 2);
}

#[test]
fn keeps_short_circuit_with_nonempty_else_branch() {
    let mut locals = Locals::new();
    let first = local(&mut locals, "first");
    let next = local(&mut locals, "next");
    let fallback = local(&mut locals, "fallback");
    let result = local(&mut locals, "result");
    let mut block = Block(vec![
        assign(&result, first.into()),
        If::new(
            result.clone().into(),
            Block(vec![assign(&result, next.into())]),
            Block(vec![assign(&result, fallback.into())]),
        )
        .into(),
    ]);

    let stats = recover_expressions_with_protected(&mut block, &[]);

    assert_eq!(stats.short_circuits, 0);
    assert_eq!(block.len(), 2);
}

#[test]
fn keeps_short_circuit_for_protected_target() {
    let mut locals = Locals::new();
    let first = local(&mut locals, "first");
    let third = local(&mut locals, "third");
    let result = local(&mut locals, "result");
    let mut block = Block(vec![
        assign(&result, first.into()),
        If::new(
            result.clone().into(),
            Block(vec![assign(&result, third.into())]),
            Block::default(),
        )
        .into(),
    ]);

    let stats = recover_expressions_with_protected(&mut block, std::slice::from_ref(&result));

    assert_eq!(stats.short_circuits, 0);
    assert_eq!(block.len(), 2);
}

#[test]
fn inlines_single_use_expression_into_return() {
    let mut locals = Locals::new();
    let input = local(&mut locals, "input");
    let temporary = local(&mut locals, "temporary");
    let arithmetic = Binary::new(
        input.into(),
        Literal::Number(number(1.0)).into(),
        BinaryOperation::Add,
    );
    let mut block = Block(vec![
        assign(&temporary, arithmetic.into()),
        Return::new(vec![temporary.into()]).into(),
    ]);

    let stats = recover_expressions_with_protected(&mut block, &[]);

    assert_eq!(stats.inlined_temporaries, 1);
    assert_eq!(block.to_string(&locals), "return input + 1");
}

#[test]
fn inlines_single_selected_call_without_opening_return_arity() {
    let mut locals = Locals::new();
    let temporary = local(&mut locals, "temporary");
    let selected = Select::Call(Call::new(Global::from("produce").into(), Vec::new()));
    let mut block = Block(vec![
        assign(&temporary, selected.into()),
        Return::new(vec![temporary.into()]).into(),
    ]);

    let stats = recover_expressions_with_protected(&mut block, &[]);

    assert_eq!(stats.inlined_temporaries, 1);
    assert_eq!(block.to_string(&locals), "return (produce())");
}

#[test]
fn keeps_open_call_variant_at_return_boundary() {
    let mut locals = Locals::new();
    let temporary = local(&mut locals, "temporary");
    let call = Call::new(Global::from("produce").into(), Vec::new());
    let mut block = Block(vec![
        assign(&temporary, call.into()),
        Return::new(vec![temporary.into()]).into(),
    ]);

    let stats = recover_expressions_with_protected(&mut block, &[]);

    assert_eq!(stats.inlined_temporaries, 0);
    assert_eq!(block.len(), 2);
}

#[test]
fn keeps_call_result_when_consumer_has_an_earlier_call() {
    let mut locals = Locals::new();
    let temporary = local(&mut locals, "temporary");
    let selected = Select::Call(Call::new(Global::from("produce").into(), Vec::new()));
    let other = Call::new(Global::from("other").into(), Vec::new());
    let mut block = Block(vec![
        assign(&temporary, selected.into()),
        Return::new(vec![other.into(), temporary.into()]).into(),
    ]);

    let stats = recover_expressions_with_protected(&mut block, &[]);

    assert_eq!(stats.inlined_temporaries, 0);
    assert_eq!(block.len(), 2);
}

#[test]
fn keeps_call_result_before_method_lookup() {
    let mut locals = Locals::new();
    let object = local(&mut locals, "object");
    let temporary = local(&mut locals, "temporary");
    let selected = Select::Call(Call::new(Global::from("produce").into(), Vec::new()));
    let consume = MethodCall::new(
        object.into(),
        "consume".to_owned(),
        vec![temporary.clone().into()],
    );
    let mut block = Block(vec![assign(&temporary, selected.into()), consume.into()]);

    let stats = recover_expressions_with_protected(&mut block, &[]);

    assert_eq!(stats.inlined_temporaries, 0);
    assert_eq!(block.len(), 2);
}

#[test]
fn keeps_effectful_value_out_of_short_circuit_branch() {
    let mut locals = Locals::new();
    let condition = local(&mut locals, "condition");
    let temporary = local(&mut locals, "temporary");
    let selected = Select::Call(Call::new(Global::from("produce").into(), Vec::new()));
    let consumer = Binary::new(
        condition.into(),
        temporary.clone().into(),
        BinaryOperation::And,
    );
    let mut block = Block(vec![
        assign(&temporary, selected.into()),
        Return::new(vec![consumer.into()]).into(),
    ]);

    let stats = recover_expressions_with_protected(&mut block, &[]);

    assert_eq!(stats.inlined_temporaries, 0);
    assert_eq!(block.len(), 2);
}

#[test]
fn keeps_effectful_value_before_earlier_local_read() {
    let mut locals = Locals::new();
    let observed = local(&mut locals, "observed");
    let temporary = local(&mut locals, "temporary");
    let selected = Select::Call(Call::new(Global::from("mutate").into(), Vec::new()));
    let mut block = Block(vec![
        assign(&temporary, selected.into()),
        Return::new(vec![observed.into(), temporary.clone().into()]).into(),
    ]);

    let stats = recover_expressions_with_protected(&mut block, &[]);

    assert_eq!(stats.inlined_temporaries, 0);
    assert_eq!(block.len(), 2);
}

#[test]
fn keeps_value_before_effectful_assignment_target() {
    let mut locals = Locals::new();
    let key = local(&mut locals, "key");
    let temporary = local(&mut locals, "temporary");
    let selected = Select::Call(Call::new(Global::from("produce").into(), Vec::new()));
    let target = Index::new(
        Call::new(Global::from("get_table").into(), Vec::new()).into(),
        key.into(),
    );
    let consumer = Assign::new(vec![LValue::Index(target)], vec![temporary.clone().into()]);
    let mut block = Block(vec![assign(&temporary, selected.into()), consumer.into()]);

    let stats = recover_expressions_with_protected(&mut block, &[]);

    assert_eq!(stats.inlined_temporaries, 0);
    assert_eq!(block.len(), 2);
}

#[test]
fn keeps_expression_across_overwrite_and_structured_boundary() {
    let mut locals = Locals::new();
    let input = local(&mut locals, "input");
    let condition = local(&mut locals, "condition");
    let temporary = local(&mut locals, "temporary");
    let arithmetic = RValue::from(Binary::new(
        input.into(),
        Literal::Number(number(1.0)).into(),
        BinaryOperation::Add,
    ));
    let mut overwritten = Block(vec![
        assign(&temporary, arithmetic.clone()),
        assign(&temporary, Literal::Number(number(2.0)).into()),
        Return::new(vec![temporary.clone().into()]).into(),
    ]);
    let mut structured = Block(vec![
        assign(&temporary, arithmetic),
        If::new(condition.into(), Block::default(), Block::default()).into(),
        Return::new(vec![temporary.into()]).into(),
    ]);

    let overwritten_stats = recover_expressions_with_protected(&mut overwritten, &[]);
    let structured_stats = recover_expressions_with_protected(&mut structured, &[]);

    assert_eq!(overwritten_stats.inlined_temporaries, 1);
    assert!(matches!(
        overwritten.0[0].as_assign().unwrap().right[0],
        RValue::Binary(_)
    ));
    assert_eq!(structured_stats.inlined_temporaries, 0);
}

#[test]
fn keeps_expression_across_source_write() {
    let mut locals = Locals::new();
    let source = local(&mut locals, "source");
    let temporary = local(&mut locals, "temporary");
    let arithmetic = Binary::new(
        source.clone().into(),
        Literal::Number(number(1.0)).into(),
        BinaryOperation::Add,
    );
    let mut block = Block(vec![
        assign(&temporary, arithmetic.into()),
        assign(&source, Literal::Integer(2).into()),
        Return::new(vec![temporary.into()]).into(),
    ]);

    let stats = recover_expressions_with_protected(&mut block, &[]);

    assert_eq!(stats.inlined_temporaries, 0);
    assert_eq!(block.len(), 3);
}

#[test]
fn keeps_expression_across_observable_work() {
    let mut locals = Locals::new();
    let input = local(&mut locals, "input");
    let object = local(&mut locals, "object");
    let temporary = local(&mut locals, "temporary");
    let observed = local(&mut locals, "observed");
    let arithmetic = Binary::new(
        input.into(),
        Literal::Number(number(1.0)).into(),
        BinaryOperation::Add,
    );
    let index = Index::new(object.into(), Literal::String(b"value".to_vec()).into());
    let mut block = Block(vec![
        assign(&temporary, arithmetic.into()),
        assign(&observed, index.into()),
        Return::new(vec![temporary.into()]).into(),
    ]);

    let stats = recover_expressions_with_protected(&mut block, &[]);

    assert_eq!(stats.inlined_temporaries, 0);
    assert_eq!(block.len(), 3);
}

#[test]
fn keeps_expression_for_protected_target() {
    let mut locals = Locals::new();
    let input = local(&mut locals, "input");
    let temporary = local(&mut locals, "temporary");
    let arithmetic = Binary::new(
        input.into(),
        Literal::Number(number(1.0)).into(),
        BinaryOperation::Add,
    );
    let mut block = Block(vec![
        assign(&temporary, arithmetic.into()),
        Return::new(vec![temporary.clone().into()]).into(),
    ]);

    let stats =
        recover_expressions_with_protected(&mut block, std::slice::from_ref(&temporary));

    assert_eq!(stats.inlined_temporaries, 0);
    assert_eq!(block.len(), 2);
}
