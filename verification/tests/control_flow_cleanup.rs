//! Clearing up branches.

use medal::ast::control_flow_cleanup::ControlFlowCleanupStats;
use medal::ast::{
    Assign, Block, Call, Continue, Global, If, LValue, Literal, Local, Locals, Number, RValue,
    RcLocal, Return, Statement, Unary, UnaryOperation, While,
};

fn number(value: f64) -> Number {
    if value.fract() == 0.0 {
        Number::Integer(value as i128)
    } else {
        let mut buffer = ryu::Buffer::new();
        Number::Decimal(buffer.format_finite(value).to_owned())
    }
}

trait Parts {
    fn as_if(&self) -> Option<&If>;
    fn as_while(&self) -> Option<&While>;
    fn as_return(&self) -> Option<&Return>;
    fn as_continue(&self) -> Option<&Continue>;
}

impl Parts for Statement {
    fn as_if(&self) -> Option<&If> {
        match self {
            Statement::If(part) => Some(part),
            _ => None,
        }
    }

    fn as_while(&self) -> Option<&While> {
        match self {
            Statement::While(part) => Some(part),
            _ => None,
        }
    }

    fn as_return(&self) -> Option<&Return> {
        match self {
            Statement::Return(part) => Some(part),
            _ => None,
        }
    }

    fn as_continue(&self) -> Option<&Continue> {
        match self {
            Statement::Continue(part) => Some(part),
            _ => None,
        }
    }
}

fn local(locals: &mut Locals, name: &str) -> RcLocal {
    RcLocal::new(locals, Local::new(Some(name.to_owned())))
}

fn cleanup_control_flow(block: &mut Block) -> ControlFlowCleanupStats {
    let (left, stats) =
        medal::ast::control_flow_cleanup::cleanup_control_flow(std::mem::take(block));
    *block = left;
    stats
}

fn assign(name: &RcLocal, value: f64) -> Statement {
    Assign::new(
        vec![LValue::Local(name.clone())],
        vec![Literal::Number(number(value)).into()],
    )
    .into()
}

#[test]
fn inverts_empty_then_branch() {
    let mut locals = Locals::new();
    let condition = local(&mut locals, "condition");
    let value = local(&mut locals, "value");
    let mut block = Block(vec![
        If::new(
            condition.clone().into(),
            Block::default(),
            Block(vec![assign(&value, 1.0)]),
        )
        .into(),
    ]);

    let stats = cleanup_control_flow(&mut block);
    let branch = block.0[0].as_if().unwrap();

    assert_eq!(stats.inverted_empty_then, 1);
    assert!(branch.else_block.is_empty());
    assert_eq!(branch.then_block.len(), 1);
    assert!(matches!(&branch.condition, RValue::Unary(unary)
            if unary.operation == UnaryOperation::Not
                && matches!(unary.value.as_ref(), RValue::Local(local) if local == &condition)));
}

#[test]
fn flattens_terminal_then_branch_into_guard_clause() {
    let mut locals = Locals::new();
    let condition = local(&mut locals, "condition");
    let value = local(&mut locals, "value");
    let mut block = Block(vec![
        If::new(
            condition.into(),
            Block(vec![
                Return::new(vec![Literal::Boolean(false).into()]).into(),
            ]),
            Block(vec![assign(&value, 1.0)]),
        )
        .into(),
    ]);

    let stats = cleanup_control_flow(&mut block);

    assert_eq!(stats.flattened_guards, 1);
    assert_eq!(stats.inverted_terminal_else, 0);
    assert_eq!(block.len(), 2);
    assert!(block.0[0].as_if().unwrap().else_block.is_empty());
    assert!(block.0[1].as_assign().is_some());
}

#[test]
fn inverts_terminal_else_before_flattening_guard() {
    let mut locals = Locals::new();
    let condition = local(&mut locals, "condition");
    let value = local(&mut locals, "value");
    let mut block = Block(vec![
        If::new(
            condition.clone().into(),
            Block(vec![assign(&value, 1.0)]),
            Block(vec![Return::new(Vec::new()).into()]),
        )
        .into(),
    ]);

    let stats = cleanup_control_flow(&mut block);
    let branch = block.0[0].as_if().unwrap();

    assert_eq!(stats.flattened_guards, 1);
    assert_eq!(stats.inverted_terminal_else, 1);
    assert_eq!(block.len(), 2);
    assert!(branch.then_block.0[0].as_return().is_some());
    assert!(matches!(&branch.condition, RValue::Unary(unary)
            if unary.operation == UnaryOperation::Not
                && matches!(unary.value.as_ref(), RValue::Local(local) if local == &condition)));
    assert!(block.0[1].as_assign().is_some());
}

#[test]
fn removes_only_pure_empty_conditionals() {
    let mut locals = Locals::new();
    let condition = local(&mut locals, "condition");
    let effectful = Call::new(Global::from("observe").into(), Vec::new());
    let mut block = Block(vec![
        If::new(condition.into(), Block::default(), Block::default()).into(),
        If::new(effectful.into(), Block::default(), Block::default()).into(),
    ]);

    let stats = cleanup_control_flow(&mut block);

    assert_eq!(stats.removed_empty, 1);
    assert_eq!(block.len(), 1);
    assert!(block.0[0].as_if().is_some());
}

#[test]
fn converts_last_loop_if_into_continue_guard() {
    let mut locals = Locals::new();
    let enabled = local(&mut locals, "enabled");
    let value = local(&mut locals, "value");
    let loop_body = Block(vec![
        If::new(
            enabled.clone().into(),
            Block(vec![assign(&value, 1.0)]),
            Block::default(),
        )
        .into(),
    ]);
    let mut block = Block(vec![
        While::new(Literal::Boolean(true).into(), loop_body).into(),
    ]);

    let stats = cleanup_control_flow(&mut block);
    let loop_body = &block.0[0].as_while().unwrap().block;

    assert_eq!(stats.loop_guards, 1);
    assert_eq!(loop_body.len(), 2);
    let guard = loop_body.0[0].as_if().unwrap();
    assert!(guard.then_block.0[0].as_continue().is_some());
    assert!(matches!(&guard.condition, RValue::Unary(unary)
            if unary.operation == UnaryOperation::Not
                && matches!(unary.value.as_ref(), RValue::Local(local) if local == &enabled)));
    assert!(loop_body.0[1].as_assign().is_some());
}

#[test]
fn loop_guard_strips_existing_not_without_rewriting_comparison() {
    let mut locals = Locals::new();
    let disabled = local(&mut locals, "disabled");
    let value = local(&mut locals, "value");
    let condition = Unary {
        value: Box::new(disabled.clone().into()),
        operation: UnaryOperation::Not,
    };
    let loop_body = Block(vec![
        If::new(
            condition.into(),
            Block(vec![assign(&value, 1.0)]),
            Block::default(),
        )
        .into(),
    ]);
    let mut block = Block(vec![
        While::new(Literal::Boolean(true).into(), loop_body).into(),
    ]);

    cleanup_control_flow(&mut block);
    let loop_body = &block.0[0].as_while().unwrap().block;
    let guard = loop_body.0[0].as_if().unwrap();

    assert!(matches!(&guard.condition, RValue::Local(local) if local == &disabled));
}

#[test]
fn does_not_expand_terminal_loop_tail_into_redundant_guard() {
    let mut locals = Locals::new();
    let condition = local(&mut locals, "condition");
    let loop_body = Block(vec![
        If::new(
            condition.into(),
            Block(vec![Return::new(Vec::new()).into()]),
            Block::default(),
        )
        .into(),
    ]);
    let mut block = Block(vec![
        While::new(Literal::Boolean(true).into(), loop_body).into(),
    ]);

    let stats = cleanup_control_flow(&mut block);
    let loop_body = &block.0[0].as_while().unwrap().block;

    assert_eq!(stats.loop_guards, 0);
    assert_eq!(loop_body.len(), 1);
    assert!(loop_body.0[0].as_if().is_some());
}
