//! Closing scopes early.

use medal::ast::scope_narrowing::FUNCTION_BUDGET;
use medal::ast::{
    Assign, Block, Call, Closure, Function, Global, Label, Literal, Local, Locals, Number, RValue,
    RcLocal, Repeat, Return, Statement, While,
};

fn number(value: f64) -> Number {
    if value.fract() == 0.0 {
        Number::Integer(value as i128)
    } else {
        let mut buffer = ryu::Buffer::new();
        Number::Decimal(buffer.format_finite(value).to_owned())
    }
}

trait Parts {
    fn as_repeat(&self) -> Option<&Repeat>;
}

impl Parts for Statement {
    fn as_repeat(&self) -> Option<&Repeat> {
        match self {
            Statement::Repeat(part) => Some(part),
            _ => None,
        }
    }
}

fn local(locals: &mut Locals, name: &str) -> RcLocal {
    RcLocal::new(locals, Local::new(Some(name.to_owned())))
}

fn narrow_local_scopes(block: &mut Block) {
    *block = medal::ast::scope_narrowing::narrow_local_scopes(std::mem::take(block));
}

fn scopes(block: &Block) -> usize {
    block
        .0
        .iter()
        .filter(|s| matches!(s, Statement::Do(_)))
        .count()
}

fn declarations(block: &Block) -> usize {
    block
        .0
        .iter()
        .filter_map(Statement::as_assign)
        .filter(|assign| assign.prefix)
        .map(|assign| assign.left.len())
        .sum()
}

/// `local <name> = <name>_source()` followed by `sink(<name>)`.
fn declare_then_consume(locals: &mut Locals, name: &str) -> Vec<Statement> {
    let target = local(locals, name);
    let mut declaration = Assign::new(
        vec![target.clone().into()],
        vec![Call::new(Global::new(format!("{name}_source").into_bytes()).into(), vec![]).into()],
    );
    declaration.prefix = true;
    vec![
        declaration.into(),
        Call::new(Global::new(b"sink".to_vec()).into(), vec![target.into()]).into(),
    ]
}

#[test]
fn a_block_within_budget_is_left_alone() {
    let mut locals = Locals::new();
    let mut block = Block(
        (0..FUNCTION_BUDGET)
            .flat_map(|i| declare_then_consume(&mut locals, &format!("v{i}")))
            .collect(),
    );

    narrow_local_scopes(&mut block);

    assert_eq!(scopes(&block), 0);
    assert_eq!(declarations(&block), FUNCTION_BUDGET);
}

#[test]
fn an_over_budget_block_groups_its_declarations() {
    let mut locals = Locals::new();
    let count = FUNCTION_BUDGET + 40;
    let mut block = Block(
        (0..count)
            .flat_map(|i| declare_then_consume(&mut locals, &format!("v{i}")))
            .collect(),
    );

    narrow_local_scopes(&mut block);

    assert!(scopes(&block) > 0);
    // What is left at block level fits the budget. A trailing run too small
    // to be worth a scope of its own may stay behind.
    assert!(declarations(&block) < FUNCTION_BUDGET);
}

#[test]
fn a_local_read_after_a_run_keeps_that_run_open() {
    let mut locals = Locals::new();
    let count = FUNCTION_BUDGET + 40;
    let carried = local(&mut locals, "carried");
    let mut declaration = Assign::new(
        vec![carried.clone().into()],
        vec![Call::new(Global::new(b"source".to_vec()).into(), vec![]).into()],
    );
    declaration.prefix = true;

    let mut statements = vec![Statement::from(declaration)];
    statements.extend((0..count).flat_map(|i| declare_then_consume(&mut locals, &format!("v{i}"))));
    statements.push(Return::new(vec![carried.clone().into()]).into());
    let mut block = Block(statements);

    narrow_local_scopes(&mut block);

    // `carried` is read by the final return, so no scope may close over it.
    assert!(declarations(&block) < FUNCTION_BUDGET);
    let first = block.0[0].as_assign().unwrap();
    assert!(first.prefix);
    assert_eq!(first.left[0].as_local(), Some(carried));
}

#[test]
fn a_repeat_condition_keeps_the_local_it_reads_in_scope() {
    let mut locals = Locals::new();
    let count = FUNCTION_BUDGET + 40;
    let done = local(&mut locals, "done");
    let mut declaration = Assign::new(
        vec![done.clone().into()],
        vec![Call::new(Global::new(b"check".to_vec()).into(), vec![]).into()],
    );
    declaration.prefix = true;

    // `done` sits mid-body, surrounded by short-lived declarations, so it
    // lands inside a run the pass wants to wrap.
    let mut body: Vec<Statement> = (0..count / 2)
        .flat_map(|i| declare_then_consume(&mut locals, &format!("v{i}")))
        .collect();
    body.push(declaration.into());
    body.extend((count / 2..count).flat_map(|i| declare_then_consume(&mut locals, &format!("v{i}"))));
    let repeat = Repeat::new(RValue::Local(done.clone()), Block(body));
    let mut block = Block(vec![repeat.into()]);

    narrow_local_scopes(&mut block);

    // `done` is read by the `until`, which sits outside every scope the
    // pass can add, so its declaration has to stay in the body's own scope.
    let body = &block.0[0].as_repeat().unwrap().block;
    assert!(
        body.0.iter().any(|statement| matches!(
            statement,
            Statement::Assign(assign)
                if assign.prefix
                    && assign.left.iter().any(|l| l.as_local() == Some(done))
        )),
        "the declaration of `done` was moved inside a scope"
    );
}

#[test]
fn a_label_stops_the_block_from_being_grouped() {
    let mut locals = Locals::new();
    let count = FUNCTION_BUDGET + 40;
    let mut statements = vec![Statement::from(Label("resume".to_owned()))];
    statements.extend((0..count).flat_map(|i| declare_then_consume(&mut locals, &format!("v{i}"))));
    let mut block = Block(statements);

    narrow_local_scopes(&mut block);

    assert_eq!(scopes(&block), 0);
    assert_eq!(declarations(&block), count);
}

#[test]
fn a_closure_capturing_a_local_keeps_its_run_open() {
    let mut locals = Locals::new();
    let count = FUNCTION_BUDGET + 40;
    let captured = local(&mut locals, "captured");
    let mut declaration = Assign::new(
        vec![captured.clone().into()],
        vec![RValue::Literal(Literal::Number(number(1.0)))],
    );
    declaration.prefix = true;

    let mut statements = vec![Statement::from(declaration)];
    statements.extend((0..count).flat_map(|i| declare_then_consume(&mut locals, &format!("v{i}"))));
    statements.push(
        Call::new(
            Global::new(b"register".to_vec()).into(),
            vec![Closure {
                function: Box::new(
                    Function {
                        id: 0,
                        body: Block(vec![Return::new(vec![captured.clone().into()]).into()]),
                        ..Default::default()
                    }),
                upvalues: vec![],
            }
            .into()],
        )
        .into(),
    );
    let mut block = Block(statements);

    narrow_local_scopes(&mut block);

    // The closure body reads `captured`, so its declaration stays visible.
    assert!(declarations(&block) < FUNCTION_BUDGET);
    assert_eq!(
        block.0[0].as_assign().unwrap().left[0].as_local(),
        Some(captured)
    );
}

#[test]
fn every_local_stays_declared_where_it_is_used() {
    let mut locals = Locals::new();
    let wide = local(&mut locals, "wide");
    let mut first = Assign::new(
        vec![wide.clone().into()],
        vec![Literal::Number(number(1.0)).into()],
    );
    first.prefix = true;
    let mut statements: Vec<Statement> = vec![first.into()];
    statements.extend(
        (0..FUNCTION_BUDGET * 2).flat_map(|i| declare_then_consume(&mut locals, &format!("v{i}"))),
    );
    statements.push(Return::new(vec![wide.into()]).into());
    let mut block = Block(statements);
    let nothing = rustc_hash::FxHashSet::default();
    assert!(
        medal::ast::binding_validation::validate_bindings(&block, &nothing, &locals).is_ok()
    );

    narrow_local_scopes(&mut block);

    assert!(scopes(&block) > 0);
    assert!(
        medal::ast::binding_validation::validate_bindings(&block, &nothing, &locals).is_ok()
    );
}

fn declare(target: &RcLocal) -> Statement {
    let mut declaration = Assign::new(
        vec![target.clone().into()],
        vec![Literal::Number(number(1.0)).into()],
    );
    declaration.prefix = true;
    declaration.into()
}

/// A loop whose body declares a local, a declaration of the same local behind
/// it, crowded declarations, and a last statement.
fn crowded_behind_a_loop(locals: &mut Locals, x: &RcLocal, last: Statement) -> Block {
    let body = Block(vec![declare(x)]);
    let mut statements: Vec<Statement> = vec![
        While::new(Literal::Boolean(true).into(), body).into(),
        declare(x),
    ];
    statements
        .extend((0..FUNCTION_BUDGET * 2).flat_map(|i| declare_then_consume(locals, &format!("v{i}"))));
    statements.push(last);
    Block(statements)
}

#[test]
fn a_local_declared_again_behind_a_loop_resolves_unless_it_is_kept_back() {
    for kept_back in [false, true] {
        let mut locals = Locals::new();
        let x = local(&mut locals, "x");
        let values: Vec<RValue> = if kept_back { vec![x.into()] } else { Vec::new() };
        let mut block = crowded_behind_a_loop(&mut locals, &x, Return::new(values).into());
        let nothing = rustc_hash::FxHashSet::default();
        assert!(
            medal::ast::binding_validation::validate_bindings(&block, &nothing, &locals).is_ok()
        );

        narrow_local_scopes(&mut block);

        assert!(scopes(&block) > 0);
        assert_eq!(
            medal::ast::binding_validation::validate_bindings(&block, &nothing, &locals).is_ok(),
            !kept_back
        );
    }
}
