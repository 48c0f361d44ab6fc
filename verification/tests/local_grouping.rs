//! Joining declarations.

use medal::ast::{
    Assign, Block, Call, Closure, Do, Function, Global, Literal, Local, Locals, Number, RValue,
    RcLocal, Return, Select, Statement,
};

fn number(value: f64) -> Number {
    if value.fract() == 0.0 {
        Number::Integer(value as i128)
    } else {
        let mut buffer = ryu::Buffer::new();
        Number::Decimal(buffer.format_finite(value).to_owned())
    }
}

fn local(locals: &mut Locals, name: &str) -> RcLocal {
    RcLocal::new(locals, Local::new(Some(name.to_owned())))
}

fn combine_local_declarations(block: &mut Block, locals: &Locals) {
    *block =
        medal::ast::local_grouping::combine_local_declarations(std::mem::take(block), locals);
}

fn declare(locals: &mut Locals, name: &str, value: RValue) -> Statement {
    let mut declaration = Assign::new(vec![local(locals, name).into()], vec![value]);
    declaration.prefix = true;
    declaration.into()
}

fn declare_reading(locals: &mut Locals, name: &str, read: &RcLocal) -> Statement {
    let mut declaration =
        Assign::new(vec![local(locals, name).into()], vec![RValue::Local(read.clone())]);
    declaration.prefix = true;
    declaration.into()
}

fn call(name: &str) -> RValue {
    Call::new(Global::from(name).into(), Vec::new()).into()
}

#[test]
fn adjacent_declarations_of_plain_values_are_joined() {
    let mut locals = Locals::new();
    let mut block = Block(vec![
        declare(&mut locals, "format", Global::from("string").into()),
        declare(&mut locals, "round", Global::from("math").into()),
    ]);

    combine_local_declarations(&mut block, &locals);

    assert_eq!(block.to_string(&locals), "local format, round = string, math");
}

#[test]
fn a_self_referencing_declaration_is_never_joined() {
    let mut locals = Locals::new();
    // A recursive local reads the name it is defining. A list binds its
    // names only after every value is evaluated, so joining one would leave
    // the recursive call resolving to the outer name instead of itself.
    let recursive = local(&mut locals, "recursive");
    let mut declaration = Assign::new(
        vec![recursive.clone().into()],
        vec![recursive.clone().into()],
    );
    declaration.prefix = true;
    let mut block = Block(vec![
        declaration.into(),
        declare(&mut locals, "other", Global::from("source").into()),
    ]);

    combine_local_declarations(&mut block, &locals);

    assert_eq!(
        block.to_string(&locals),
        "local recursive = recursive\nlocal other = source"
    );
}

#[test]
fn a_later_self_referencing_declaration_does_not_join_the_group() {
    let mut locals = Locals::new();
    let recursive = local(&mut locals, "recursive");
    let mut declaration = Assign::new(
        vec![recursive.clone().into()],
        vec![recursive.clone().into()],
    );
    declaration.prefix = true;
    let mut block = Block(vec![
        declare(&mut locals, "first", Global::from("source").into()),
        declaration.into(),
    ]);

    combine_local_declarations(&mut block, &locals);

    assert_eq!(
        block.to_string(&locals),
        "local first = source\nlocal recursive = recursive"
    );
}

#[test]
fn a_value_reading_an_earlier_name_in_the_group_starts_a_new_one() {
    let mut locals = Locals::new();
    // `local first = source` then `local second = first` cannot become
    // `local first, second = source, first`: the list evaluates `first`
    // before it binds one, so the second value would read whatever
    // `first` meant outside this block.
    let first = local(&mut locals, "first");
    let mut declaration = Assign::new(
        vec![first.clone().into()],
        vec![Global::from("source").into()],
    );
    declaration.prefix = true;
    let mut block = Block(vec![declaration.into(), declare_reading(&mut locals, "second", &first)]);

    combine_local_declarations(&mut block, &locals);

    assert_eq!(
        block.to_string(&locals),
        "local first = source\nlocal second = first"
    );
}

#[test]
fn a_closure_capturing_an_earlier_name_in_the_group_starts_a_new_one() {
    let mut locals = Locals::new();
    let first = local(&mut locals, "first");
    let mut declaration = Assign::new(
        vec![first.clone().into()],
        vec![Global::from("source").into()],
    );
    declaration.prefix = true;
    let closure = Closure {
        function: Box::new(Function {
            id: 0,
            body: Block(vec![Return::new(vec![first.clone().into()]).into()]),
            ..Default::default()
        }),
        upvalues: Vec::new(),
    };
    let mut block = Block(vec![declaration.into(), declare(&mut locals, "second", closure.into())]);

    combine_local_declarations(&mut block, &locals);

    let formatted = block.to_string(&locals);

    assert!(formatted.starts_with("local first = source"), "{formatted}");
    assert!(!formatted.contains("local first, second"), "{formatted}");
}

#[test]
fn two_values_that_run_program_code_are_left_apart() {
    let mut locals = Locals::new();
    let mut block = Block(vec![
        declare(&mut locals, "a", call("first")),
        declare(&mut locals, "b", call("second")),
    ]);

    combine_local_declarations(&mut block, &locals);

    assert_eq!(block.to_string(&locals), "local a = first()\nlocal b = second()");
}

#[test]
fn one_value_that_runs_program_code_may_still_join() {
    let mut locals = Locals::new();
    let mut block = Block(vec![
        declare(&mut locals, "a", call("first")),
        declare(&mut locals, "b", Literal::Number(number(1.0)).into()),
    ]);

    combine_local_declarations(&mut block, &locals);

    assert_eq!(block.to_string(&locals), "local a, b = first(), 1");
}

#[test]
fn a_multiple_result_value_is_never_joined() {
    let mut locals = Locals::new();
    let selected = Select::Call(Call::new(Global::from("produce").into(), Vec::new()));
    let mut block = Block(vec![
        declare(&mut locals, "a", Literal::Number(number(1.0)).into()),
        declare(&mut locals, "b", selected.into()),
    ]);

    combine_local_declarations(&mut block, &locals);

    assert_eq!(block.to_string(&locals), "local a = 1\nlocal b = produce()");
}

#[test]
fn a_run_longer_than_a_group_is_split_into_groups() {
    let mut locals = Locals::new();
    let mut block = Block(
        (0..5)
            .map(|index| declare(&mut locals, &format!("v{index}"), Literal::Number(number(index as f64)).into()))
            .collect(),
    );

    combine_local_declarations(&mut block, &locals);

    assert_eq!(
        block.to_string(&locals),
        "local v0, v1, v2 = 0, 1, 2\nlocal v3, v4 = 3, 4"
    );
}

#[test]
fn a_plain_assignment_is_not_a_declaration_and_breaks_the_run() {
    let mut locals = Locals::new();
    let mut block = Block(vec![
        declare(&mut locals, "a", Literal::Number(number(1.0)).into()),
        Assign::new(
            vec![Global::from("g").into()],
            vec![Literal::Number(number(2.0)).into()],
        )
        .into(),
        declare(&mut locals, "b", Literal::Number(number(3.0)).into()),
    ]);

    combine_local_declarations(&mut block, &locals);

    assert_eq!(block.to_string(&locals), "local a = 1\ng = 2\nlocal b = 3");
}

#[test]
fn declarations_inside_nested_blocks_are_joined_too() {
    let mut locals = Locals::new();
    let inner = Block(vec![
        declare(&mut locals, "a", Literal::Number(number(1.0)).into()),
        declare(&mut locals, "b", Literal::Number(number(2.0)).into()),
    ]);
    let mut block = Block(vec![Do::new(inner).into()]);

    combine_local_declarations(&mut block, &locals);

    assert_eq!(block.to_string(&locals), "do\n\tlocal a, b = 1, 2\nend");
}
