//! Table constructors, class declarations and what is left of loops.

use medal::ast::formatter::Formatter;
use medal::ast::layout::IndentationMode;
use medal::ast::set_list_lowering::{drop_unfilled_table_slots, lower_residual_set_lists};
use medal::ast::{
    Assign, Block, Call, Class, Closure, Conditional, Do, Function, Global, If, Index, Literal,
    Local, Locals, Number, RValue, RcLocal, Repeat, Return, SetList, Statement, Table, While,
};

fn number(value: f64) -> Number {
    if value.fract() == 0.0 {
        Number::Integer(value as i128)
    } else {
        let mut buffer = ryu::Buffer::new();
        Number::Decimal(buffer.format_finite(value).to_owned())
    }
}

fn local(locals: &mut Locals, name: &str) -> RcLocal {
    RcLocal::new(locals, Local::new(Some(name.to_owned())))
}

fn numeral(value: f64) -> RValue {
    Literal::Number(number(value)).into()
}

#[test]
fn formatting_removes_shadowed_constant_template_fields() {
    let locals = Locals::new();
    let key: RValue = Literal::String(b"name".to_vec()).into();
    let table = Table(vec![
        (Some(key.clone()), Literal::Number(number(0.0)).into()),
        (Some(key), Literal::Number(number(7.0)).into()),
    ]);

    assert_eq!(table.to_string(&locals), "{\n\tname = 7\n}");
}

#[test]
fn a_residual_set_list_becomes_one_store_for_each_value() {
    let mut locals = Locals::new();
    let t = local(&mut locals, "t");
    let block = Block(vec![
        SetList::new(t, 3, vec![numeral(1.0), numeral(2.0)], None).into(),
        Return::new(vec![t.into()]).into(),
    ]);

    let (lowered, count) = lower_residual_set_lists(block);

    assert_eq!(count, 1);
    assert_eq!(lowered.to_string(&locals), "t[3] = 1\nt[4] = 2\nreturn t");
}

#[test]
fn keys_beyond_the_exact_ones_are_stored_as_they_are_held() {
    let mut locals = Locals::new();
    let t = local(&mut locals, "t");
    let block = Block(vec![
        SetList::new(t, 9_007_199_254_740_992, vec![numeral(1.0), numeral(2.0)], None).into(),
        SetList::new(t, 10_000_000_000_000_000, vec![numeral(3.0)], None).into(),
        SetList::new(t, 1 << 63, vec![numeral(4.0)], None).into(),
    ]);

    let (lowered, count) = lower_residual_set_lists(block);

    assert_eq!(count, 3);
    assert_eq!(
        lowered.to_string(&locals),
        "t[9007199254740992] = 1\nt[9007199254740992] = 2\nt[1e16] = 3\nt[9.223372036854776e18] = 4"
    );
}

#[test]
fn a_set_list_with_an_open_tail_is_left_alone() {
    let mut locals = Locals::new();
    let t = local(&mut locals, "t");
    let tail = Call::new(Global::from("produce").into(), Vec::new());
    let block = Block(vec![SetList::new(
        t,
        1,
        vec![numeral(1.0)],
        Some(tail.into()),
    )
    .into()]);

    let (lowered, count) = lower_residual_set_lists(block);

    assert_eq!(count, 0);
    assert!(matches!(lowered.0[0], Statement::SetList(_)));
}

#[test]
fn slots_that_hold_nil_are_dropped() {
    let mut locals = Locals::new();
    let t = local(&mut locals, "t");
    let table = Table(vec![
        (
            Some(Literal::String(b"gone".to_vec()).into()),
            Literal::Nil.into(),
        ),
        (
            Some(Literal::String(b"kept".to_vec()).into()),
            numeral(1.0),
        ),
    ]);
    let block = Block(vec![
        Assign::new(vec![t.into()], vec![table.into()]).into(),
    ]);

    let dropped = drop_unfilled_table_slots(block);

    assert_eq!(dropped.to_string(&locals), "t = { kept = 1 }");
}

#[test]
fn indentation_follows_the_mode() {
    let mut locals = Locals::new();
    let x = local(&mut locals, "x");
    let block = Block(vec![While::new(
        Literal::Boolean(true).into(),
        Block(vec![Do::new(Block(vec![Assign::new(
            vec![x.into()],
            vec![numeral(1.5)],
        )
        .into()]))
        .into()]),
    )
    .into()]);

    assert_eq!(
        Formatter::format(&block, &locals, IndentationMode::Spaces(2)),
        "while true do\n  do\n    x = 1.5\n  end\nend"
    );
    assert_eq!(
        Formatter::format(&block, &locals, IndentationMode::Tab),
        "while true do\n\tdo\n\t\tx = 1.5\n\tend\nend"
    );
}

#[test]
fn branches_chain_into_elseif() {
    let mut locals = Locals::new();
    let a = local(&mut locals, "a");
    let b = local(&mut locals, "b");
    let inner = If::new(
        b.into(),
        Block(vec![Return::new(vec![numeral(2.0)]).into()]),
        Block(vec![Return::new(vec![numeral(3.0)]).into()]),
    );
    let outer = If::new(
        a.into(),
        Block(vec![Return::new(vec![numeral(1.0)]).into()]),
        Block(vec![inner.into()]),
    );

    assert_eq!(
        outer.to_string(&locals),
        "if a then\n\treturn 1\nelseif b then\n\treturn 2\nelse\n\treturn 3\nend"
    );
}

#[test]
fn a_repeat_loop_ends_with_its_condition() {
    let mut locals = Locals::new();
    let done = local(&mut locals, "done");
    let block = Block(vec![Repeat::new(
        done.into(),
        Block(vec![Call::new(Global::from("work").into(), Vec::new()).into()]),
    )
    .into()]);

    assert_eq!(block.to_string(&locals), "repeat\n\twork()\nuntil done");
}

#[test]
fn a_class_lists_its_properties_and_methods() {
    let mut locals = Locals::new();
    let target = local(&mut locals, "Point");
    let receiver = local(&mut locals, "self");
    let mut class = Class::new(target, "Point".to_owned(), vec!["x".to_owned()]);
    class.methods.push((
        "get".to_owned(),
        Closure {
            function: Box::new(Function {
                parameters: vec![receiver],
                is_method: true,
                body: Block(vec![Return::new(vec![Index::new(
                    receiver.into(),
                    Literal::String(b"x".to_vec()).into(),
                )
                .into()])
                .into()]),
                ..Function::default()
            }),
            upvalues: Vec::new(),
        }
        .into(),
    ));

    let written = class.to_string(&locals);

    assert!(written.starts_with("class Point\n"), "{written}");
    assert!(written.contains("x"), "{written}");
    assert!(written.contains("return self.x"), "{written}");
    assert!(written.ends_with("end"), "{written}");
}

#[test]
fn a_conditional_operand_is_grouped() {
    let mut locals = Locals::new();
    let c = local(&mut locals, "c");
    let value = Conditional::new(c.into(), numeral(1.0), numeral(2.0));
    let sum = medal::ast::Binary::new(
        value.into(),
        numeral(3.0),
        medal::ast::BinaryOperation::Add,
    );

    assert_eq!(
        sum.to_string(&locals),
        "(if c then 1 else 2) + 3"
    );
}

#[test]
fn locals_without_a_name_are_told_apart_by_number() {
    let mut locals = Locals::new();
    let first = RcLocal::new(&mut locals, Local::new(None));
    let second = RcLocal::new(&mut locals, Local::new(None));

    assert_eq!(first.to_string(&locals), "UNNAMED_0");
    assert_eq!(second.to_string(&locals), "UNNAMED_1");
}
