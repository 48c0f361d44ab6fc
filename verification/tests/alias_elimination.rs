//! Replacing aliases by what they stand for.

use medal::ast::{
    Assign, Block, Call, Closure, Function, Global, LValue, Literal, Local, LocalRw, Locals,
    Number, RValue, RcLocal, Return, Upvalue,
};

fn number(value: f64) -> Number {
    if value.fract() == 0.0 {
        Number::Integer(value as i128)
    } else {
        let mut buffer = ryu::Buffer::new();
        Number::Decimal(buffer.format_finite(value).to_owned())
    }
}

fn eliminate_aliases(block: &mut Block) -> usize {
    let (left, count) = medal::ast::alias_elimination::eliminate_aliases(std::mem::take(block));
    *block = left;
    count
}

#[test]
fn eliminates_single_use_alias_after_pure_values() {
    let mut locals = Locals::new();
    let source = RcLocal::new(&mut locals, Local::new(None));
    let alias = RcLocal::new(&mut locals, Local::new(None));
    let mut block = Block(vec![
        Assign::new(
            vec![LValue::Local(alias.clone())],
            vec![RValue::Local(source.clone())],
        )
        .into(),
        Return::new(vec![
            Literal::String(b"prefix".to_vec()).into(),
            RValue::Local(alias.clone()),
        ])
        .into(),
    ]);

    assert_eq!(eliminate_aliases(&mut block), 1);
    assert_eq!(block.len(), 1);
    assert!(!block.0[0].values_read().contains(&alias));
    assert!(block.0[0].values_read().contains(&source));
}

#[test]
fn keeps_alias_when_source_changes_before_use() {
    let mut locals = Locals::new();
    let source = RcLocal::new(&mut locals, Local::new(None));
    let alias = RcLocal::new(&mut locals, Local::new(None));
    let mut block = Block(vec![
        Assign::new(vec![alias.clone().into()], vec![source.clone().into()]).into(),
        Assign::new(
            vec![source.clone().into()],
            vec![Literal::Number(number(2.0)).into()],
        )
        .into(),
        Return::new(vec![alias.clone().into()]).into(),
    ]);

    assert_eq!(eliminate_aliases(&mut block), 0);
    assert_eq!(block.len(), 3);
}

#[test]
fn keeps_snapshot_alias_when_call_runs_before_use() {
    let mut locals = Locals::new();
    let source = RcLocal::new(&mut locals, Local::new(None));
    let alias = RcLocal::new(&mut locals, Local::new(None));
    let call = Call::new(Global::from("mutate").into(), Vec::new());
    let mut block = Block(vec![
        Assign::new(vec![alias.clone().into()], vec![source.clone().into()]).into(),
        Return::new(vec![call.into(), alias.clone().into()]).into(),
    ]);

    assert_eq!(eliminate_aliases(&mut block), 0);
    assert!(block.0[0].values_written().contains(&alias));
}

#[test]
fn keeps_snapshot_alias_when_call_occurs_before_use_statement() {
    let mut locals = Locals::new();
    let source = RcLocal::new(&mut locals, Local::new(None));
    let alias = RcLocal::new(&mut locals, Local::new(None));
    let call = Call::new(Global::from("mutate").into(), Vec::new());
    let mut block = Block(vec![
        Assign::new(vec![alias.clone().into()], vec![source.clone().into()]).into(),
        call.into(),
        Return::new(vec![alias.clone().into()]).into(),
    ]);

    assert_eq!(eliminate_aliases(&mut block), 0);
    assert!(block.0[0].values_written().contains(&alias));
}

#[test]
fn keeps_snapshot_alias_when_global_lookup_runs_before_use() {
    let mut locals = Locals::new();
    let source = RcLocal::new(&mut locals, Local::new(None));
    let alias = RcLocal::new(&mut locals, Local::new(None));
    let mut block = Block(vec![
        Assign::new(vec![alias.clone().into()], vec![source.clone().into()]).into(),
        Return::new(vec![
            Global::from("possibly_dynamic").into(),
            alias.clone().into(),
        ])
        .into(),
    ]);

    assert_eq!(eliminate_aliases(&mut block), 0);
    assert!(block.0[0].values_written().contains(&alias));
}

#[test]
fn keeps_alias_captured_by_reference() {
    let mut locals = Locals::new();
    let source = RcLocal::new(&mut locals, Local::new(None));
    let alias = RcLocal::new(&mut locals, Local::new(None));
    let holder = RcLocal::new(&mut locals, Local::new(None));
    let closure = Closure {
        function: Box::new(
            Function::default()),
        upvalues: vec![Upvalue::Ref(alias.clone())],
    };
    let mut block = Block(vec![
        Assign::new(vec![alias.clone().into()], vec![source.clone().into()]).into(),
        Assign::new(vec![holder.clone().into()], vec![closure.into()]).into(),
        Assign::new(
            vec![source.clone().into()],
            vec![Literal::Number(number(2.0)).into()],
        )
        .into(),
        Return::new(vec![holder.into()]).into(),
    ]);

    assert_eq!(eliminate_aliases(&mut block), 0);
    assert!(block.0[0].values_written().contains(&alias));
}
