//! Checking that locals are declared where they are used.

use medal::ast::binding_validation::{validate_bindings, BindingAccess};
use rustc_hash::FxHashSet;
use medal::ast::{
    Assign, Block, Closure, Function, Literal, Local, Locals, RValue, RcLocal, Repeat, Return,
    Statement, Upvalue,
};

fn local(locals: &mut Locals, name: &str) -> RcLocal {
    RcLocal::new(locals, Local::new(Some(name.to_owned())))
}

#[test]
fn repeat_body_declaration_is_visible_to_condition_only() {
    let mut locals = Locals::new();
    let inside = local(&mut locals, "inside");
    let repeat = Repeat::new(
        RValue::Local(inside),
        Block(vec![{
            let mut declaration = Assign::new(
                vec![inside.into()],
                vec![Literal::Boolean(true).into()],
            );
            declaration.prefix = true;
            declaration.into()
        }]),
    );
    let repeat = Statement::from(repeat);
    let valid = Block(vec![repeat.clone()]);
    assert!(validate_bindings(&valid, &FxHashSet::default(), &locals).is_ok());

    let invalid = Block(vec![
        repeat,
        Return::new(vec![inside.into()]).into(),
    ]);
    let error = validate_bindings(&invalid, &FxHashSet::default(), &locals).unwrap_err();
    assert_eq!(error.access, BindingAccess::Read);
    assert_eq!(error.local, "inside");
}

#[test]
fn undeclared_capture_is_rejected_but_recursive_local_function_is_allowed() {
    let mut locals = Locals::new();
    let captured = local(&mut locals, "captured");
    let closure_function = Function::default();
    let closure = Closure {
        function: Box::new(
            closure_function),
        upvalues: vec![Upvalue::Ref(captured.clone())],
    };
    let invalid = Block(vec![Return::new(vec![closure.clone().into()]).into()]);
    assert!(validate_bindings(&invalid, &FxHashSet::default(), &locals).is_err());

    let mut declaration = Assign::new(vec![captured.into()], vec![RValue::Closure(closure)]);
    declaration.prefix = true;
    assert!(
        validate_bindings(
            &Block(vec![declaration.into()]),
            &FxHashSet::default(),
            &locals
        )
        .is_ok()
    );
}
