//! Recovering function declarations.

use medal::ast::function_recovery::FunctionRecoveryStats;
use medal::ast::{
    Assign, Block, Closure, Function, Index, LValue, Literal, Local, Locals, RValue, RcLocal,
    Return,
};

fn local(locals: &mut Locals, name: &str) -> RcLocal {
    RcLocal::new(locals, Local::new(Some(name.to_owned())))
}

fn closure(name: Option<&str>, parameters: Vec<RcLocal>, body: Block) -> RValue {
    let function = Function {
        name: name.map(str::to_owned),
        parameters,
        body,
        ..Function::default()
    };
    Closure {
        function: Box::new(function),
        upvalues: Vec::new(),
    }
    .into()
}

fn recover_function_syntax(block: &mut Block, locals: &mut Locals) -> FunctionRecoveryStats {
    let (left, stats) =
        medal::ast::function_recovery::recover_function_syntax(std::mem::take(block), locals);
    *block = left;
    stats
}

#[test]
fn recovers_adjacent_recursive_local_function() {
    let mut locals = Locals::new();
    let callback = local(&mut locals, "callback");
    let body = Block(vec![Return::new(vec![callback.clone().into()]).into()]);
    let mut declaration = Assign::new(vec![callback.clone().into()], vec![Literal::Nil.into()]);
    declaration.prefix = true;
    let mut block = Block(vec![
        declaration.into(),
        Assign::new(
            vec![callback.clone().into()],
            vec![closure(Some("callback"), Vec::new(), body)],
        )
        .into(),
    ]);

    let stats = recover_function_syntax(&mut block, &mut locals);

    assert_eq!(stats.local_functions, 1);
    assert_eq!(block.len(), 1);
    assert!(block.0[0].as_assign().unwrap().prefix);
    assert!(block.to_string(&locals).starts_with("local function callback()"));
}

#[test]
fn keeps_anonymous_recursive_assignment_after_declaration() {
    let mut locals = Locals::new();
    let callback = local(&mut locals, "callback");
    let body = Block(vec![Return::new(vec![callback.clone().into()]).into()]);
    let mut declaration = Assign::new(vec![callback.clone().into()], vec![Literal::Nil.into()]);
    declaration.prefix = true;
    let mut block = Block(vec![
        declaration.into(),
        Assign::new(
            vec![callback.clone().into()],
            vec![closure(None, Vec::new(), body)],
        )
        .into(),
    ]);

    let stats = recover_function_syntax(&mut block, &mut locals);

    assert_eq!(stats.local_functions, 0);
    assert_eq!(block.len(), 2);
    assert_eq!(
        block.to_string(&locals),
        "local callback = nil\ncallback = function()\n\treturn callback\nend"
    );
}

#[test]
fn recovers_receiver_backed_method_declaration() {
    let mut locals = Locals::new();
    let object = local(&mut locals, "Controller");
    let receiver = local(&mut locals, "receiver");
    let value = local(&mut locals, "value");
    let field = RValue::from(Literal::String(b"value".to_vec()));
    let receiver_field = Index::new(receiver.clone().into(), field.clone());
    let body = Block(vec![
        Assign::new(
            vec![LValue::Index(receiver_field.clone())],
            vec![value.clone().into()],
        )
        .into(),
        Return::new(vec![receiver_field.into()]).into(),
    ]);
    let target = Index::new(object.into(), Literal::String(b"update".to_vec()).into());
    let mut block = Block(vec![
        Assign::new(
            vec![LValue::Index(target)],
            vec![closure(Some("update"), vec![receiver.clone(), value], body)],
        )
        .into(),
    ]);

    let stats = recover_function_syntax(&mut block, &mut locals);
    let output = block.to_string(&locals);

    assert_eq!(stats.methods, 1);
    assert!(output.starts_with("function Controller:update(value)"));
    assert!(output.contains("self.value = value"));
}

#[test]
fn keeps_static_function_when_first_parameter_is_not_a_receiver() {
    let mut locals = Locals::new();
    let module = local(&mut locals, "Module");
    let value = local(&mut locals, "value");
    let body = Block(vec![Return::new(vec![value.clone().into()]).into()]);
    let target = Index::new(module.into(), Literal::String(b"identity".to_vec()).into());
    let mut block = Block(vec![
        Assign::new(
            vec![LValue::Index(target)],
            vec![closure(Some("identity"), vec![value], body)],
        )
        .into(),
    ]);

    let stats = recover_function_syntax(&mut block, &mut locals);
    let output = block.to_string(&locals);

    assert_eq!(stats.methods, 0);
    assert!(output.starts_with("function Module.identity(value)"));
}

#[test]
fn keeps_anonymous_callback_field_as_assignment() {
    let mut locals = Locals::new();
    let handlers = local(&mut locals, "handlers");
    let context = local(&mut locals, "context");
    let first = Index::new(
        context.clone().into(),
        Literal::String(b"first".to_vec()).into(),
    );
    let second = Index::new(
        context.clone().into(),
        Literal::String(b"second".to_vec()).into(),
    );
    let body = Block(vec![Return::new(vec![first.into(), second.into()]).into()]);
    let target = Index::new(handlers.into(), Literal::String(b"ready".to_vec()).into());
    let mut block = Block(vec![
        Assign::new(
            vec![LValue::Index(target)],
            vec![closure(None, vec![context], body)],
        )
        .into(),
    ]);

    let stats = recover_function_syntax(&mut block, &mut locals);
    let output = block.to_string(&locals);

    assert_eq!(stats.methods, 0);
    assert!(output.starts_with("handlers.ready = function(context)"));
}
