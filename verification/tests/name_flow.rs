//! Names that flow from parameters to arguments.

use medal::ast::name_flow::propagate_parameter_names;
use medal::ast::{
    Assign, Block, Call, Closure, Function, LValue, Literal, Local, Locals, Number, RValue,
    RcLocal, Statement, Table,
};

fn number(value: f64) -> Number {
    if value.fract() == 0.0 {
        Number::Integer(value as i128)
    } else {
        let mut buffer = ryu::Buffer::new();
        Number::Decimal(buffer.format_finite(value).to_owned())
    }
}

fn local(locals: &mut Locals, name: Option<&str>) -> RcLocal {
    RcLocal::new(locals, Local::new(name.map(str::to_owned)))
}

fn declaration(local: &RcLocal, value: RValue) -> Assign {
    let mut assign = Assign::new(vec![LValue::Local(local.clone())], vec![value]);
    assign.prefix = true;
    assign
}

#[test]
fn argument_takes_the_name_of_the_parameter_it_feeds() {
    let mut locals = Locals::new();
    // local pushValue = function(stack, value) end
    // local anonymous = {}
    // pushValue(anonymous, 1)
    let stack_parameter = local(&mut locals, Some("stack"));
    let value_parameter = local(&mut locals, Some("value"));
    let callee = local(&mut locals, Some("pushValue"));
    let argument = local(&mut locals, None);

    let closure = Closure {
        function: Box::new(Function {
            id: 0,
            name: None,
            parameters: vec![stack_parameter, value_parameter],
            is_variadic: false,
            is_method: false,
            body: Block::default(),
        }),
        upvalues: Vec::new(),
    };

    let block = Block(vec![
        declaration(&callee, closure.into()).into(),
        declaration(&argument, Table::default().into()).into(),
        Statement::Call(Call::new(
            callee.clone().into(),
            vec![argument.clone().into(), Literal::Number(number(1.0)).into()],
        )),
    ]);

    propagate_parameter_names(&block, &mut locals);

    assert_eq!(locals.name(argument).as_deref(), Some("stack"));
}

#[test]
fn conflicting_call_sites_leave_the_local_unnamed() {
    let mut locals = Locals::new();
    let argument = local(&mut locals, None);

    let make = |locals: &mut Locals, parameter_name: &str| Closure {
        function: Box::new(Function {
            id: 0,
            name: None,
            parameters: vec![local(locals, Some(parameter_name))],
            is_variadic: false,
            is_method: false,
            body: Block::default(),
        }),
        upvalues: Vec::new(),
    };

    let first_callee = local(&mut locals, Some("first"));
    let second_callee = local(&mut locals, Some("second"));

    let block = Block(vec![
        declaration(&first_callee, make(&mut locals, "stack").into()).into(),
        declaration(&second_callee, make(&mut locals, "registry").into()).into(),
        Statement::Call(Call::new(
            first_callee.clone().into(),
            vec![argument.clone().into()],
        )),
        Statement::Call(Call::new(
            second_callee.clone().into(),
            vec![argument.clone().into()],
        )),
    ]);

    propagate_parameter_names(&block, &mut locals);

    assert_eq!(locals.name(argument), None);
}

#[test]
fn a_local_that_already_has_a_name_is_left_alone() {
    let mut locals = Locals::new();
    let callee = local(&mut locals, Some("pushValue"));
    let argument = local(&mut locals, Some("existing"));

    let closure = Closure {
        function: Box::new(Function {
            id: 0,
            name: None,
            parameters: vec![local(&mut locals, Some("stack"))],
            is_variadic: false,
            is_method: false,
            body: Block::default(),
        }),
        upvalues: Vec::new(),
    };

    let block = Block(vec![
        declaration(&callee, closure.into()).into(),
        Statement::Call(Call::new(
            callee.clone().into(),
            vec![argument.clone().into()],
        )),
    ]);

    propagate_parameter_names(&block, &mut locals);

    assert_eq!(locals.name(argument).as_deref(), Some("existing"));
}

#[test]
fn a_call_inside_a_closure_body_still_proposes_a_name() {
    let mut locals = Locals::new();
    let stack_parameter = local(&mut locals, Some("stack"));
    let callee = local(&mut locals, Some("pushValue"));
    let argument = local(&mut locals, None);

    let helper = Closure {
        function: Box::new(Function {
            id: 0,
            name: None,
            parameters: vec![stack_parameter],
            is_variadic: false,
            is_method: false,
            body: Block::default(),
        }),
        upvalues: Vec::new(),
    };

    let caller = Closure {
        function: Box::new(Function {
            id: 0,
            name: None,
            parameters: Vec::new(),
            is_variadic: false,
            is_method: false,
            body: Block(vec![
                declaration(&argument, Table::default().into()).into(),
                Statement::Call(Call::new(
                    callee.clone().into(),
                    vec![argument.clone().into()],
                )),
            ]),
        }),
        upvalues: Vec::new(),
    };

    let holder = local(&mut locals, Some("caller"));
    let block = Block(vec![
        declaration(&callee, helper.into()).into(),
        declaration(&holder, caller.into()).into(),
    ]);

    propagate_parameter_names(&block, &mut locals);

    assert_eq!(locals.name(argument).as_deref(), Some("stack"));
}
