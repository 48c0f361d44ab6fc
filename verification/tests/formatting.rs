//! Writing programs down.

use medal::ast::{
    Assign, Binary, BinaryOperation, Block, Call, Closure, Comment, Conditional, Empty, Function,
    Global, Index, LValue, Literal, Local, Locals, MethodCall, Number, NumericFor, RValue, RcLocal,
    ResultDemand, Return, Select, Statement, Table, Upvalue, VarArg,
};

fn number(value: f64) -> Number {
    if value.fract() == 0.0 {
        Number::Integer(value as i128)
    } else {
        let mut buffer = ryu::Buffer::new();
        Number::Decimal(buffer.format_finite(value).to_owned())
    }
}

fn local(locals: &mut Locals, name: &str) -> RcLocal {
    RcLocal::new(locals, Local::new(Some(name.to_owned())))
}

#[test]
fn separates_call_from_following_parenthesized_table_call() {
    let locals = Locals::new();
    let first = Call::new(Global::from("first").into(), Vec::new());
    let callable = Table(vec![(None, Global::from("callback").into())]);
    let indexed = Index::new(callable.into(), Literal::Number(number(1.0)).into());
    let second = Call::new(indexed.into(), Vec::new());
    let block = Block(vec![first.into(), second.into()]);

    assert_eq!(block.to_string(&locals), "first();\n({ callback })[1]()");
}

#[test]
fn compound_formats_local_update() {
    let mut locals = Locals::new();
    let value = local(&mut locals, "value");
    let increment = local(&mut locals, "increment");
    let assign = Assign::new(
        vec![LValue::Local(value.clone())],
        vec![Binary::new(value.into(), increment.into(), BinaryOperation::Add).into()],
    );

    assert_eq!(assign.to_string(&locals), "value += increment");
}

#[test]
fn compound_formats_every_supported_operator() {
    let mut locals = Locals::new();
    let operations = [
        (BinaryOperation::Add, "+="),
        (BinaryOperation::Sub, "-="),
        (BinaryOperation::Mul, "*="),
        (BinaryOperation::Div, "/="),
        (BinaryOperation::IDiv, "//="),
        (BinaryOperation::Mod, "%="),
        (BinaryOperation::Pow, "^="),
        (BinaryOperation::Concat, "..="),
    ];

    for (operation, syntax) in operations {
        let value = local(&mut locals, "value");
        let assign = Assign::new(
            vec![LValue::Local(value.clone())],
            vec![Binary::new(value.into(), local(&mut locals, "next").into(), operation).into()],
        );
        assert_eq!(assign.to_string(&locals), format!("value {syntax} next"));
    }
}

#[test]
fn compound_formats_stable_index_update() {
    let mut locals = Locals::new();
    let object = local(&mut locals, "object");
    let key = local(&mut locals, "key");
    let increment = local(&mut locals, "increment");
    let index = Index::new(object.into(), key.into());
    let assign = Assign::new(
        vec![LValue::Index(index.clone())],
        vec![Binary::new(RValue::Index(index), increment.into(), BinaryOperation::Add).into()],
    );

    assert_eq!(assign.to_string(&locals), "object[key] += increment");
}

#[test]
fn compound_keeps_non_equivalent_assignments_expanded() {
    let mut locals = Locals::new();
    let value = local(&mut locals, "value");
    let other = local(&mut locals, "other");
    let increment = local(&mut locals, "increment");

    let different_left = Assign::new(
        vec![LValue::Local(value.clone())],
        vec![
            Binary::new(
                other.clone().into(),
                increment.clone().into(),
                BinaryOperation::Add,
            )
            .into(),
        ],
    );
    let reversed = Assign::new(
        vec![LValue::Local(value.clone())],
        vec![Binary::new(other.into(), value.clone().into(), BinaryOperation::Add).into()],
    );
    let logical = Assign::new(
        vec![LValue::Local(value.clone())],
        vec![Binary::new(value.clone().into(), increment.into(), BinaryOperation::And).into()],
    );
    let multiple = Assign::new(
        vec![LValue::Local(value), LValue::Local(local(&mut locals, "second"))],
        vec![RValue::Local(local(&mut locals, "first")), RValue::Local(local(&mut locals, "next"))],
    );

    assert_eq!(different_left.to_string(&locals), "value = other + increment");
    assert_eq!(reversed.to_string(&locals), "value = other + value");
    assert_eq!(logical.to_string(&locals), "value = value and increment");
    assert_eq!(multiple.to_string(&locals), "value, second = first, next");
}

#[test]
fn compound_keeps_effectful_index_components_expanded() {
    let mut locals = Locals::new();
    let key = local(&mut locals, "key");
    let increment = local(&mut locals, "increment");
    let object = Call::new(Global::from("fetch").into(), Vec::new());
    let index = Index::new(object.into(), key.into());
    let assign = Assign::new(
        vec![LValue::Index(index.clone())],
        vec![Binary::new(RValue::Index(index), increment.into(), BinaryOperation::Add).into()],
    );

    assert_eq!(
        assign.to_string(&locals),
        "(fetch())[key] = (fetch())[key] + increment"
    );

    let dynamic_global = Index::new(Global::from("object").into(), local(&mut locals, "key").into());
    let global_assign = Assign::new(
        vec![LValue::Index(dynamic_global.clone())],
        vec![
            Binary::new(
                dynamic_global.into(),
                local(&mut locals, "increment").into(),
                BinaryOperation::Add,
            )
            .into(),
        ],
    );
    let calculated_key = Binary::new(
        local(&mut locals, "left").into(),
        local(&mut locals, "right").into(),
        BinaryOperation::Add,
    );
    let calculated = Index::new(local(&mut locals, "object").into(), calculated_key.into());
    let calculated_assign = Assign::new(
        vec![LValue::Index(calculated.clone())],
        vec![
            Binary::new(
                calculated.into(),
                local(&mut locals, "increment").into(),
                BinaryOperation::Add,
            )
            .into(),
        ],
    );

    assert!(!global_assign.to_string(&locals).contains("+="));
    assert!(!calculated_assign.to_string(&locals).contains("+="));
}

#[test]
fn selected_call_stays_single_result_in_assignment_tail() {
    let mut locals = Locals::new();
    let selected = Select::Call(Call::new(Global::from("produce").into(), Vec::new()));
    let assign = Assign::new(
        vec![
            LValue::Local(local(&mut locals, "first")),
            LValue::Local(local(&mut locals, "second")),
        ],
        vec![Literal::Number(number(1.0)).into(), selected.into()],
    );

    assert_eq!(assign.to_string(&locals), "first, second = 1, produce()");

    let selected = Select::Call(Call::new(Global::from("produce").into(), Vec::new()));
    let assign = Assign::new(
        vec![
            LValue::Local(local(&mut locals, "first")),
            LValue::Local(local(&mut locals, "second")),
        ],
        vec![selected.into()],
    );
    assert_eq!(assign.to_string(&locals), "first, second = (produce())");
}

#[test]
fn result_demand_matrix_preserves_fixed_and_open_list_semantics() {
    let mut locals = Locals::new();
    let selected_call = Select::Call(Call::new(Global::from("produce").into(), Vec::new()))
        .into_rvalue(ResultDemand::Exact(1));
    let exact_call = Select::Call(Call::new(Global::from("produce").into(), Vec::new()))
        .into_rvalue(ResultDemand::Exact(2));
    let call_assign = Assign::new(
        vec![
            LValue::Local(local(&mut locals, "first")),
            LValue::Local(local(&mut locals, "second")),
        ],
        vec![exact_call],
    );

    let exact_method = Select::MethodCall(MethodCall::new(
        local(&mut locals, "object").into(),
        "produce".to_owned(),
        Vec::new(),
    ))
    .into_rvalue(ResultDemand::Exact(1));
    let method_return = Return::new(vec![exact_method]);
    let open_method = Select::MethodCall(MethodCall::new(
        local(&mut locals, "object").into(),
        "produce".to_owned(),
        Vec::new(),
    ))
    .into_rvalue(ResultDemand::Open);
    let open_method_return = Return::new(vec![open_method]);

    let exact_vararg = Select::VarArg(VarArg).into_rvalue(ResultDemand::Exact(3));
    let vararg_assign = Assign::new(
        vec![
            LValue::Local(local(&mut locals, "a")),
            LValue::Local(local(&mut locals, "b")),
            LValue::Local(local(&mut locals, "c")),
        ],
        vec![exact_vararg],
    );
    let open_vararg = Select::VarArg(VarArg).into_rvalue(ResultDemand::Open);
    let open_vararg_return = Return::new(vec![Literal::Number(number(1.0)).into(), open_vararg]);

    let open_call = Select::Call(Call::new(Global::from("produce").into(), Vec::new()))
        .into_rvalue(ResultDemand::Open);
    let open_return = Return::new(vec![Literal::Number(number(1.0)).into(), open_call]);

    assert_eq!(
        Return::new(vec![selected_call]).to_string(&locals),
        "return (produce())"
    );
    assert_eq!(call_assign.to_string(&locals), "first, second = produce()");
    assert_eq!(method_return.to_string(&locals), "return (object:produce())");
    assert_eq!(open_method_return.to_string(&locals), "return object:produce()");
    assert_eq!(vararg_assign.to_string(&locals), "a, b, c = ...");
    assert_eq!(open_vararg_return.to_string(&locals), "return 1, ...");
    assert_eq!(open_return.to_string(&locals), "return 1, produce()");
    assert!(!ResultDemand::Exact(0).has_values());
}

#[test]
fn conditional_tail_disambiguates_following_parenthesized_call() {
    let mut locals = Locals::new();
    let conditional = Conditional::new(
        local(&mut locals, "condition").into(),
        local(&mut locals, "selected").into(),
        local(&mut locals, "fallback").into(),
    );
    let result = local(&mut locals, "result");
    let next = Call::new(Table::default().into(), Vec::new());
    let block = Block(vec![
        Assign::new(vec![result.into()], vec![conditional.into()]).into(),
        next.into(),
    ]);

    assert_eq!(
        block.to_string(&locals),
        "result = if condition then selected else fallback;\n({})()"
    );
}

#[test]
fn sequential_table_field_keeps_selected_final_call_closed() {
    let locals = Locals::new();
    let selected = Select::Call(Call::new(Global::from("produce").into(), Vec::new()));
    let table = Table(vec![(Some(Literal::Number(number(1.0)).into()), selected.into())]);

    assert_eq!(table.to_string(&locals), "{ (produce()) }");
}

#[test]
fn explicit_key_collision_after_positional_prefix_stays_explicit() {
    let locals = Locals::new();
    let table = Table(vec![
        (None, Literal::String(b"first".to_vec()).into()),
        (
            Some(Literal::Number(number(1.0)).into()),
            Literal::String(b"replacement".to_vec()).into(),
        ),
    ]);

    assert_eq!(table.to_string(&locals), "{ \"first\", [1] = \"replacement\" }");
}

#[test]
fn fractional_numeric_table_key_stays_explicit() {
    let locals = Locals::new();
    let table = Table(vec![(
        Some(Literal::Number(number(1.5)).into()),
        Literal::String(b"value".to_vec()).into(),
    )]);

    assert_eq!(table.to_string(&locals), "{ [1.5] = \"value\" }");
}

/// The shape a Roblox GUI descriptor array is written in: one element per
/// line, each a nested record hundreds of columns wide. Neither the
/// nesting nor the width breaks the element up.
#[test]
fn a_wide_nested_descriptor_element_stays_on_one_line() {
    let locals = Locals::new();
    let properties = Table(
        [
            ("BackgroundTransparency", 1.0),
            ("BorderSizePixel", 0.0),
            ("ZIndex", 10.0),
        ]
        .into_iter()
        .map(|(name, value)| {
            (
                Some(Literal::String(name.as_bytes().to_vec()).into()),
                RValue::from(Literal::Number(number(value))),
            )
        })
        .chain([(
            Some(Literal::String(b"Name".to_vec()).into()),
            RValue::from(Literal::String(b"Main".to_vec())),
        )])
        .chain([(
            Some(Literal::String(b"Size".to_vec()).into()),
            Call::new(
                Index::new(
                    Global::from("UDim2").into(),
                    Literal::String(b"new".to_vec()).into(),
                )
                .into(),
                vec![
                    Literal::Number(number(0.0)).into(),
                    Literal::Number(number(500.0)).into(),
                    Literal::Number(number(0.0)).into(),
                    Literal::Number(number(20.0)).into(),
                ],
            )
            .into(),
        )])
        .collect::<Vec<_>>(),
    );
    let element = Table(vec![
        (None, Literal::Number(number(1.0)).into()),
        (None, Literal::String(b"Frame".to_vec()).into()),
        (None, properties.into()),
    ]);

    assert_eq!(
        element.to_string(&locals),
        "{ 1, \"Frame\", { BackgroundTransparency = 1, BorderSizePixel = 0, ZIndex = 10, \
         Name = \"Main\", Size = UDim2.new(0, 500, 0, 20) } }"
    );
}

#[test]
fn a_table_holding_a_closure_with_a_body_takes_one_field_per_line() {
    let locals = Locals::new();
    let closure = Closure {
        function: Box::new(Function {
            id: 0,
            body: Block(vec![Return::new(vec![Literal::Number(number(1.0)).into()]).into()]),
            ..Default::default()
        }),
        upvalues: Vec::new(),
    };
    let table = Table(vec![
        (
            Some(Literal::String(b"handler".to_vec()).into()),
            closure.into(),
        ),
        (
            Some(Literal::String(b"name".to_vec()).into()),
            Literal::String(b"x".to_vec()).into(),
        ),
    ]);

    assert_eq!(
        table.to_string(&locals),
        "{\n\thandler = function()\n\t\treturn 1\n\tend,\n\tname = \"x\"\n}"
    );
}

/// A closure nested well below the table still breaks it up: the fields
/// have no single line to share once one of them holds statements.
#[test]
fn a_closure_nested_inside_a_field_still_breaks_the_table_up() {
    let mut locals = Locals::new();
    let closure = Closure {
        function: Box::new(Function {
            id: 0,
            body: Block(vec![Return::new(vec![Literal::Number(number(1.0)).into()]).into()]),
            ..Default::default()
        }),
        upvalues: Vec::new(),
    };
    let table = Table(vec![(
        None,
        Table(vec![(
            None,
            Call::new(Global::from("wrap").into(), vec![closure.into()]).into(),
        )])
        .into(),
    )]);

    let formatted = table.to_string(&locals);

    assert!(formatted.starts_with("{\n\t"), "{formatted}");
}

#[test]
fn a_short_record_table_stays_on_one_line() {
    let locals = Locals::new();
    let table = Table(vec![
        (
            Some(Literal::String(b"name".to_vec()).into()),
            Literal::String(b"value".to_vec()).into(),
        ),
        (
            Some(Literal::String(b"count".to_vec()).into()),
            Literal::Number(number(3.0)).into(),
        ),
    ]);

    assert_eq!(table.to_string(&locals), "{ name = \"value\", count = 3 }");
}

#[test]
fn a_table_past_the_safety_valve_takes_one_field_per_line() {
    let mut locals = Locals::new();
    let table = Table(
        (0..20)
            .map(|index| {
                (
                    Some(Literal::String(format!("field{index}").into_bytes()).into()),
                    RValue::from(Literal::String(
                        format!("value number {index} of this very long record").into_bytes(),
                    )),
                )
            })
            .collect(),
    );

    let formatted = table.to_string(&locals);

    assert!(formatted.starts_with("{\n\tfield0 = "), "{formatted}");
    assert_eq!(formatted.matches('\n').count(), 21);
}

#[test]
fn unnamed_recursive_local_closure_uses_scoped_function_declaration() {
    let mut locals = Locals::new();
    let recurse = local(&mut locals, "recurse");
    let function = Function::default();
    let closure = Closure {
        function: Box::new(function),
        upvalues: vec![Upvalue::Ref(recurse.clone())],
    };
    let mut assign = Assign::new(vec![LValue::Local(recurse)], vec![RValue::Closure(closure)]);
    assign.prefix = true;

    assert!(assign.to_string(&locals).starts_with("local function recurse()"));
}

#[test]
fn a_loop_is_not_set_off_from_its_neighbours() {
    let mut locals = Locals::new();
    let counter = local(&mut locals, "i");
    let block = Block(vec![
        Assign::new(vec![local(&mut locals, "a").into()], vec![Literal::Number(number(1.0)).into()]).into(),
        NumericFor::new(
            Literal::Number(number(1.0)).into(),
            Literal::Number(number(2.0)).into(),
            Literal::Number(number(1.0)).into(),
            counter,
            Block(vec![
                Assign::new(vec![local(&mut locals, "b").into()], vec![Literal::Number(number(2.0)).into()]).into(),
            ]),
        )
        .into(),
        Assign::new(vec![local(&mut locals, "c").into()], vec![Literal::Number(number(3.0)).into()]).into(),
    ]);

    let formatted = block.to_string(&locals);

    assert_eq!(formatted, "a = 1\nfor i = 1, 2 do\n\tb = 2\nend\nc = 3");
}

#[test]
fn consecutive_single_line_statements_stay_tight() {
    let mut locals = Locals::new();
    let block = Block(vec![
        Assign::new(vec![local(&mut locals, "a").into()], vec![Literal::Number(number(1.0)).into()]).into(),
        Assign::new(vec![local(&mut locals, "b").into()], vec![Literal::Number(number(2.0)).into()]).into(),
        Assign::new(vec![local(&mut locals, "c").into()], vec![Literal::Number(number(3.0)).into()]).into(),
    ]);

    assert_eq!(block.to_string(&locals), "a = 1\nb = 2\nc = 3");
}

#[test]
fn two_statement_body_return_stays_tight() {
    let mut locals = Locals::new();
    let block = Block(vec![
        Assign::new(vec![local(&mut locals, "a").into()], vec![Literal::Number(number(1.0)).into()]).into(),
        Return::new(vec![local(&mut locals, "a").into()]).into(),
    ]);

    assert_eq!(block.to_string(&locals), "a = 1\nreturn a");
}

#[test]
fn a_return_is_not_set_off_from_the_work_before_it() {
    let mut locals = Locals::new();
    let block = Block(vec![
        Assign::new(vec![local(&mut locals, "a").into()], vec![Literal::Number(number(1.0)).into()]).into(),
        Assign::new(vec![local(&mut locals, "b").into()], vec![Literal::Number(number(2.0)).into()]).into(),
        Return::new(vec![local(&mut locals, "a").into()]).into(),
    ]);

    assert_eq!(block.to_string(&locals), "a = 1\nb = 2\nreturn a");
}

#[test]
fn a_loop_before_a_return_is_not_set_off_from_it() {
    let mut locals = Locals::new();
    let counter = local(&mut locals, "i");
    let block = Block(vec![
        NumericFor::new(
            Literal::Number(number(1.0)).into(),
            Literal::Number(number(2.0)).into(),
            Literal::Number(number(1.0)).into(),
            counter,
            Block(vec![
                Assign::new(vec![local(&mut locals, "b").into()], vec![Literal::Number(number(2.0)).into()]).into(),
            ]),
        )
        .into(),
        Return::new(vec![local(&mut locals, "a").into()]).into(),
    ]);

    assert_eq!(block.to_string(&locals), "for i = 1, 2 do\n\tb = 2\nend\nreturn a");
}

#[test]
fn a_function_definition_is_set_off_from_its_neighbours() {
    let mut locals = Locals::new();
    let body = Block(vec![Return::new(vec![Literal::Number(number(1.0)).into()]).into()]);
    let closure = Closure {
        function: Box::new(Function {
            id: 0,
            body,
            ..Default::default()
        }),
        upvalues: Vec::new(),
    };
    let block = Block(vec![
        Assign::new(vec![local(&mut locals, "a").into()], vec![Literal::Number(number(1.0)).into()]).into(),
        Assign::new(vec![Global::from("work").into()], vec![closure.into()]).into(),
        Assign::new(vec![local(&mut locals, "c").into()], vec![Literal::Number(number(3.0)).into()]).into(),
    ]);

    assert_eq!(
        block.to_string(&locals),
        "a = 1\n\nwork = function()\n\treturn 1\nend\n\nc = 3"
    );
}

#[test]
fn a_long_run_of_declarations_is_set_off_from_the_work_using_them() {
    let mut locals = Locals::new();
    let mut statements = (0..3)
        .map(|index| {
            let mut declaration = Assign::new(
                vec![local(&mut locals, &format!("v{index}")).into()],
                vec![Literal::Number(number(index as f64)).into()],
            );
            declaration.prefix = true;
            Statement::from(declaration)
        })
        .collect::<Vec<_>>();
    statements.push(Call::new(Global::from("use").into(), vec![local(&mut locals, "v0").into()]).into());
    let block = Block(statements);

    assert_eq!(
        block.to_string(&locals),
        "local v0 = 0\nlocal v1 = 1\nlocal v2 = 2\n\nuse(v0)"
    );
}

#[test]
fn a_short_run_of_declarations_stays_with_the_work_using_them() {
    let mut locals = Locals::new();
    let mut statements = (0..2)
        .map(|index| {
            let mut declaration = Assign::new(
                vec![local(&mut locals, &format!("v{index}")).into()],
                vec![Literal::Number(number(index as f64)).into()],
            );
            declaration.prefix = true;
            Statement::from(declaration)
        })
        .collect::<Vec<_>>();
    statements.push(Call::new(Global::from("use").into(), vec![local(&mut locals, "v0").into()]).into());
    let block = Block(statements);

    assert_eq!(block.to_string(&locals), "local v0 = 0\nlocal v1 = 1\nuse(v0)");
}

#[test]
fn a_lone_return_gains_no_leading_blank_line() {
    let mut locals = Locals::new();
    let block = Block(vec![Return::new(vec![local(&mut locals, "a").into()]).into()]);

    assert_eq!(block.to_string(&locals), "return a");
}

#[test]
fn empty_closure_value_is_not_treated_as_multiline() {
    let mut locals = Locals::new();
    let closure = Closure {
        function: Box::new(Function::default()),
        upvalues: Vec::new(),
    };
    let block = Block(vec![
        Assign::new(vec![local(&mut locals, "f").into()], vec![closure.into()]).into(),
        Assign::new(vec![local(&mut locals, "g").into()], vec![Literal::Number(number(1.0)).into()]).into(),
    ]);

    assert_eq!(block.to_string(&locals), "f = function() end\ng = 1");
}

#[test]
fn comment_before_multiline_statement_suppresses_blank_line() {
    let mut locals = Locals::new();
    let counter = local(&mut locals, "i");
    let block = Block(vec![
        Comment::new("note".to_owned()).into(),
        NumericFor::new(
            Literal::Number(number(1.0)).into(),
            Literal::Number(number(2.0)).into(),
            Literal::Number(number(1.0)).into(),
            counter,
            Block(vec![
                Assign::new(vec![local(&mut locals, "b").into()], vec![Literal::Number(number(2.0)).into()]).into(),
            ]),
        )
        .into(),
    ]);

    assert_eq!(block.to_string(&locals), "-- note\nfor i = 1, 2 do\n\tb = 2\nend");
}

#[test]
fn comment_after_multiline_statement_suppresses_blank_line() {
    let mut locals = Locals::new();
    let counter = local(&mut locals, "i");
    let block = Block(vec![
        NumericFor::new(
            Literal::Number(number(1.0)).into(),
            Literal::Number(number(2.0)).into(),
            Literal::Number(number(1.0)).into(),
            counter,
            Block(vec![
                Assign::new(vec![local(&mut locals, "b").into()], vec![Literal::Number(number(2.0)).into()]).into(),
            ]),
        )
        .into(),
        Comment::new("note".to_owned()).into(),
    ]);

    assert_eq!(block.to_string(&locals), "for i = 1, 2 do\n\tb = 2\nend\n-- note");
}

#[test]
fn empty_statement_neighbour_suppresses_blank_line_on_both_sides() {
    let mut locals = Locals::new();
    // Without the comment/empty suppression, the transition out of the
    // multi-line `for` loop would gain a second blank line on top of the
    // one the `Empty` statement's own (content-free) line already reads
    // as.
    let counter = local(&mut locals, "i");
    let block = Block(vec![
        NumericFor::new(
            Literal::Number(number(1.0)).into(),
            Literal::Number(number(2.0)).into(),
            Literal::Number(number(1.0)).into(),
            counter,
            Block(vec![
                Assign::new(vec![local(&mut locals, "b").into()], vec![Literal::Number(number(2.0)).into()]).into(),
            ]),
        )
        .into(),
        Empty {}.into(),
        Assign::new(vec![local(&mut locals, "a").into()], vec![Literal::Number(number(1.0)).into()]).into(),
    ]);

    assert_eq!(block.to_string(&locals), "for i = 1, 2 do\n\tb = 2\nend\n\na = 1");
}

#[test]
fn an_argument_list_past_the_column_budget_wraps_one_per_line() {
    let mut locals = Locals::new();
    let call = Call::new(
        local(&mut locals, "someFunctionWithAVeryLongName").into(),
        (0..8)
            .map(|index| RValue::Local(local(&mut locals, &format!("argumentNumber{index}WithALongName"))))
            .collect(),
    );
    let block = Block(vec![call.into()]);

    let formatted = block.to_string(&locals);

    assert!(formatted.contains(",\n"));
    assert!(formatted.lines().all(|line| line.len() <= 120));
}

#[test]
fn a_short_argument_list_stays_on_one_line() {
    let mut locals = Locals::new();
    let call = Call::new(
        local(&mut locals, "f").into(),
        vec![local(&mut locals, "a").into(), local(&mut locals, "b").into()],
    );
    let block = Block(vec![call.into()]);

    assert_eq!(block.to_string(&locals), "f(a, b)");
}

#[test]
fn an_apostrophe_is_not_escaped_in_a_double_quoted_string() {
    let literal = Literal::String(b"Couldn't find a server.".to_vec());

    assert_eq!(literal.to_string(), "\"Couldn't find a server.\"");
}

#[test]
fn the_delimiting_quote_and_backslash_are_still_escaped() {
    let literal = Literal::String(br#"a "b" \ c"#.to_vec());

    assert_eq!(literal.to_string(), r#""a \"b\" \\ c""#);
}

#[test]
fn a_single_huge_string_argument_is_never_wrapped_and_stays_intact() {
    let mut locals = Locals::new();
    // A single argument can never gain a sibling to strip off its line
    // (`format_arg_list` requires `list.len() > 1` to even consider
    // wrapping), so this holds by construction. Pinned anyway: a Lua
    // string cannot be split without inserting `..`, which would change
    // the AST, so this call staying on one line — with the string
    // untouched — is the property that makes this whole feature
    // formatter-only. This must never regress silently.
    let huge = "x".repeat(300);
    let call = Call::new(
        local(&mut locals, "f").into(),
        vec![RValue::Literal(Literal::String(huge.clone().into_bytes()))],
    );
    let block = Block(vec![call.into()]);

    let formatted = block.to_string(&locals);

    assert!(!formatted.contains(",\n"));
    assert!(formatted.contains(&huge));
}
