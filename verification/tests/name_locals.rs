//! Naming locals by what they are used for.

use medal::ast::{
    Assign, Binary, BinaryOperation, Block, Call, Closure, Function, GenericFor, Global, Index,
    LValue, Literal, Local, Locals, MethodCall, Number, NumericFor, RValue, RcLocal, Return, Table,
    Unary, UnaryOperation, Upvalue,
};

fn number(value: f64) -> Number {
    if value.fract() == 0.0 {
        Number::Integer(value as i128)
    } else {
        let mut buffer = ryu::Buffer::new();
        Number::Decimal(buffer.format_finite(value).to_owned())
    }
}

fn local(locals: &mut Locals, name: Option<&str>) -> RcLocal {
    RcLocal::new(locals, Local::new(name.map(str::to_owned)))
}

fn local_name(locals: &Locals, local: RcLocal) -> String {
    locals.name(local).unwrap()
}

fn name_locals(block: &mut Block, rename: bool, locals: &mut Locals) {
    *block = medal::ast::name_locals::name_locals(std::mem::take(block), rename, locals);
}

fn declaration(local: &RcLocal, value: RValue) -> Assign {
    let mut assign = Assign::new(vec![LValue::Local(local.clone())], vec![value]);
    assign.prefix = true;
    assign
}

#[test]
fn infers_numeric_and_generic_for_roles() {
    let mut locals = Locals::new();
    let numeric_index = local(&mut locals, None);
    let pair_key = local(&mut locals, None);
    let pair_value = local(&mut locals, None);
    let ipairs_index = local(&mut locals, None);
    let entry = local(&mut locals, None);
    let invoked_index = local(&mut locals, None);
    let invoked_callback = local(&mut locals, None);
    let unknown_value = local(&mut locals, None);
    let values = local(&mut locals, Some("values"));
    let pairs = Call::new(
        Global::compiler_import(b"pairs".to_vec()).into(),
        vec![values.clone().into()],
    );
    let ipairs = Call::new(
        Global::compiler_import(b"ipairs".to_vec()).into(),
        vec![values.into()],
    );
    let mut block = Block(vec![
        NumericFor::new(
            Literal::Number(number(1.0)).into(),
            Literal::Number(number(3.0)).into(),
            Literal::Number(number(1.0)).into(),
            numeric_index.clone(),
            Block::default(),
        )
        .into(),
        GenericFor::new(
            vec![pair_key.clone(), pair_value.clone()],
            vec![pairs.into()],
            Block::default(),
        )
        .into(),
        GenericFor::new(
            vec![ipairs_index.clone(), entry.clone()],
            vec![ipairs.clone().into()],
            Block::default(),
        )
        .into(),
        GenericFor::new(
            vec![invoked_index.clone(), invoked_callback.clone()],
            vec![ipairs.into()],
            Block(vec![
                Call::new(invoked_callback.clone().into(), Vec::new()).into(),
            ]),
        )
        .into(),
        GenericFor::new(
            vec![unknown_value.clone()],
            vec![Global::from("iterate").into()],
            Block::default(),
        )
        .into(),
    ]);

    name_locals(&mut block, false, &mut locals);

    assert_eq!(local_name(&locals, numeric_index), "index");
    assert_eq!(local_name(&locals, pair_key), "key");
    assert_eq!(local_name(&locals, pair_value), "value");
    assert_eq!(local_name(&locals, ipairs_index), "index2");
    assert_eq!(local_name(&locals, entry), "entry");
    assert_eq!(local_name(&locals, invoked_index), "index3");
    assert_eq!(local_name(&locals, invoked_callback), "callback");
    assert_ne!(local_name(&locals, unknown_value), "entry");
    assert_ne!(local_name(&locals, unknown_value), "value");
}

#[test]
fn infers_returned_table_and_invoked_parameter_roles() {
    let mut locals = Locals::new();
    let result = local(&mut locals, None);
    let callback = local(&mut locals, None);
    let function = Function {
        id: 0,
        parameters: vec![callback.clone()],
        body: Block(vec![
            Call::new(callback.clone().into(), Vec::new()).into(),
            Return::new(Vec::new()).into(),
        ]),
        ..Function::default()
    };
    let closure = Closure {
        function: Box::new(function),
        upvalues: Vec::new(),
    };
    let worker = local(&mut locals, None);
    let mut block = Block(vec![
        declaration(&result, Table::default().into()).into(),
        declaration(&worker, closure.into()).into(),
        Return::new(vec![result.clone().into()]).into(),
    ]);

    name_locals(&mut block, false, &mut locals);

    assert_eq!(local_name(&locals, result), "result");
    assert_eq!(local_name(&locals, callback), "callback");
}

#[test]
fn keeps_valid_debug_names_but_rejects_collisions_and_keywords() {
    let mut locals = Locals::new();
    let first = local(&mut locals, Some("value"));
    let duplicate = local(&mut locals, Some("value"));
    let keyword = local(&mut locals, Some("end"));
    let mut block = Block(vec![
        declaration(&first, Literal::Nil.into()).into(),
        declaration(&duplicate, Literal::Nil.into()).into(),
        declaration(&keyword, Literal::Nil.into()).into(),
    ]);

    name_locals(&mut block, false, &mut locals);

    assert_eq!(local_name(&locals, first), "value");
    assert_ne!(local_name(&locals, duplicate), "value");
    assert_ne!(local_name(&locals, keyword), "end");
}

#[test]
fn generated_fallback_does_not_expose_upvalue_marker() {
    let mut locals = Locals::new();
    let captured = local(&mut locals, None);
    let closure_local = local(&mut locals, None);
    let closure = Closure {
        function: Box::new(Function::default()),
        upvalues: vec![Upvalue::Ref(captured.clone())],
    };
    let mut block = Block(vec![
        declaration(&captured, Literal::Nil.into()).into(),
        declaration(&closure_local, closure.into()).into(),
    ]);

    name_locals(&mut block, false, &mut locals);

    assert!(!local_name(&locals, captured).contains("_u_"));
}

#[test]
fn sibling_methods_can_each_keep_self() {
    let mut locals = Locals::new();
    let first_receiver = local(&mut locals, Some("self"));
    let second_receiver = local(&mut locals, Some("self"));
    let method = |receiver: RcLocal| Closure {
        function: Box::new(Function {
            id: 0,
            parameters: vec![receiver.clone()],
            is_method: true,
            body: Block(vec![Return::new(vec![receiver.into()]).into()]),
            ..Function::default()
        }),
        upvalues: Vec::new(),
    };
    let controller = Global::from("Controller");
    let mut block = Block(vec![
        Assign::new(
            vec![
                Index::new(
                    controller.clone().into(),
                    Literal::String(b"first".to_vec()).into(),
                )
                .into(),
            ],
            vec![method(first_receiver.clone()).into()],
        )
        .into(),
        Assign::new(
            vec![
                Index::new(
                    controller.into(),
                    Literal::String(b"second".to_vec()).into(),
                )
                .into(),
            ],
            vec![method(second_receiver.clone()).into()],
        )
        .into(),
    ]);

    name_locals(&mut block, false, &mut locals);

    assert_eq!(local_name(&locals, first_receiver), "self");
    assert_eq!(local_name(&locals, second_receiver), "self");
}

#[test]
fn captured_outer_self_keeps_recovered_function_semantically_bound() {
    let mut locals = Locals::new();
    let outer_self = local(&mut locals, Some("self"));
    let receiver = local(&mut locals, Some("self"));
    let function = Function {
        id: 0,
        parameters: vec![receiver.clone()],
        is_method: true,
        body: Block(vec![Return::new(vec![receiver.clone().into()]).into()]),
        ..Function::default()
    };
    let closure = Closure {
        function: Box::new(function),
        upvalues: vec![Upvalue::Copy(outer_self.clone())],
    };
    let mut block = Block(vec![
        declaration(&outer_self, Table::default().into()).into(),
        Assign::new(
            vec![
                Index::new(
                    Global::from("Controller").into(),
                    Literal::String(b"method".to_vec()).into(),
                )
                .into(),
            ],
            vec![closure.into()],
        )
        .into(),
    ]);

    name_locals(&mut block, false, &mut locals);

    let RValue::Closure(closure) = &block.0[1].as_assign().unwrap().right[0] else {
        panic!("the method stays a closure");
    };
    assert!(!closure.function.is_method);
    assert_ne!(local_name(&locals, receiver), "self");
}

#[test]
fn infers_callback_collection_from_independent_fields() {
    let mut locals = Locals::new();
    let callbacks = local(&mut locals, None);
    let start_key = local(&mut locals, Some("startKey"));
    let stop_key = local(&mut locals, Some("stopKey"));
    let closure = || Closure {
        function: Box::new(Function::default()),
        upvalues: Vec::new(),
    };
    let field =
        |key: &RcLocal| Index::new(callbacks.clone().into(), key.clone().into()).into();
    let mut block = Block(vec![
        declaration(&callbacks, Table::default().into()).into(),
        Assign::new(vec![field(&start_key)], vec![RValue::Closure(closure())]).into(),
        Assign::new(vec![field(&stop_key)], vec![RValue::Closure(closure())]).into(),
    ]);

    name_locals(&mut block, false, &mut locals);

    assert_eq!(local_name(&locals, callbacks), "callbacks");
}

#[test]
fn does_not_misname_static_method_table_as_callbacks() {
    let mut locals = Locals::new();
    let class_table = local(&mut locals, None);
    let closure = || Closure {
        function: Box::new(Function::default()),
        upvalues: Vec::new(),
    };
    let field = |name: &[u8]| {
        Index::new(
            class_table.clone().into(),
            Literal::String(name.to_vec()).into(),
        )
        .into()
    };
    let mut block = Block(vec![
        declaration(&class_table, Table::default().into()).into(),
        Assign::new(vec![field(b"new")], vec![RValue::Closure(closure())]).into(),
        Assign::new(vec![field(b"dispatch")], vec![RValue::Closure(closure())]).into(),
    ]);

    name_locals(&mut block, false, &mut locals);

    assert_ne!(local_name(&locals, class_table), "callbacks");
}

#[test]
fn infers_indexed_callable_but_not_local_helper_as_callback() {
    let mut locals = Locals::new();
    let registry = local(&mut locals, Some("registry"));
    let key = local(&mut locals, Some("key"));
    let indexed_callback = local(&mut locals, None);
    let helper = local(&mut locals, None);
    let helper_closure = Closure {
        function: Box::new(Function::default()),
        upvalues: Vec::new(),
    };
    let mut block = Block(vec![
        declaration(
            &indexed_callback,
            Index::new(registry.into(), key.into()).into(),
        )
        .into(),
        declaration(&helper, helper_closure.into()).into(),
        Call::new(indexed_callback.clone().into(), Vec::new()).into(),
        Call::new(helper.clone().into(), Vec::new()).into(),
    ]);

    name_locals(&mut block, false, &mut locals);

    assert_eq!(local_name(&locals, indexed_callback), "callback");
    assert_ne!(local_name(&locals, helper), "callback");
}

#[test]
fn inner_scope_never_shadows_a_visible_outer_name() {
    let mut locals = Locals::new();
    let outer = local(&mut locals, None);
    let inner = local(&mut locals, None);
    let mut inner_body = Block(vec![
        declaration(&inner, Literal::Number(number(2.0)).into()).into(),
        Return::new(vec![inner.clone().into()]).into(),
    ]);
    let closure = Closure {
        function: Box::new(Function {
            id: 0,
            name: None,
            parameters: Vec::new(),
            is_variadic: false,
            is_method: false,
            body: std::mem::take(&mut inner_body),
        }),
        upvalues: Vec::new(),
    };
    let holder = local(&mut locals, None);
    let mut block = Block(vec![
        declaration(&outer, Literal::Number(number(1.0)).into()).into(),
        declaration(&holder, closure.into()).into(),
        Return::new(vec![outer.clone().into()]).into(),
    ]);

    name_locals(&mut block, false, &mut locals);

    assert_ne!(local_name(&locals, outer), local_name(&locals, inner));
}

#[test]
fn sibling_scopes_may_reuse_a_name() {
    let mut locals = Locals::new();
    let first = local(&mut locals, None);
    let second = local(&mut locals, None);
    let mut left = Block(vec![declaration(&first, Literal::Number(number(1.0)).into()).into()]);
    let mut right = Block(vec![declaration(&second, Literal::Number(number(2.0)).into()).into()]);
    let make = |body: &mut Block| Closure {
        function: Box::new(Function {
            id: 0,
            name: None,
            parameters: Vec::new(),
            is_variadic: false,
            is_method: false,
            body: std::mem::take(body),
        }),
        upvalues: Vec::new(),
    };
    let left_holder = local(&mut locals, None);
    let right_holder = local(&mut locals, None);
    let mut block = Block(vec![
        declaration(&left_holder, make(&mut left).into()).into(),
        declaration(&right_holder, make(&mut right).into()).into(),
    ]);

    name_locals(&mut block, false, &mut locals);

    assert_eq!(local_name(&locals, first), local_name(&locals, second));
}

#[test]
fn table_initializer_indexed_in_a_loop_is_named_for_its_shape() {
    let mut locals = Locals::new();
    let registers = local(&mut locals, None);
    let counter = local(&mut locals, None);
    let body = Block(vec![
        Assign::new(
            vec![
                Index::new(registers.clone().into(), counter.clone().into()).into(),
            ],
            vec![Literal::Number(number(1.0)).into()],
        )
        .into(),
    ]);
    let mut block = Block(vec![
        declaration(&registers, Table::default().into()).into(),
        NumericFor::new(
            Literal::Number(number(1.0)).into(),
            Literal::Number(number(4.0)).into(),
            Literal::Number(number(1.0)).into(),
            counter,
            body,
        )
        .into(),
        Return::new(vec![registers.clone().into()]).into(),
    ]);

    name_locals(&mut block, false, &mut locals);

    assert_eq!(local_name(&locals, registers), "registers");
}

#[test]
fn string_initializer_is_named_text() {
    let mut locals = Locals::new();
    let message = local(&mut locals, None);
    let mut block = Block(vec![
        declaration(&message, Literal::String(b"hello".to_vec()).into()).into(),
        Return::new(vec![message.clone().into()]).into(),
    ]);

    name_locals(&mut block, false, &mut locals);

    assert_eq!(local_name(&locals, message), "text");
}

#[test]
fn table_pack_result_is_named_packed() {
    let mut locals = Locals::new();
    let packed = local(&mut locals, None);
    // `Global::new` (Dynamic origin) rather than `compiler_import`: hardened
    // and reconstructed bytecode commonly reaches `table.pack` through plain
    // GETGLOBAL/GETTABLEKS, so the match must not require the compiler's
    // GETIMPORT encoding.
    let call = Call::new(
        Index::new(
            Global::new(b"table".to_vec()).into(),
            Literal::String(b"pack".to_vec()).into(),
        )
        .into(),
        Vec::new(),
    );
    let mut block = Block(vec![
        declaration(&packed, call.into()).into(),
        Return::new(vec![packed.clone().into()]).into(),
    ]);

    name_locals(&mut block, false, &mut locals);

    assert_eq!(local_name(&locals, packed), "packed");
}

#[test]
fn library_call_without_a_lookup_entry_falls_back_to_result() {
    let mut locals = Locals::new();
    let outcome = local(&mut locals, None);
    let call = Call::new(
        Index::new(
            Global::new(b"math".to_vec()).into(),
            Literal::String(b"random".to_vec()).into(),
        )
        .into(),
        Vec::new(),
    );
    let mut block = Block(vec![
        declaration(&outcome, call.into()).into(),
        Return::new(vec![outcome.clone().into()]).into(),
    ]);

    name_locals(&mut block, false, &mut locals);

    assert_eq!(local_name(&locals, outcome), "result");
}

#[test]
fn dotted_call_on_a_lookalike_namespace_does_not_match() {
    let mut locals = Locals::new();
    let outcome = local(&mut locals, None);
    let call = Call::new(
        Index::new(
            Global::new(b"notthetable".to_vec()).into(),
            Literal::String(b"pack".to_vec()).into(),
        )
        .into(),
        Vec::new(),
    );
    let mut block = Block(vec![
        declaration(&outcome, call.into()).into(),
        Return::new(vec![outcome.clone().into()]).into(),
    ]);

    name_locals(&mut block, false, &mut locals);

    assert_eq!(local_name(&locals, outcome), "result");
}

#[test]
fn colon_method_call_named_pack_does_not_match() {
    let mut locals = Locals::new();
    let outcome = local(&mut locals, None);
    let receiver = local(&mut locals, Some("receiver"));
    let call = MethodCall::new(receiver.into(), "pack".to_owned(), Vec::new());
    let mut block = Block(vec![
        declaration(&outcome, call.into()).into(),
        Return::new(vec![outcome.clone().into()]).into(),
    ]);

    name_locals(&mut block, false, &mut locals);

    assert_eq!(local_name(&locals, outcome), "result");
}

#[test]
fn indexing_a_local_alias_of_table_does_not_match() {
    let mut locals = Locals::new();
    let outcome = local(&mut locals, None);
    let aliased_table = local(&mut locals, Some("t"));
    let call = Call::new(
        Index::new(
            aliased_table.into(),
            Literal::String(b"pack".to_vec()).into(),
        )
        .into(),
        Vec::new(),
    );
    let mut block = Block(vec![
        declaration(&outcome, call.into()).into(),
        Return::new(vec![outcome.clone().into()]).into(),
    ]);

    name_locals(&mut block, false, &mut locals);

    assert_eq!(local_name(&locals, outcome), "result");
}

#[test]
fn setmetatable_read_as_a_value_is_not_named_object() {
    let mut locals = Locals::new();
    let outcome = local(&mut locals, None);
    let mut block = Block(vec![
        declaration(&outcome, Global::new(b"setmetatable".to_vec()).into()).into(),
        Return::new(vec![outcome.clone().into()]).into(),
    ]);

    name_locals(&mut block, false, &mut locals);

    assert_eq!(local_name(&locals, outcome), "value");
}

#[test]
fn a_local_with_no_inferable_shape_is_named_value_not_v1() {
    let mut locals = Locals::new();
    // A bare local-to-local alias: none of the specific patterns
    // (`Index`, `Global`, `Call`, ...) match it, so this only passes if
    // `value` is a genuine catch-all rather than a couple of hardcoded
    // cases.
    let unknown = local(&mut locals, None);
    let source = local(&mut locals, Some("source"));
    let mut block = Block(vec![
        declaration(&unknown, source.clone().into()).into(),
        Return::new(vec![unknown.clone().into()]).into(),
    ]);

    name_locals(&mut block, false, &mut locals);

    assert_eq!(local_name(&locals, unknown), "value");
}

#[test]
fn or_default_initializer_with_no_other_evidence_is_named_value() {
    let mut locals = Locals::new();
    let unknown = local(&mut locals, None);
    let parameter = local(&mut locals, None);
    let mut block = Block(vec![
        declaration(
            &unknown,
            Binary::new(
                parameter.clone().into(),
                Table::default().into(),
                BinaryOperation::Or,
            )
            .into(),
        )
        .into(),
        Return::new(vec![unknown.clone().into()]).into(),
    ]);

    name_locals(&mut block, false, &mut locals);

    assert_eq!(local_name(&locals, unknown), "value");
}

#[test]
fn arithmetic_wrapping_a_length_is_named_count() {
    let mut locals = Locals::new();
    let offsets = local(&mut locals, Some("offsets"));
    let span = local(&mut locals, None);
    let mut block = Block(vec![
        declaration(
            &span,
            Binary::new(
                Unary::new(offsets.into(), UnaryOperation::Length).into(),
                Literal::Number(number(1.0)).into(),
                BinaryOperation::Sub,
            )
            .into(),
        )
        .into(),
        Return::new(vec![span.clone().into()]).into(),
    ]);

    name_locals(&mut block, false, &mut locals);

    assert_eq!(local_name(&locals, span), "count");
}

#[test]
fn plain_arithmetic_with_no_length_operand_is_left_unclassified() {
    let mut locals = Locals::new();
    // `last - first`: visibly a computed difference, so it is not
    // "nothing inferable" either — naming it `value` or `count` would
    // both assert something the classifier cannot actually justify.
    let first = local(&mut locals, Some("first"));
    let last = local(&mut locals, Some("last"));
    let span = local(&mut locals, None);
    let mut block = Block(vec![
        declaration(
            &span,
            Binary::new(
                last.into(),
                first.into(),
                BinaryOperation::Sub,
            )
            .into(),
        )
        .into(),
        Return::new(vec![span.clone().into()]).into(),
    ]);

    name_locals(&mut block, false, &mut locals);

    assert_ne!(local_name(&locals, span), "count");
    assert_ne!(local_name(&locals, span), "value");
}

#[test]
fn single_computed_index_write_outside_a_loop_does_not_claim_registers() {
    let mut locals = Locals::new();
    // `t[hash(key)] = v; return t` — a cache or hash table, not an array
    // being filled. Promoting this to `registers` would assert
    // array/register-file semantics the code does not show.
    let cache = local(&mut locals, None);
    let key = local(&mut locals, None);
    let mut block = Block(vec![
        declaration(&cache, Table::default().into()).into(),
        Assign::new(
            vec![Index::new(cache.clone().into(), key.into()).into()],
            vec![Literal::Number(number(1.0)).into()],
        )
        .into(),
        Return::new(vec![cache.clone().into()]).into(),
    ]);

    name_locals(&mut block, false, &mut locals);

    assert_ne!(local_name(&locals, cache), "registers");
}

#[test]
fn empty_table_filled_with_named_fields_is_named_record() {
    let mut locals = Locals::new();
    let record = local(&mut locals, None);
    let mut block = Block(vec![
        declaration(&record, Table::default().into()).into(),
        Assign::new(
            vec![
                Index::new(
                    record.clone().into(),
                    Literal::String(b"name".to_vec()).into(),
                )
                .into(),
            ],
            vec![Literal::String(b"value".to_vec()).into()],
        )
        .into(),
        Return::new(vec![record.clone().into()]).into(),
    ]);

    name_locals(&mut block, false, &mut locals);

    assert_eq!(local_name(&locals, record), "record");
}

#[test]
fn positional_literal_index_write_does_not_claim_record() {
    let mut locals = Locals::new();
    let list = local(&mut locals, None);
    let mut block = Block(vec![
        declaration(&list, Table::default().into()).into(),
        Assign::new(
            vec![Index::new(list.clone().into(), Literal::Number(number(1.0)).into()).into()],
            vec![Literal::Number(number(2.0)).into()],
        )
        .into(),
        Return::new(vec![list.clone().into()]).into(),
    ]);

    name_locals(&mut block, false, &mut locals);

    assert_ne!(local_name(&locals, list), "record");
}
