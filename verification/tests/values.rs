//! Giving every definition of a function a local of its own.

use indexmap::IndexMap;
use medal::ast::{
    Assign, Binary, BinaryOperation, Block, Call, Close, Closure, Global, Literal, Local, LocalRw,
    Locals, Number, RValue, RcLocal, Return, Statement, Table, Upvalue,
};
use medal::cfg::block::{BlockEdge, BranchType};
use medal::cfg::function::Function;
use medal::cfg::graph::NodeId;
use medal::cfg::provenance::{
    BindingIdentity, DebugLifetime, OriginSet, RegisterFamily, SourceOrigin,
};
use medal::cfg::ssa::construct::{construct, SsaError};
use medal::cfg::ssa::params::remove_unnecessary_params;
use medal::cfg::ssa::upvalues::{UpvalueAnalysisError, UpvaluesOpen};
use rustc_hash::{FxHashMap, FxHashSet};

fn number(value: i128) -> RValue {
    Literal::Number(Number::Integer(value)).into()
}

fn assign(local: RcLocal, value: RValue) -> Statement {
    Assign::new(vec![local.into()], vec![value]).into()
}

fn give_back(local: RcLocal) -> Statement {
    Return::new(vec![local.into()]).into()
}

fn closure_over(local: RcLocal) -> RValue {
    Closure {
        function: Default::default(),
        upvalues: vec![Upvalue::Ref(local)],
    }
    .into()
}

/// A local that the function knows of.
fn register(locals: &mut Locals, function: &mut Function, name: Option<&str>) -> RcLocal {
    let local = RcLocal::new(locals, Local::new(name.map(str::to_owned)));
    function.set_binding(local, BindingIdentity::local(0, local.id as usize));
    local
}

/// Gives a block its statements, each from an instruction of its own.
fn fill(function: &mut Function, node: NodeId, statements: Vec<Statement>) {
    let origins = (0..statements.len())
        .map(|index| {
            OriginSet::from_origin(SourceOrigin::new(
                0,
                node as usize * 100 + index,
                None,
                "MOVE",
            ))
        })
        .collect();
    function.replace_block(node, Block(statements));
    function.set_statement_origins(node, origins);
}

fn written(function: &Function) -> Vec<RcLocal> {
    function
        .nodes()
        .into_iter()
        .flat_map(|node| {
            function
                .block(node)
                .unwrap()
                .0
                .iter()
                .flat_map(|statement| statement.values_written())
                .collect::<Vec<_>>()
        })
        .collect()
}

fn all_different(locals: &[RcLocal]) -> bool {
    locals.iter().collect::<std::collections::BTreeSet<_>>().len() == locals.len()
}

/// `if c then x = 1 else x = 2 end return x`
fn diamond(locals: &mut Locals) -> (Function, RcLocal, [NodeId; 4]) {
    let mut function = Function::new(0);
    let x = register(locals, &mut function, Some("x"));
    let top = function.new_block();
    let left = function.new_block();
    let right = function.new_block();
    let bottom = function.new_block();
    function.set_entry(top);
    fill(&mut function, left, vec![assign(x, number(1))]);
    fill(&mut function, right, vec![assign(x, number(2))]);
    fill(&mut function, bottom, vec![give_back(x)]);
    function.add_edge(top, left, BlockEdge::new(BranchType::Then));
    function.add_edge(top, right, BlockEdge::new(BranchType::Else));
    function.add_edge(left, bottom, BlockEdge::default());
    function.add_edge(right, bottom, BlockEdge::default());
    (function, x, [top, left, right, bottom])
}

#[test]
fn values_that_meet_are_passed_to_a_parameter() {
    let mut locals = Locals::new();
    let (mut function, x, [_, left, right, bottom]) = diamond(&mut locals);

    let (count, definitions, upvalues, groups) =
        construct(&mut function, &mut locals, &Vec::new()).unwrap();

    assert_eq!(count, 3);
    assert_eq!(definitions.len(), 1);
    assert_eq!(definitions[0].len(), 3);
    assert!(!definitions[0].contains(&x.id));
    assert!(upvalues.is_empty());
    assert!(groups.is_empty());
    let from_left = function.block(left).unwrap().0[0].values_written()[0];
    let from_right = function.block(right).unwrap().0[0].values_written()[0];
    let read = function.block(bottom).unwrap().0[0].values_read()[0];
    assert!(all_different(&[x, from_left, from_right, read]));
    for edge in function.edges_to_block(bottom) {
        assert_eq!(edge.weight.arguments.len(), 1);
        assert_eq!(edge.weight.arguments[0].0, read);
        let passed = edge.weight.arguments[0].1.as_local().unwrap();
        assert_eq!(
            passed,
            if edge.source == left {
                from_left
            } else {
                from_right
            }
        );
    }
    assert_eq!(locals.name(from_left).as_deref(), Some("x"));
    assert_eq!(locals.name(read).as_deref(), Some("x"));
}

#[test]
fn a_local_that_is_written_twice_becomes_two() {
    let mut locals = Locals::new();
    let mut function = Function::new(0);
    let x = register(&mut locals, &mut function, None);
    let node = function.new_block();
    function.set_entry(node);
    let sum = Binary::new(x.into(), number(1), BinaryOperation::Add);
    fill(
        &mut function,
        node,
        vec![assign(x, number(1)), assign(x, sum.into()), give_back(x)],
    );

    let (count, ..) = construct(&mut function, &mut locals, &Vec::new()).unwrap();

    assert_eq!(count, 2);
    let block = &function.block(node).unwrap().0;
    let first = block[0].values_written()[0];
    let second = block[1].values_written()[0];
    assert!(all_different(&[x, first, second]));
    assert_eq!(block[1].values_read(), vec![first]);
    assert_eq!(block[2].values_read(), vec![second]);
    assert!(all_different(&written(&function)));
}

#[test]
fn copies_are_dropped_and_their_names_are_kept() {
    let mut locals = Locals::new();
    let mut function = Function::new(0);
    let x = register(&mut locals, &mut function, None);
    let y = register(&mut locals, &mut function, None);
    let node = function.new_block();
    function.set_entry(node);
    fill(
        &mut function,
        node,
        vec![assign(x, number(1)), assign(y, x.into()), give_back(y)],
    );

    let (count, ..) = construct(&mut function, &mut locals, &Vec::new()).unwrap();

    assert_eq!(count, 2);
    let block = &function.block(node).unwrap().0;
    assert_eq!(block.len(), 2);
    assert_eq!(block[1].values_read(), block[0].values_written());
}

#[test]
fn blocks_that_never_run_are_taken_out() {
    let mut locals = Locals::new();
    let (mut function, x, [top, left, right, bottom]) = diamond(&mut locals);
    let lost = function.new_block();
    fill(&mut function, lost, vec![assign(x, number(3))]);
    function.add_edge(lost, bottom, BlockEdge::default());

    construct(&mut function, &mut locals, &Vec::new()).unwrap();

    assert!(!function.has_block(lost));
    assert_eq!(function.nodes(), vec![top, left, right, bottom]);
    assert_eq!(function.edges_to_block(bottom).len(), 2);
}

#[test]
fn a_parameter_that_every_edge_gives_one_value_goes_away() {
    let mut locals = Locals::new();
    let mut function = Function::new(0);
    let x = register(&mut locals, &mut function, Some("x"));
    let top = function.new_block();
    let bottom = function.new_block();
    function.set_entry(top);
    fill(&mut function, top, vec![assign(x, number(1))]);
    fill(&mut function, bottom, vec![give_back(x)]);
    function.add_edge(top, bottom, BlockEdge::new(BranchType::Then));
    function.add_edge(top, bottom, BlockEdge::new(BranchType::Else));

    construct(&mut function, &mut locals, &Vec::new()).unwrap();

    let defined = function.block(top).unwrap().0[0].values_written();
    assert_eq!(function.block(bottom).unwrap().0[0].values_read(), defined);
    let edges = function.edges_to_block(bottom);
    assert_eq!(edges.len(), 2);
    for edge in edges {
        assert!(edge.weight.arguments.is_empty());
    }
}

#[test]
fn parameters_take_their_values_at_the_entry() {
    let mut locals = Locals::new();
    let mut function = Function::new(0);
    let used = register(&mut locals, &mut function, Some("used"));
    let unused = register(&mut locals, &mut function, Some("unused"));
    let node = function.new_block();
    function.set_entry(node);
    function.set_parameters(vec![used, unused]);
    fill(&mut function, node, vec![give_back(used)]);

    construct(&mut function, &mut locals, &Vec::new()).unwrap();

    let read = function.block(node).unwrap().0[0].values_read()[0];
    assert_eq!(function.parameters()[0], read);
    assert_ne!(function.parameters()[0], used);
    assert_ne!(function.parameters()[1], unused);
    assert_eq!(locals.name(function.parameters()[0]).as_deref(), Some("used"));
    assert_eq!(locals.name(function.parameters()[1]), None);
}

#[test]
fn parameters_of_a_function_that_reads_nothing_stay() {
    let mut locals = Locals::new();
    let mut function = Function::new(0);
    let parameter = register(&mut locals, &mut function, Some("parameter"));
    let node = function.new_block();
    function.set_entry(node);
    function.set_parameters(vec![parameter]);

    let (count, ..) = construct(&mut function, &mut locals, &Vec::new()).unwrap();

    assert_eq!(count, 0);
    assert_eq!(*function.parameters(), vec![parameter]);
}

#[test]
fn values_that_a_closure_holds_stay_together() {
    let mut locals = Locals::new();
    let mut function = Function::new(0);
    let x = register(&mut locals, &mut function, None);
    let f = register(&mut locals, &mut function, None);
    let node = function.new_block();
    function.set_entry(node);
    fill(
        &mut function,
        node,
        vec![
            assign(x, number(1)),
            assign(f, closure_over(x)),
            assign(x, number(2)),
            Close { locals: vec![x] }.into(),
            give_back(x),
        ],
    );

    let (_, _, _, groups) = construct(&mut function, &mut locals, &Vec::new()).unwrap();

    let block = &function.block(node).unwrap().0;
    assert_eq!(block.len(), 4);
    assert!(block
        .iter()
        .all(|statement| !matches!(statement, Statement::Close(_))));
    let first = block[0].values_written()[0];
    let second = block[2].values_written()[0];
    assert_eq!(groups.len(), 1);
    assert_eq!(
        groups[0],
        FxHashSet::from_iter([first.id, second.id])
    );
}

#[test]
fn locals_from_around_the_function_are_listed_once_each() {
    let mut locals = Locals::new();
    let mut function = Function::new(0);
    let outer = register(&mut locals, &mut function, Some("outer"));
    let other = register(&mut locals, &mut function, Some("other"));
    let node = function.new_block();
    function.set_entry(node);
    fill(
        &mut function,
        node,
        vec![assign(outer, number(1)), assign(outer, number(2))],
    );

    let (_, _, upvalues, groups) =
        construct(&mut function, &mut locals, &vec![outer, other, outer]).unwrap();

    assert!(groups.is_empty());
    assert_eq!(upvalues.len(), 2);
    assert_eq!(upvalues[0].0, outer);
    assert_eq!(upvalues[0].1.len(), 2);
    assert_eq!(upvalues[1].0, other);
    assert!(upvalues[1].1.is_empty());
}

#[test]
fn a_local_from_around_the_function_is_not_passed_where_paths_meet() {
    let mut locals = Locals::new();
    let (mut function, x, [_, left, right, bottom]) = diamond(&mut locals);

    construct(&mut function, &mut locals, &vec![x]).unwrap();

    let from_left = function.block(left).unwrap().0[0].values_written()[0];
    let from_right = function.block(right).unwrap().0[0].values_written()[0];
    let read = function.block(bottom).unwrap().0[0].values_read()[0];
    assert!(all_different(&[x, from_left, from_right, read]));
    assert_eq!(arguments_into(&function, bottom), [0, 0]);
}

#[test]
fn a_capture_that_ends_on_one_path_only_is_refused() {
    let mut locals = Locals::new();
    let mut function = Function::new(0);
    let x = register(&mut locals, &mut function, None);
    let f = register(&mut locals, &mut function, None);
    let top = function.new_block();
    let left = function.new_block();
    let right = function.new_block();
    let bottom = function.new_block();
    function.set_entry(top);
    fill(
        &mut function,
        top,
        vec![assign(x, number(1)), assign(f, closure_over(x))],
    );
    fill(&mut function, left, vec![Close { locals: vec![x] }.into()]);
    fill(&mut function, bottom, vec![give_back(x)]);
    function.add_edge(top, left, BlockEdge::new(BranchType::Then));
    function.add_edge(top, right, BlockEdge::new(BranchType::Else));
    function.add_edge(left, bottom, BlockEdge::default());
    function.add_edge(right, bottom, BlockEdge::default());

    let error = construct(&mut function, &mut locals, &Vec::new())
        .err()
        .unwrap();

    let SsaError::Upvalues(error) = error;
    assert!(matches!(
        error,
        UpvalueAnalysisError::PathDependentMerge { block } if block == bottom as usize
    ));
    assert_eq!(
        error.message(),
        format!("path-dependent upvalue openness at control-flow merge block {bottom}")
    );
}

#[test]
fn a_function_without_an_entry_has_no_openings() {
    let function = Function::new(0);
    let error = UpvaluesOpen::try_new(&function, &FxHashMap::default())
        .err()
        .unwrap();
    assert_eq!(
        error.message(),
        "unable to reserve bounded upvalue state: function has no control-flow entry"
    );
}

#[test]
fn a_definition_takes_the_name_that_its_register_carried() {
    let mut locals = Locals::new();
    let mut function = Function::new(0);
    let x = register(&mut locals, &mut function, None);
    let node = function.new_block();
    function.set_entry(node);
    function.set_register_family(
        x,
        RegisterFamily::new(
            0,
            1,
            BindingIdentity::local(0, 1),
            vec![
                DebugLifetime::new(b"first".to_vec(), 0, 1),
                DebugLifetime::new(b"second".to_vec(), 1, 2),
            ],
        ),
    );
    fill(
        &mut function,
        node,
        vec![assign(x, number(1)), assign(x, number(2))],
    );

    construct(&mut function, &mut locals, &Vec::new()).unwrap();

    let block = &function.block(node).unwrap().0;
    let first = block[0].values_written()[0];
    let second = block[1].values_written()[0];
    assert_eq!(locals.name(first).as_deref(), Some("first"));
    assert_eq!(locals.name(second).as_deref(), Some("second"));
}

#[test]
fn a_value_that_is_read_once_moves_into_its_reader() {
    let mut locals = Locals::new();
    let mut function = Function::new(0);
    let x = register(&mut locals, &mut function, Some("x"));
    let node = function.new_block();
    function.set_entry(node);
    let sum = Binary::new(number(1), number(2), BinaryOperation::Add);
    fill(&mut function, node, vec![assign(x, sum.into()), give_back(x)]);

    let changed = medal::cfg::ssa::inline::inline(&mut function, &FxHashMap::default(), &IndexMap::default());

    assert!(changed);
    let block = function.block(node).unwrap();
    assert_eq!(block.len(), 1);
    assert!(block.0[0].values_read().is_empty());
}

#[test]
fn a_value_that_is_read_twice_stays() {
    let mut locals = Locals::new();
    let mut function = Function::new(0);
    let x = register(&mut locals, &mut function, Some("x"));
    let node = function.new_block();
    function.set_entry(node);
    let produce = Call::new(Global::from("produce").into(), Vec::new());
    fill(
        &mut function,
        node,
        vec![
            assign(x, produce.into()),
            Return::new(vec![x.into(), x.into()]).into(),
        ],
    );

    medal::cfg::ssa::inline::inline(&mut function, &FxHashMap::default(), &IndexMap::default());

    let block = function.block(node).unwrap();
    assert_eq!(block.len(), 2);
    assert_eq!(block.0[1].values_read(), vec![x, x]);
}

#[test]
fn stores_into_a_fresh_table_become_its_fields() {
    let mut locals = Locals::new();
    let mut function = Function::new(0);
    let t = register(&mut locals, &mut function, Some("t"));
    let node = function.new_block();
    function.set_entry(node);
    let field = medal::ast::Index::new(t.into(), Literal::String(b"name".to_vec()).into());
    fill(
        &mut function,
        node,
        vec![
            assign(t, Table::default().into()),
            Assign::new(vec![field.into()], vec![number(1)]).into(),
            Return::new(vec![t.into(), t.into()]).into(),
        ],
    );

    let changed = medal::cfg::ssa::inline::inline(&mut function, &FxHashMap::default(), &IndexMap::default());

    assert!(changed);
    assert_eq!(
        function.block(node).unwrap().to_string(&locals),
        "t = { name = 1 }\nreturn t, t"
    );
}

#[test]
fn a_function_with_nothing_to_inline_is_told_to_be_unchanged() {
    let mut locals = Locals::new();
    let mut function = Function::new(0);
    let x = register(&mut locals, &mut function, Some("x"));
    let node = function.new_block();
    function.set_entry(node);
    fill(
        &mut function,
        node,
        vec![medal::ast::Empty {}.into(), give_back(x)],
    );

    let changed =
        medal::cfg::ssa::inline::inline(&mut function, &FxHashMap::default(), &IndexMap::default());

    assert!(!changed);
    assert_eq!(
        function.block(node).unwrap().to_string(&locals),
        "return x"
    );
}

#[test]
fn definitions_and_parameters_know_their_statements() {
    let mut locals = Locals::new();
    let (mut function, x, [_, left, right, bottom]) = diamond(&mut locals);

    construct(&mut function, &mut locals, &Vec::new()).unwrap();

    let origin = |node: NodeId| SourceOrigin::new(0, node as usize * 100, None, "MOVE");
    let from_left = function.block(left).unwrap().0[0].values_written()[0];
    let from_right = function.block(right).unwrap().0[0].values_written()[0];
    let read = function.block(bottom).unwrap().0[0].values_read()[0];
    let known = function.provenance();
    assert_eq!(known.origins(from_left).len(), 1);
    assert!(known.origins(from_left).contains(&origin(left)));
    assert_eq!(known.origins(from_right).len(), 1);
    assert!(known.origins(from_right).contains(&origin(right)));
    assert_eq!(known.origins(read).len(), 2);
    assert!(known.origins(read).contains(&origin(left)));
    assert!(known.origins(read).contains(&origin(right)));
    assert_eq!(known.origins(x).len(), 0);
    assert_eq!(
        known.binding(read),
        Some(&BindingIdentity::local(0, x.id as usize))
    );
}

/// An edge that gives parameters their arguments.
fn giving(branch: BranchType, arguments: &[(RcLocal, RcLocal)]) -> BlockEdge {
    let mut edge = BlockEdge::new(branch);
    for (parameter, argument) in arguments {
        edge.arguments.push((*parameter, (*argument).into()));
    }
    edge
}

fn arguments_into(function: &Function, node: NodeId) -> Vec<usize> {
    function
        .edges_to_block(node)
        .iter()
        .map(|edge| edge.weight.arguments.len())
        .collect()
}

/// A block that two edges lead to, and the locals `x`, `y`, `a` and `b`.
fn meeting(locals: &mut Locals) -> (Function, [RcLocal; 4], [NodeId; 3]) {
    let mut function = Function::new(0);
    let named = ["x", "y", "a", "b"].map(|name| register(locals, &mut function, Some(name)));
    let top = function.new_block();
    let side = function.new_block();
    let bottom = function.new_block();
    function.set_entry(top);
    (function, named, [top, side, bottom])
}

#[test]
fn a_renamed_parameter_that_is_given_two_locals_stays() {
    let mut locals = Locals::new();
    let (mut function, [x, y, a, b], [top, side, bottom]) = meeting(&mut locals);
    function.add_edge(top, side, BlockEdge::new(BranchType::Then));
    function.add_edge(top, bottom, giving(BranchType::Else, &[(x, a)]));
    function.add_edge(side, bottom, giving(BranchType::Unconditional, &[(x, b)]));
    let mut map: FxHashMap<u64, u64> = [(x.id, y.id)].into_iter().collect();

    assert!(!remove_unnecessary_params(&mut function, &mut map));

    assert_eq!(map.len(), 1);
    assert_eq!(map.get(&x.id), Some(&y.id));
    assert_eq!(arguments_into(&function, bottom), [1, 1]);
}

#[test]
fn a_renamed_parameter_is_replaced_under_its_new_name() {
    let mut locals = Locals::new();
    let (mut function, [x, y, a, b], [top, side, bottom]) = meeting(&mut locals);
    function.add_edge(top, side, BlockEdge::new(BranchType::Then));
    function.add_edge(top, bottom, giving(BranchType::Else, &[(x, a), (y, a)]));
    function.add_edge(
        side,
        bottom,
        giving(BranchType::Unconditional, &[(x, a), (y, b)]),
    );
    let mut map: FxHashMap<u64, u64> = [(x.id, y.id)].into_iter().collect();

    assert!(remove_unnecessary_params(&mut function, &mut map));

    assert_eq!(map.get(&x.id), Some(&y.id));
    assert_eq!(map.get(&y.id), Some(&a.id));
    assert_eq!(arguments_into(&function, bottom), [0, 0]);
}

#[test]
fn parameters_of_two_blocks_that_stand_for_each_other_are_replaced_once() {
    let mut locals = Locals::new();
    let (mut function, [x, y, _, _], [top, side, bottom]) = meeting(&mut locals);
    function.add_edge(top, side, giving(BranchType::Unconditional, &[(x, y)]));
    function.add_edge(side, bottom, giving(BranchType::Unconditional, &[(y, x)]));
    let mut map: FxHashMap<u64, u64> = FxHashMap::default();

    assert!(remove_unnecessary_params(&mut function, &mut map));

    assert_eq!(map.len(), 1);
    assert_eq!(map.get(&x.id), Some(&y.id));
    assert_eq!(arguments_into(&function, side), [0]);
    assert_eq!(arguments_into(&function, bottom), [0]);
}

#[test]
fn parameters_of_one_block_that_stand_for_each_other_are_dropped() {
    let mut locals = Locals::new();
    let (mut function, [x, y, a, b], [top, side, _]) = meeting(&mut locals);
    function.add_edge(
        top,
        side,
        giving(BranchType::Unconditional, &[(x, y), (y, x), (a, b)]),
    );
    let mut map: FxHashMap<u64, u64> = FxHashMap::default();

    assert!(remove_unnecessary_params(&mut function, &mut map));

    assert_eq!(map.len(), 1);
    assert_eq!(map.get(&a.id), Some(&b.id));
    assert_eq!(arguments_into(&function, side), [0]);
}

#[test]
fn what_a_parameter_is_given_is_followed_to_its_end() {
    let mut locals = Locals::new();
    let (mut function, [x, y, a, _], [top, side, _]) = meeting(&mut locals);
    function.add_edge(
        top,
        side,
        giving(BranchType::Unconditional, &[(x, y), (y, a)]),
    );
    let mut map: FxHashMap<u64, u64> = FxHashMap::default();

    assert!(remove_unnecessary_params(&mut function, &mut map));

    assert_eq!(map.get(&x.id), Some(&a.id));
    assert_eq!(map.get(&y.id), Some(&a.id));
}
