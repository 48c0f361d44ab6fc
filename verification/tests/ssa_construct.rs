//! Renaming and joining the values of a function.

use indexmap::IndexMap;
use medal::cfg::block::{BlockEdge, BranchType};
use medal::cfg::function::Function;
use medal::cfg::graph::NodeId;
use medal::cfg::provenance::{
    BindingIdentity, DebugLifetime, OriginSet, RegisterFamily, SourceOrigin,
};
use medal::cfg::ssa::local_map::{apply_local_map, apply_local_map_to_upvalue_groups};
use medal::cfg::ssa::params::remove_unnecessary_params;
use rustc_hash::FxHashMap;
use medal::ast::{
    Assign, Binary, BinaryOperation, Closure, Literal, Local, Locals, Number, RValue, RcLocal,
    Return, Statement, Upvalue,
};

fn number(value: f64) -> Number {
    if value.fract() == 0.0 {
        Number::Integer(value as i128)
    } else {
        let mut buffer = ryu::Buffer::new();
        Number::Decimal(buffer.format_finite(value).to_owned())
    }
}

fn push(function: &mut Function, node: NodeId, statement: Statement) {
    let mut block = function.block(node).unwrap().clone();
    block.push(statement);
    function.replace_block(node, block);
}

#[test]
fn ssa_destruction_coalescing_retains_all_definition_origins() {
    let mut locals = Locals::new();
    let physical = RcLocal::new(&mut locals, Local::default());
    let mut function = Function::new(4);
    let node = function.new_block();
    function.set_entry(node);
    for statement in [
        Assign::new(
            vec![physical.clone().into()],
            vec![Literal::Number(number(1.0)).into()],
        )
        .into(),
        Assign::new(
            vec![physical.clone().into()],
            vec![Literal::Number(number(2.0)).into()],
        )
        .into(),
    ] {
        push(&mut function, node, statement);
    }
    function.set_statement_origins(
        node,
        vec![
            OriginSet::from_origin(SourceOrigin::new(4, 2, Some(10), "LOADN")),
            OriginSet::from_origin(SourceOrigin::new(4, 8, Some(20), "LOADN")),
        ],
    );
    function.set_register_family(
        physical.clone(),
        RegisterFamily::new(
            4,
            1,
            BindingIdentity::local(4, 1),
            vec![
                DebugLifetime::new(b"first".to_vec(), 1, 4),
                DebugLifetime::new(b"second".to_vec(), 7, 10),
            ],
        ),
    );

    let first = function.new_ssa_definition(&mut locals, physical, node, 0);
    let second = function.new_ssa_definition(&mut locals, physical, node, 1);
    apply_local_map(
        &mut function,
        &FxHashMap::from_iter([(second.id, first.id)]),
    );

    assert_eq!(function.provenance().origins(first).len(), 2);
    assert_eq!(function.provenance().bindings(first).len(), 2);
}

#[test]
fn renaming_rewrites_group_members_and_follows_chains() {
    let mut locals = Locals::new();
    let group = RcLocal::new(&mut locals, Local::new(None));
    let first = RcLocal::new(&mut locals, Local::new(None));
    let second = RcLocal::new(&mut locals, Local::new(None));
    let third = RcLocal::new(&mut locals, Local::new(None));
    let survivor = RcLocal::new(&mut locals, Local::new(None));
    let mut upvalue_to_group = IndexMap::from_iter([
        (first.id, group.id),
        (second.id, group.id),
        (third.id, group.id),
    ]);

    apply_local_map_to_upvalue_groups(
        &mut upvalue_to_group,
        // `first -> second -> survivor` has to be followed all the way,
        // and `third` collapsing onto `survivor` too must not drop it.
        &FxHashMap::from_iter([
            (first.id, second.id),
            (second.id, survivor.id),
            (third.id, survivor.id),
        ]),
    );

    let expected: IndexMap<u64, u64> = IndexMap::from_iter([(survivor.id, group.id)]);
    assert_eq!(
        upvalue_to_group, expected,
        "every renamed member must land on its group under its new name"
    );
}

/// A register captured by reference on one path and written after the
/// merge must stay in one capture group across the renames the structuring
/// passes perform.
///
/// This is the SSA form the pipeline reaches once the conditional has been
/// structured: the closure captures a block parameter, and collapsing the
/// redundant parameters rewrites that member onto the entry definition -
/// a local that was never a group member. Leaving the group keyed on the
/// old names drops the captured value out of it, SSA destruction then gives
/// the write a local of its own, and the closure keeps observing the value
/// from before the write.
#[test]
fn write_after_conditional_capture_stays_in_the_capture_group() {
    let mut locals = Locals::new();
    let entry_value = RcLocal::new(&mut locals, Local::new(None));
    let capture_param = RcLocal::new(&mut locals, Local::new(None));
    let merge_param = RcLocal::new(&mut locals, Local::new(None));
    let written = RcLocal::new(&mut locals, Local::new(None));
    let closure_slot = RcLocal::new(&mut locals, Local::new(None));
    let group = RcLocal::new(&mut locals, Local::new(None));

    let mut function = Function::new(0);
    for (index, local) in [
        &entry_value,
        &capture_param,
        &merge_param,
        &written,
        &closure_slot,
        &group,
    ]
    .into_iter()
    .enumerate()
    {
        function.set_binding(local.clone(), BindingIdentity::local(0, index));
    }

    let entry = function.new_block();
    let captures = function.new_block();
    let merge = function.new_block();
    function.set_entry(entry);
    push(&mut function, entry, Assign::new(
            vec![entry_value.clone().into()],
            vec![Literal::String(b"a".to_vec()).into()],
        )
        .into());
    push(&mut function, captures, Assign::new(
            vec![closure_slot.clone().into()],
            vec![
                Closure {
                    function: Default::default(),
                    upvalues: vec![Upvalue::Ref(capture_param.clone())],
                }
                .into(),
            ],
        )
        .into());
    for statement in [
        Assign::new(
            vec![written.clone().into()],
            vec![
                Binary::new(
                    merge_param.clone().into(),
                    Literal::String(b"+mutated".to_vec()).into(),
                    BinaryOperation::Concat,
                )
                .into(),
            ],
        )
        .into(),
        Return::new(vec![written.clone().into()]).into(),
    ] {
        push(&mut function, merge, statement);
    }

    let mut to_captures = BlockEdge::new(BranchType::Then);
    to_captures
        .arguments
        .push((capture_param.clone(), entry_value.clone().into()));
    let mut bypass = BlockEdge::new(BranchType::Else);
    bypass
        .arguments
        .push((merge_param.clone(), entry_value.clone().into()));
    let mut to_merge = BlockEdge::default();
    to_merge
        .arguments
        .push((merge_param.clone(), capture_param.clone().into()));
    function.add_edge(entry, captures, to_captures);
    function.add_edge(entry, merge, bypass);
    function.add_edge(captures, merge, to_merge);

    // What `mark_upvalues` records: every value that aliases the box the
    // closure holds, which is the captured parameter, the value flowing
    // into the merge, and the write after it.
    let mut upvalue_to_group = IndexMap::from_iter([
        (capture_param.id, group.id),
        (merge_param.id, group.id),
        (written.id, group.id),
    ]);

    // Mirror the structuring pipeline: collapse redundant block parameters
    // until a fixed point, keeping the groups in step with every rename.
    loop {
        let mut local_map = FxHashMap::default();
        if !remove_unnecessary_params(&mut function, &mut local_map) {
            break;
        }
        apply_local_map_to_upvalue_groups(&mut upvalue_to_group, &local_map);
        apply_local_map(&mut function, &local_map);
    }

    let captured = function
        .nodes()
        .into_iter()
        .flat_map(|node| &function.block(node).unwrap().0)
        .filter_map(|statement| statement.as_assign())
        .flat_map(|assign| &assign.right)
        .filter_map(|value| match value {
            RValue::Closure(closure) => Some(closure),
            _ => None,
        })
        .flat_map(|closure| &closure.upvalues)
        .find_map(|upvalue| match upvalue {
            Upvalue::Ref(local) => Some(*local),
            Upvalue::Copy(_) => None,
        })
        .expect("the closure must still capture by reference");
    assert_eq!(
        captured, entry_value,
        "collapsing the parameters must rewrite the capture onto the entry \
         definition, otherwise this shape does not exercise the rename"
    );

    assert_eq!(
        upvalue_to_group.get(&captured.id),
        Some(&group.id),
        "the captured value must still be a group member after renaming"
    );
    assert_eq!(
        upvalue_to_group.get(&written.id),
        Some(&group.id),
        "the write after the merge must share the captured value's group"
    );
}
