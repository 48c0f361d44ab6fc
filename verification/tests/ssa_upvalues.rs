//! Where the locals that closures hold are open.

use medal::cfg::block::{BlockEdge, BranchType};
use medal::cfg::function::Function;
use medal::cfg::graph::NodeId;
use medal::cfg::ssa::upvalues::{UpvalueAnalysisError, UpvaluesOpen};
use rustc_hash::FxHashMap;
use medal::ast::{Assign, Close, Closure, Literal, Local, Locals, RcLocal, Statement, Upvalue};

fn push(function: &mut Function, node: NodeId, statement: Statement) {
    let mut block = function.block(node).unwrap().clone();
    block.push(statement);
    function.replace_block(node, block);
}

fn capture(locals: &mut Locals, local: &RcLocal) -> Statement {
    Assign::new(
        vec![RcLocal::new(locals, Local::new(None)).into()],
        vec![
            Closure {
                function: Default::default(),
                upvalues: vec![Upvalue::Ref(local.clone())],
            }
            .into(),
        ],
    )
    .into()
}

fn marker(locals: &mut Locals) -> Statement {
    Assign::new(
        vec![RcLocal::new(locals, Local::new(None)).into()],
        vec![Literal::Nil.into()],
    )
    .into()
}

fn identity_map(local: &RcLocal) -> FxHashMap<u64, u64> {
    FxHashMap::from_iter([(local.id, local.id)])
}

fn diamond_chain(locals: &mut Locals, depth: usize) -> (Function, RcLocal) {
    let captured = RcLocal::new(locals, Local::new(None));
    let mut function = Function::new(0);
    let entry = function.new_block();
    function.set_entry(entry);
    push(&mut function, entry, capture(locals, &captured));
    let mut tail = entry;

    for _ in 0..depth {
        let detour = function.new_block();
        let merge = function.new_block();
        function.add_edge(tail, detour, BlockEdge::new(BranchType::Else));
        function.add_edge(tail, merge, BlockEdge::new(BranchType::Then));
        function.add_edge(detour, merge, BlockEdge::default());
        tail = merge;
    }

    (function, captured)
}

#[test]
fn diamond_paths_keep_one_canonical_opening() {
    let mut locals = Locals::new();
    let (function, captured) = diamond_chain(&mut locals, 8);
    let analysis = UpvaluesOpen::try_new(&function, &identity_map(&captured)).unwrap();
    let entry = function.entry().unwrap();

    for node in function.nodes() {
        assert_eq!(
            analysis.opening_location(node, captured, 0),
            Some((entry, 0))
        );
    }
}

#[test]
fn merge_uses_the_first_capture_as_the_canonical_opening() {
    let mut locals = Locals::new();
    let captured = RcLocal::new(&mut locals, Local::new(None));
    let mut function = Function::new(0);
    let entry = function.new_block();
    let left = function.new_block();
    let right = function.new_block();
    let merge = function.new_block();
    function.set_entry(entry);
    push(&mut function, left, capture(&mut locals, &captured));
    push(&mut function, right, capture(&mut locals, &captured));
    push(&mut function, merge, marker(&mut locals));
    function.add_edge(entry, left, BlockEdge::new(BranchType::Then));
    function.add_edge(entry, right, BlockEdge::new(BranchType::Else));
    function.add_edge(left, merge, BlockEdge::default());
    function.add_edge(right, merge, BlockEdge::default());

    let analysis = UpvaluesOpen::try_new(&function, &identity_map(&captured)).unwrap();

    assert_eq!(
        analysis.opening_location(merge, captured, 0),
        Some((left, 0))
    );
}

#[test]
fn never_captured_path_does_not_conflict_with_open_path() {
    let mut locals = Locals::new();
    let captured = RcLocal::new(&mut locals, Local::new(None));
    let mut function = Function::new(0);
    let entry = function.new_block();
    let captures = function.new_block();
    let bypasses = function.new_block();
    let merge = function.new_block();
    function.set_entry(entry);
    push(&mut function, captures, capture(&mut locals, &captured));
    push(&mut function, bypasses, marker(&mut locals));
    push(&mut function, merge, marker(&mut locals));
    function.add_edge(entry, captures, BlockEdge::new(BranchType::Then));
    function.add_edge(entry, bypasses, BlockEdge::new(BranchType::Else));
    function.add_edge(captures, merge, BlockEdge::default());
    function.add_edge(bypasses, merge, BlockEdge::default());

    let analysis = UpvaluesOpen::try_new(&function, &identity_map(&captured)).unwrap();

    assert_eq!(
        analysis.opening_location(merge, captured, 0),
        Some((captures, 0))
    );
}

#[test]
fn closed_epoch_does_not_conflict_with_a_later_open_epoch() {
    let mut locals = Locals::new();
    // An inlined helper whose body conditionally captures its parameter is
    // emitted twice into the same register: the first epoch is closed
    // before the second one opens, so the merge after the second `if` sees
    // one predecessor holding the second epoch open and one predecessor on
    // which nothing is attached to the register any more.
    let captured = RcLocal::new(&mut locals, Local::new(None));
    let mut function = Function::new(0);
    let entry = function.new_block();
    let captures_first = function.new_block();
    let closes = function.new_block();
    let captures_second = function.new_block();
    let merge = function.new_block();
    function.set_entry(entry);
    push(&mut function, entry, marker(&mut locals));
    push(&mut function, captures_first, capture(&mut locals, &captured));
    push(&mut function, closes, Close {
            locals: vec![captured.clone()],
        }
        .into());
    push(&mut function, captures_second, capture(&mut locals, &captured));
    push(&mut function, merge, marker(&mut locals));
    function.add_edge(entry, captures_first, BlockEdge::new(BranchType::Then));
    function.add_edge(entry, closes, BlockEdge::new(BranchType::Else));
    function.add_edge(captures_first, closes, BlockEdge::default());
    function.add_edge(closes, captures_second, BlockEdge::new(BranchType::Then));
    function.add_edge(closes, merge, BlockEdge::new(BranchType::Else));
    function.add_edge(captures_second, merge, BlockEdge::default());

    let analysis = UpvaluesOpen::try_new(&function, &identity_map(&captured)).unwrap();

    assert_eq!(
        analysis.opening_location(merge, captured, 0),
        Some((captures_second, 0))
    );
}

#[test]
fn closed_epoch_still_conflicts_with_the_same_open_epoch() {
    let mut locals = Locals::new();
    // Same shape as above, except the *second* epoch is the one closed on
    // only one path. Whether writes after the merge reach the closure built
    // at that epoch's capture site is path dependent, so the earlier
    // already-closed epoch must not excuse it.
    let captured = RcLocal::new(&mut locals, Local::new(None));
    let mut function = Function::new(0);
    let entry = function.new_block();
    let captures_first = function.new_block();
    let closes_first = function.new_block();
    let captures_second = function.new_block();
    let closes_second = function.new_block();
    let keeps_open = function.new_block();
    let merge = function.new_block();
    function.set_entry(entry);
    push(&mut function, entry, marker(&mut locals));
    push(&mut function, captures_first, capture(&mut locals, &captured));
    push(&mut function, closes_first, Close {
            locals: vec![captured.clone()],
        }
        .into());
    push(&mut function, captures_second, capture(&mut locals, &captured));
    push(&mut function, closes_second, Close {
            locals: vec![captured.clone()],
        }
        .into());
    push(&mut function, keeps_open, marker(&mut locals));
    push(&mut function, merge, marker(&mut locals));
    function.add_edge(entry, captures_first, BlockEdge::new(BranchType::Then));
    function.add_edge(entry, closes_first, BlockEdge::new(BranchType::Else));
    function.add_edge(captures_first, closes_first, BlockEdge::default());
    function.add_edge(closes_first, captures_second, BlockEdge::default());
    function.add_edge(
        captures_second,
        closes_second,
        BlockEdge::new(BranchType::Then),
    );
    function.add_edge(
        captures_second,
        keeps_open,
        BlockEdge::new(BranchType::Else),
    );
    function.add_edge(closes_second, merge, BlockEdge::default());
    function.add_edge(keeps_open, merge, BlockEdge::default());

    let error = UpvaluesOpen::try_new(&function, &identity_map(&captured)).unwrap_err();

    assert!(matches!(
        error,
        UpvalueAnalysisError::PathDependentMerge { block }
            if block == merge as usize
    ));
}

#[test]
fn loop_carries_the_open_capture_over_its_back_edge() {
    let mut locals = Locals::new();
    let captured = RcLocal::new(&mut locals, Local::new(None));
    let mut function = Function::new(0);
    let entry = function.new_block();
    let header = function.new_block();
    let body = function.new_block();
    let after_loop = function.new_block();
    function.set_entry(entry);
    push(&mut function, entry, capture(&mut locals, &captured));
    push(&mut function, header, marker(&mut locals));
    push(&mut function, body, marker(&mut locals));
    push(&mut function, after_loop, marker(&mut locals));
    function.add_edge(entry, header, BlockEdge::default());
    function.add_edge(header, body, BlockEdge::new(BranchType::Then));
    function.add_edge(header, after_loop, BlockEdge::new(BranchType::Else));
    function.add_edge(body, header, BlockEdge::default());

    let analysis = UpvaluesOpen::try_new(&function, &identity_map(&captured)).unwrap();

    assert_eq!(
        analysis.opening_location(after_loop, captured, 0),
        Some((entry, 0))
    );
}

#[test]
fn close_ends_the_capture_epoch_before_successor_statements() {
    let mut locals = Locals::new();
    let captured = RcLocal::new(&mut locals, Local::new(None));
    let mut function = Function::new(0);
    let entry = function.new_block();
    let close = function.new_block();
    let after_close = function.new_block();
    function.set_entry(entry);
    push(&mut function, entry, capture(&mut locals, &captured));
    push(&mut function, close, Close {
            locals: vec![captured.clone()],
        }
        .into());
    push(&mut function, after_close, marker(&mut locals));
    function.add_edge(entry, close, BlockEdge::default());
    function.add_edge(close, after_close, BlockEdge::default());

    let analysis = UpvaluesOpen::try_new(&function, &identity_map(&captured)).unwrap();

    assert_eq!(analysis.opening_location(after_close, captured, 0), None);
}

#[test]
fn unreachable_predecessor_does_not_open_capture_at_reachable_merge() {
    let mut locals = Locals::new();
    let captured = RcLocal::new(&mut locals, Local::new(None));
    let mut function = Function::new(0);
    let entry = function.new_block();
    let merge = function.new_block();
    let unreachable = function.new_block();
    function.set_entry(entry);
    push(&mut function, merge, marker(&mut locals));
    push(&mut function, unreachable, capture(&mut locals, &captured));
    function.add_edge(entry, merge, BlockEdge::default());
    function.add_edge(unreachable, merge, BlockEdge::default());

    let analysis = UpvaluesOpen::try_new(&function, &identity_map(&captured)).unwrap();

    assert_eq!(analysis.opening_location(merge, captured, 0), None);
}

#[test]
fn conditional_close_is_rejected_at_reachable_merge() {
    let mut locals = Locals::new();
    let captured = RcLocal::new(&mut locals, Local::new(None));
    let mut function = Function::new(0);
    let entry = function.new_block();
    let closes = function.new_block();
    let keeps_open = function.new_block();
    let merge = function.new_block();
    function.set_entry(entry);
    push(&mut function, entry, capture(&mut locals, &captured));
    push(&mut function, closes, Close {
            locals: vec![captured.clone()],
        }
        .into());
    push(&mut function, keeps_open, marker(&mut locals));
    push(&mut function, merge, marker(&mut locals));
    function.add_edge(entry, closes, BlockEdge::new(BranchType::Then));
    function.add_edge(entry, keeps_open, BlockEdge::new(BranchType::Else));
    function.add_edge(closes, merge, BlockEdge::default());
    function.add_edge(keeps_open, merge, BlockEdge::default());

    let error = UpvaluesOpen::try_new(&function, &identity_map(&captured)).unwrap_err();

    assert!(matches!(
        error,
        UpvalueAnalysisError::PathDependentMerge { block }
            if block == merge as usize
    ));
}

#[test]
fn conditional_close_and_reopen_is_rejected_at_reachable_merge() {
    let mut locals = Locals::new();
    let captured = RcLocal::new(&mut locals, Local::new(None));
    let mut function = Function::new(0);
    let entry = function.new_block();
    let reopens = function.new_block();
    let keeps_open = function.new_block();
    let merge = function.new_block();
    function.set_entry(entry);
    push(&mut function, entry, capture(&mut locals, &captured));
    for statement in [
        Close {
            locals: vec![captured.clone()],
        }
        .into(),
        capture(&mut locals, &captured),
    ] {
        push(&mut function, reopens, statement);
    }
    push(&mut function, keeps_open, marker(&mut locals));
    push(&mut function, merge, marker(&mut locals));
    function.add_edge(entry, reopens, BlockEdge::new(BranchType::Then));
    function.add_edge(entry, keeps_open, BlockEdge::new(BranchType::Else));
    function.add_edge(reopens, merge, BlockEdge::default());
    function.add_edge(keeps_open, merge, BlockEdge::default());

    let error = UpvaluesOpen::try_new(&function, &identity_map(&captured)).unwrap_err();

    assert!(matches!(
        error,
        UpvalueAnalysisError::PathDependentMerge { block }
            if block == merge as usize
    ));
}

#[test]
fn close_and_reopen_create_disjoint_ranges_in_one_block() {
    let mut locals = Locals::new();
    let captured = RcLocal::new(&mut locals, Local::new(None));
    let mut function = Function::new(0);
    let entry = function.new_block();
    function.set_entry(entry);
    for statement in [
        capture(&mut locals, &captured),
        marker(&mut locals),
        Close {
            locals: vec![captured.clone()],
        }
        .into(),
        marker(&mut locals),
        capture(&mut locals, &captured),
        marker(&mut locals),
    ] {
        push(&mut function, entry, statement);
    }

    let analysis = UpvaluesOpen::try_new(&function, &identity_map(&captured)).unwrap();

    assert_eq!(
        analysis.opening_location(entry, captured, 0),
        Some((entry, 0))
    );
    assert_eq!(
        analysis.opening_location(entry, captured, 1),
        Some((entry, 0))
    );
    assert_eq!(analysis.opening_location(entry, captured, 2), None);
    assert_eq!(analysis.opening_location(entry, captured, 3), None);
    assert_eq!(
        analysis.opening_location(entry, captured, 4),
        Some((entry, 4))
    );
    assert_eq!(
        analysis.opening_location(entry, captured, 5),
        Some((entry, 4))
    );
}
