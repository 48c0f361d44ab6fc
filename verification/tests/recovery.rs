//! Facts about functions, and the rounds of passes over them.

use medal::ast::{
    Assign, Binary, BinaryOperation, Call, Empty, Global, LValue, Literal, Local, Locals, RValue,
    RcLocal, Statement,
};
use medal::cfg::block::{BlockEdge, BranchType};
use medal::cfg::effects::{EffectSummary, ResultShape, StatementLocation};
use medal::cfg::function::Function;
use medal::cfg::graph::NodeId;
use medal::cfg::provenance::{BindingIdentity, OriginSet, SourceOrigin};
use medal::cfg::recovery::{FactSet, RecoveryError, RecoveryFacts};
use medal::cfg::scheduler::{PassChange, PassScheduler, RoundOutcome, SchedulerError};

fn local(locals: &mut Locals, name: &str) -> RcLocal {
    RcLocal::new(locals, Local::new(Some(name.to_owned())))
}

fn push(function: &mut Function, node: NodeId, statement: Statement) {
    let mut block = function.block(node).unwrap().clone();
    block.push(statement);
    function.replace_block(node, block);
}

fn effects_at(facts: &RecoveryFacts, location: StatementLocation) -> &EffectSummary {
    facts
        .effects()
        .unwrap()
        .iter()
        .find(|(place, _)| *place == location)
        .map(|(_, summary)| summary)
        .unwrap()
}

/// A number that two states of one function share only if they are written the
/// same.
fn fingerprint(function: &Function, seen: &mut Vec<String>) -> u64 {
    let text = format!("{:?}", function);
    match seen.iter().position(|other| *other == text) {
        Some(place) => place as u64,
        None => {
            seen.push(text);
            seen.len() as u64 - 1
        }
    }
}

struct Report {
    facts: RecoveryFacts,
    rounds: usize,
}

/// Runs passes over a function until a round changes nothing.
fn run(
    scheduler: &mut PassScheduler,
    passes: &mut [&mut dyn FnMut(&mut Function) -> PassChange],
    function: &mut Function,
) -> Result<Report, SchedulerError> {
    let mut seen = Vec::new();
    let mut facts = RecoveryFacts::derive_subset(function, FactSet::reconstruction())
        .map_err(SchedulerError::Recovery)?;
    scheduler.start(function.id(), fingerprint(function, &mut seen));
    loop {
        for (place, pass) in passes.iter_mut().enumerate() {
            scheduler.record(place, pass(function));
        }
        if !scheduler.is_settled() {
            facts = RecoveryFacts::derive_subset(function, FactSet::reconstruction())
                .map_err(SchedulerError::Recovery)?;
        }
        match scheduler.end_round(fingerprint(function, &mut seen)) {
            RoundOutcome::Settled { rounds } => return Ok(Report { facts, rounds }),
            RoundOutcome::Continue => {}
            RoundOutcome::Failed(error) => return Err(error),
        }
    }
}

#[test]
fn recovery_facts_capture_edges_merges_and_effects() {
    let mut locals = Locals::new();
    let mut function = Function::new(7);
    let source = function.new_block();
    let target = function.new_block();
    function.set_entry(source);
    let table = local(&mut locals, "table");
    let result = local(&mut locals, "result");
    function.set_binding(table, BindingIdentity::local(7, 0));
    function.set_binding(result, BindingIdentity::local(7, 1));
    push(
        &mut function,
        source,
        Assign::new(
            vec![LValue::Local(result)],
            vec![Call::new(Global::from("next").into(), vec![table.into()]).into()],
        )
        .into(),
    );
    function.set_statement_origins(
        source,
        vec![OriginSet::from_origin(SourceOrigin::new(
            7,
            2,
            Some(3),
            "CALL",
        ))],
    );
    function.add_edge(
        source,
        target,
        BlockEdge {
            branch_type: BranchType::Unconditional,
            arguments: vec![(result, RValue::Local(result))],
        },
    );

    let facts = RecoveryFacts::derive(&function).unwrap();
    let location = StatementLocation {
        block: source,
        statement: 0,
    };
    assert_eq!(facts.function_id(), 7);
    let edges = facts.edges().unwrap();
    assert_eq!(edges.len(), 1);
    assert_eq!(edges[0].merges.len(), 1);
    assert!(effects_at(&facts, location).calls);
    assert_eq!(
        effects_at(&facts, location).result_groups[0].demand,
        ResultShape::Exact(1)
    );
    let origins = facts
        .statement_origins()
        .unwrap()
        .iter()
        .find(|(place, _)| *place == location)
        .map(|(_, origins)| origins.len());
    assert_eq!(origins, Some(1));
}

#[test]
fn effect_summary_marks_metamethod_capable_arithmetic() {
    let mut locals = Locals::new();
    let mut function = Function::new(8);
    let block = function.new_block();
    function.set_entry(block);
    let left = local(&mut locals, "left");
    let result = local(&mut locals, "result");
    function.set_binding(left, BindingIdentity::local(8, 0));
    function.set_binding(result, BindingIdentity::local(8, 1));
    push(
        &mut function,
        block,
        Assign::new(
            vec![result.into()],
            vec![Binary::new(
                left.into(),
                Literal::Integer(1).into(),
                BinaryOperation::Add,
            )
            .into()],
        )
        .into(),
    );

    let facts = RecoveryFacts::derive(&function).unwrap();
    let location = StatementLocation {
        block,
        statement: 0,
    };
    assert!(effects_at(&facts, location).metamethod_capable);
}

#[test]
fn no_change_scheduler_run_is_idempotent() {
    let mut function = Function::new(8);
    let mut scheduler = PassScheduler::new(4);
    scheduler.add_pass();
    let mut noop = |_: &mut Function| PassChange::none();

    let first = run(&mut scheduler, &mut [&mut noop], &mut function).unwrap();
    let second = run(&mut scheduler, &mut [&mut noop], &mut function).unwrap();
    assert_eq!(format!("{:?}", first.facts), format!("{:?}", second.facts));
    assert_eq!(first.rounds, 1);
    assert_eq!(second.rounds, 1);
}

#[test]
fn changed_cfg_and_dataflow_invalidate_only_dependent_facts() {
    let change = PassChange::cfg().union(PassChange::dataflow());
    assert!(change.invalidates_cfg());
    assert!(change.invalidates_dataflow());
    assert!(change.invalidates_regions());
    assert!(!change.invalidates_ast());
}

#[test]
fn scheduler_reports_a_repeated_state_instead_of_spinning() {
    let mut function = Function::new(9);
    let block = function.new_block();
    function.set_entry(block);
    let mut present = false;
    let mut scheduler = PassScheduler::new(8);
    let place = scheduler.add_pass();
    let mut oscillate = |function: &mut Function| {
        let mut statements = function.block(block).unwrap().clone();
        if present {
            statements.0.pop();
        } else {
            statements.push(Empty {}.into());
        }
        function.replace_block(block, statements);
        present = !present;
        PassChange::ast()
    };

    let error = run(&mut scheduler, &mut [&mut oscillate], &mut function)
        .err()
        .unwrap();
    assert!(matches!(
        error,
        SchedulerError::RepeatedState {
            function_id: 9,
            first_round: 0,
            repeated_round: 2,
            ref changed_passes,
        } if *changed_passes == vec![place]
    ));
}

#[test]
fn scheduler_stops_at_the_round_limit() {
    let mut function = Function::new(3);
    let block = function.new_block();
    function.set_entry(block);
    let mut scheduler = PassScheduler::new(2);
    let place = scheduler.add_pass();
    let mut grow = |function: &mut Function| {
        push(function, block, Empty {}.into());
        PassChange::ast()
    };

    let error = run(&mut scheduler, &mut [&mut grow], &mut function)
        .err()
        .unwrap();
    assert!(matches!(
        error,
        SchedulerError::RoundLimit {
            function_id: 3,
            max_rounds: 2,
            ref changed_passes,
        } if *changed_passes == vec![place]
    ));
    assert_eq!(scheduler.applied_changes().len(), 2);
    assert_eq!(scheduler.invalidations().ast, 2);
}

#[test]
fn an_entry_that_is_no_block_is_an_error() {
    let mut function = Function::new(5);
    let block = function.new_block();
    function.set_entry(block);
    function.remove_block(block);

    assert!(matches!(
        RecoveryFacts::derive(&function),
        Err(RecoveryError::InvalidEntry {
            function_id: 5,
            entry,
        }) if entry == block
    ));
}

#[test]
fn facts_that_were_not_asked_for_are_absent() {
    let mut function = Function::new(1);
    let block = function.new_block();
    function.set_entry(block);

    let facts = RecoveryFacts::derive_subset(&function, FactSet::none()).unwrap();
    assert!(facts.locals().is_none());
    assert!(facts.edges().is_none());
    assert!(facts.dominators().is_none());
    assert!(facts.post_dominators().is_none());
    assert!(facts.effects().is_none());
    assert!(facts.statement_origins().is_none());
}

#[test]
fn dominators_of_a_diamond_meet_at_its_ends() {
    let mut function = Function::new(2);
    let top = function.new_block();
    let left = function.new_block();
    let right = function.new_block();
    let bottom = function.new_block();
    function.set_entry(top);
    function.add_edge(top, left, BlockEdge::new(BranchType::Then));
    function.add_edge(top, right, BlockEdge::new(BranchType::Else));
    function.add_edge(left, bottom, BlockEdge::default());
    function.add_edge(right, bottom, BlockEdge::default());

    let facts = RecoveryFacts::derive(&function).unwrap();
    let dominators = &facts
        .dominators()
        .unwrap()
        .iter()
        .find(|(node, _)| *node == bottom)
        .unwrap()
        .1;
    assert!(dominators.contains(top));
    assert!(!dominators.contains(left));
    assert!(!dominators.contains(right));
    let post = &facts
        .post_dominators()
        .unwrap()
        .iter()
        .find(|(node, _)| *node == top)
        .unwrap()
        .1;
    assert!(post.contains(bottom));
    assert!(!post.contains(left));
}

#[test]
fn changes_join_in_any_order() {
    let left = PassChange::cfg().union(PassChange::ast());
    let right = PassChange::ast().union(PassChange::cfg());
    assert_eq!(format!("{:?}", left), format!("{:?}", right));
    assert!(PassChange::none().union(PassChange::none()).is_empty());
    assert!(!left.is_empty());
}

#[test]
fn joining_with_nothing_or_itself_changes_nothing() {
    for change in [
        PassChange::none(),
        PassChange::dataflow(),
        PassChange::cfg(),
        PassChange::regions(),
        PassChange::ast().union(PassChange::regions()),
    ] {
        assert_eq!(change.union(PassChange::none()), change);
        assert_eq!(change.union(change), change);
    }
}

#[test]
fn a_part_derived_alone_is_that_part_of_the_whole() {
    let mut locals = Locals::new();
    let mut function = Function::new(3);
    let x = local(&mut locals, "x");
    function.set_binding(x, BindingIdentity::local(3, 0));
    let top = function.new_block();
    let body = function.new_block();
    let end = function.new_block();
    function.set_entry(top);
    push(
        &mut function,
        body,
        Assign::new(
            vec![LValue::Local(x)],
            vec![Call::new(Global::from("next").into(), vec![x.into()]).into()],
        )
        .into(),
    );
    function.add_edge(top, body, BlockEdge::default());
    function.add_edge(body, end, BlockEdge::new(BranchType::Else));
    function.add_edge(body, body, BlockEdge::new(BranchType::Then));
    let whole = RecoveryFacts::derive(&function).unwrap();
    let mut wanted = FactSet::none();
    wanted.dominators = true;
    wanted.edges = true;
    wanted.effects = true;

    let part = RecoveryFacts::derive_subset(&function, wanted).unwrap();

    assert_eq!(part.derived(), wanted);
    assert!(part.locals().is_none());
    assert!(part.post_dominators().is_none());
    let text = |facts: &RecoveryFacts| {
        format!(
            "{:?} {:?} {:?} {:?}",
            facts.candidate_regions(),
            facts.dominators(),
            facts.edges(),
            facts.effects()
        )
    };
    assert_eq!(text(&part), text(&whole));
    let edges = whole.edges().unwrap();
    assert_eq!(
        edges
            .iter()
            .map(|edge| (edge.source, edge.target))
            .collect::<Vec<_>>(),
        [(top, body), (body, body), (body, end)]
    );
}
