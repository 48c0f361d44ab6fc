//! Recovering expressions from the statements that they were split into.

use vstd::prelude::*;

use rustc_hash::FxHashSet;

use crate::ast::alias_elimination;
use crate::ast::alias_elimination::{
    collect_reference_captures, count_local, has_effects_within, has_local, is_written_within,
    Search,
};
use crate::ast::global::GlobalOrigin;
use crate::ast::local::RcLocal;
use crate::ast::local_rw::LocalRw;
use crate::ast::nodes::{
    Assign, AssignView, Binary, BinaryOperation, Block, Conditional, If, LValue, LValueView,
    MethodCall, RValue, RValueView, Select, SelectView, Statement, StatementView, Unary,
    UnaryOperation,
};
use crate::ast::tally;
use crate::ast::tally::raise;
use crate::ast::walk::{walk_block, BlockPass};
use crate::ast::{model, nodes, shape_laws};
use crate::collections::{empty_set, has_member, insert_member};

verus! {

broadcast use nodes::group_views;

/// How often each recovery applied.
#[derive(Debug, Clone, Copy, PartialEq, Eq, Structural)]
pub struct ExpressionRecoveryStats {
    pub conditionals: usize,
    pub short_circuits: usize,
    pub inlined_temporaries: usize,
}

impl ExpressionRecoveryStats {
    /// Nothing applied yet.
    pub open spec fn none() -> ExpressionRecoveryStats {
        ExpressionRecoveryStats { conditionals: 0, short_circuits: 0, inlined_temporaries: 0 }
    }
}

impl Default for ExpressionRecoveryStats {
    fn default() -> (stats: Self)
        ensures
            stats == ExpressionRecoveryStats::none(),
    {
        ExpressionRecoveryStats { conditionals: 0, short_circuits: 0, inlined_temporaries: 0 }
    }
}

/// The one local that a plain assignment gives one value, and that value.
pub open spec fn plain_assignment(statement: StatementView) -> Option<(RcLocal, RValueView)> {
    match statement {
        StatementView::Assign(assign) => if !assign.prefix && !assign.parallel && assign.left.len()
            == 1 && assign.right.len() == 1 {
            match assign.left[0] {
                LValueView::Local(target) => Some((target, assign.right[0])),
                _ => None,
            }
        } else {
            None
        },
        _ => None,
    }
}

/// The one local that a block assigns, where it does nothing else, and the
/// value.
pub open spec fn single_local_assignment(block: Seq<StatementView>) -> Option<
    (RcLocal, RValueView),
> {
    if block.len() == 1 {
        plain_assignment(block[0])
    } else {
        None
    }
}

/// The assignment of a value to a local.
pub open spec fn assigned(target: RcLocal, value: RValueView) -> StatementView {
    StatementView::Assign(
        AssignView {
            left: seq![LValueView::Local(target)],
            right: seq![value],
            prefix: false,
            parallel: false,
        },
    )
}

/// The assignment that a branch stands for where both arms only give one local
/// a value, and neither they nor the condition read it.
pub open spec fn as_conditional(statement: StatementView) -> Option<StatementView> {
    match statement {
        StatementView::If { condition, then_block, else_block } => match (
            single_local_assignment(then_block),
            single_local_assignment(else_block),
        ) {
            (Some((target, then_value)), Some((other, else_value))) => if target != other
                || condition.reads().contains(target) || then_value.reads().contains(target)
                || else_value.reads().contains(target) {
                None
            } else {
                Some(
                    assigned(
                        target,
                        RValueView::Conditional(
                            Box::new(condition),
                            Box::new(then_value),
                            Box::new(else_value),
                        ),
                    ),
                )
            },
            _ => None,
        },
        _ => None,
    }
}

/// The operator that a branch on a local stands for: `and` where it is taken
/// on the local, `or` where on its negation.
pub open spec fn short_circuit_operator(condition: RValueView, target: RcLocal) -> Option<
    BinaryOperation,
> {
    if condition == RValueView::Local(target) {
        Some(BinaryOperation::And)
    } else if condition == RValueView::Unary(
        Box::new(RValueView::Local(target)),
        UnaryOperation::Not,
    ) {
        Some(BinaryOperation::Or)
    } else {
        None
    }
}

/// The assignment that two statements stand for: one that gives a local a
/// value, and one that gives it another depending on the first.
pub open spec fn as_short_circuit(
    first: StatementView,
    second: StatementView,
    protected: Set<u64>,
) -> Option<StatementView> {
    match plain_assignment(first) {
        Some((target, value)) => if protected.contains(target.id) || value.reads().contains(
            target,
        ) {
            None
        } else {
            match second {
                StatementView::If { condition, then_block, else_block } => match (
                    short_circuit_operator(condition, target),
                    single_local_assignment(then_block),
                ) {
                    (Some(operation), Some((other, branch_value))) => if else_block.len() > 0
                        || other != target || branch_value.reads().contains(target) {
                        None
                    } else {
                        Some(
                            assigned(
                                target,
                                RValueView::Binary(
                                    Box::new(value),
                                    Box::new(branch_value),
                                    operation,
                                ),
                            ),
                        )
                    },
                    _ => None,
                },
                _ => None,
            }
        },
        None => None,
    }
}

impl StatementView {
    /// Whether this statement holds blocks that are branches or loops.
    pub open spec fn is_structured(self) -> bool {
        self is If || self.is_loop()
    }
}

/// Whether an expression may be moved into the place where its local is read.
pub open spec fn is_movable(value: RValueView) -> bool {
    !(value is Local || value is Call || value is MethodCall || value is Closure || value is Table
        || value is VarArg || value == RValueView::Select(SelectView::VarArg))
}

/// The local that a statement gives a value that may be moved, and the value.
pub open spec fn inline_candidate(statement: StatementView) -> Option<(RcLocal, RValueView)> {
    match plain_assignment(statement) {
        Some((target, value)) => if !is_movable(value) || value.reads().contains(target) {
            None
        } else {
            Some((target, value))
        },
        None => None,
    }
}

/// The statement from position `from` on that has the one read of a local,
/// where there is one, the local is not written and no branch or loop follows.
pub open spec fn straight_read_from(
    block: Seq<StatementView>,
    from: int,
    local: RcLocal,
    found: Option<int>,
) -> Option<int>
    decreases block.len() - from,
{
    if 0 <= from < block.len() {
        let reads = alias_elimination::occurrences_from(block[from].reads(), 0, local);
        if block[from].is_structured() || block[from].writes().contains(local) {
            None
        } else if reads == 0 {
            straight_read_from(block, from + 1, local, found)
        } else if reads == 1 && found is None {
            straight_read_from(block, from + 1, local, Some(from))
        } else {
            None
        }
    } else {
        found
    }
}

/// The one read of a local is among the statements looked at.
pub proof fn lemma_straight_read_within(
    block: Seq<StatementView>,
    from: int,
    local: RcLocal,
    found: Option<int>,
)
    ensures
        match straight_read_from(block, from, local, found) {
            Some(at) => found == Some(at) || from <= at < block.len(),
            None => true,
        },
    decreases block.len() - from,
{
    if 0 <= from < block.len() {
        lemma_straight_read_within(block, from + 1, local, found);
        lemma_straight_read_within(block, from + 1, local, Some(from));
    }
}

impl RValueView {
    /// Whether computing this can be observed; the read of a global that the
    /// compiler imported cannot.
    pub open spec fn is_observable(self) -> bool {
        self.has_side_effects() && !(self matches RValueView::Global(global) && global.origin
            == GlobalOrigin::CompilerImport)
    }

    /// Whether an expression may not be moved past this one.
    pub open spec fn stops(self, replacement: RValueView) -> bool {
        self.is_observable() || (replacement.has_side_effects() && self.reads().len() > 0)
    }

    /// How many of the operands are computed whatever their values are.
    pub open spec fn certain(self) -> int {
        match self {
            RValueView::Binary(_, _, BinaryOperation::And) => 1,
            RValueView::Binary(_, _, BinaryOperation::Or) => 1,
            RValueView::Conditional(_, _, _) => 1,
            _ => self.children().len() as int,
        }
    }

    /// Whether this calls a method, which is looked up once the receiver is
    /// computed.
    pub open spec fn calls_method(self) -> bool {
        self is MethodCall || self matches RValueView::Select(SelectView::MethodCall(_))
    }

    /// Looks for the first read of `target`, in the order of evaluation, and
    /// puts `replacement` in its place unless it cannot be moved there: past
    /// what can be observed, or into a part that may not be computed.
    pub open spec fn filled_in(self, target: RcLocal, replacement: RValueView, crossed: bool) -> Search<
        RValueView,
    >
        decreases self.size(), 0int,
    {
        proof {
            model::lemma_children_smaller(self);
        }
        if self == RValueView::Local(target) {
            if crossed {
                Search { found: Some(false), crossed, after: self }
            } else {
                Search { found: Some(true), crossed, after: replacement }
            }
        } else {
            let inside = Self::filled_in_from(
                self.children(),
                0,
                self.certain(),
                target,
                replacement,
                crossed,
                self.calls_method(),
            );
            if inside.found is Some {
                Search {
                    found: inside.found,
                    crossed: inside.crossed,
                    after: self.with_children(inside.after),
                }
            } else if Self::reads_from(self.children(), self.certain()).contains(target) {
                Search { found: Some(false), crossed: inside.crossed, after: self }
            } else {
                Search {
                    found: None,
                    crossed: inside.crossed || self.stops(replacement),
                    after: self,
                }
            }
        }
    }

    /// The same of the expressions from position `from` on and before `end`.
    /// Past the first of the operands of a method call an effect is met.
    pub open spec fn filled_in_from(
        values: Seq<RValueView>,
        from: int,
        end: int,
        target: RcLocal,
        replacement: RValueView,
        crossed: bool,
        method: bool,
    ) -> Search<Seq<RValueView>>
        decreases Self::sizes_from(values, from), 1int,
    {
        proof {
            model::lemma_sizes_step(values, from);
        }
        if 0 <= from < end && from < values.len() {
            let first = values[from].filled_in(target, replacement, crossed);
            if first.found is Some {
                Search {
                    found: first.found,
                    crossed: first.crossed,
                    after: values.update(from, first.after),
                }
            } else {
                Self::filled_in_from(
                    values,
                    from + 1,
                    end,
                    target,
                    replacement,
                    first.crossed || (method && from == 0),
                    method,
                )
            }
        } else {
            Search { found: None, crossed, after: values }
        }
    }
}

fn is_observable(value: &RValue) -> (result: bool)
    ensures
        result == value@.is_observable(),
{
    proof {
        nodes::rvalue_node(*value);
    }
    let imported = match value {
        RValue::Global(global) => global.origin() == GlobalOrigin::CompilerImport,
        _ => false,
    };
    value.has_side_effects() && !imported
}

/// Whether one of the expressions from position `from` on reads a local.
fn reads_later(values: &Vec<&RValue>, from: usize, target: RcLocal) -> (result: bool)
    requires
        from <= values@.len(),
    ensures
        result == RValueView::reads_from(RValue::borrowed(values@), from as int).contains(target),
{
    let ghost views = RValue::borrowed(values@);
    let mut index: usize = from;
    let ghost mut seen: Seq<RcLocal> = Seq::empty();
    while index < values.len()
        invariant
            from <= index <= values@.len() == views.len(),
            views == RValue::borrowed(values@),
            !seen.contains(target),
            seen + RValueView::reads_from(views, index as int) =~= RValueView::reads_from(
                views,
                from as int,
            ),
        decreases values.len() - index,
    {
        let locals = values[index].values_read();
        let ghost rest = RValueView::reads_from(views, index + 1);
        if has_local(&locals, target) {
            proof {
                let i = choose|i: int| 0 <= i < locals@.len() && locals@[i] == target;
                assert((seen + (locals@ + rest))[seen.len() + i] == target);
            }
            return true;
        }
        proof {
            assert(!(seen + locals@).contains(target)) by {
                if (seen + locals@).contains(target) {
                    let i = choose|i: int|
                        0 <= i < (seen + locals@).len() && (seen + locals@)[i] == target;
                    if i < seen.len() {
                        assert(seen[i] == target);
                    } else {
                        assert(locals@[i - seen.len()] == target);
                    }
                }
            }
            seen = seen + locals@;
        }
        index += 1;
    }
    proof {
        assert(seen + Seq::<RcLocal>::empty() =~= seen);
    }
    false
}

fn fill_in_value(value: RValue, target: RcLocal, replacement: &RValue, crossed: bool) -> (result: (
    Option<bool>,
    bool,
    RValue,
))
    ensures
        value@.filled_in(target, replacement@, crossed) == (Search {
            found: result.0,
            crossed: result.1,
            after: result.2@,
        }),
    decreases value@.size(), 0int,
{
    let ghost whole = value@;
    proof {
        nodes::rvalue_node(value);
        model::lemma_children_smaller(whole);
        shape_laws::same_operands(whole);
    }
    if value.as_local() == Some(target) {
        if crossed {
            return (Some(false), crossed, value);
        }
        return (Some(true), crossed, replacement.clone());
    }
    let stops = is_observable(&value) || (replacement.has_side_effects()
        && value.values_read().len() > 0);
    let method = matches!(value, RValue::MethodCall(_) | RValue::Select(Select::MethodCall(_)));
    let partial = match &value {
        RValue::Binary(binary) => binary.operation == BinaryOperation::And || binary.operation
            == BinaryOperation::Or,
        RValue::Conditional(_) => true,
        _ => false,
    };
    let parts = value.rvalues();
    let end: usize = if partial {
        1
    } else {
        parts.len()
    };
    proof {
        assert(parts@.len() == RValue::borrowed(parts@).len());
        assert(end == whole.certain());
    }
    let later = reads_later(&parts, end, target);
    let (shell, operands) = value.decompose();
    proof {
        assert(operands@.len() == RValue::views(operands@).len());
    }
    let (found, met, operands) = fill_in_values(
        operands,
        end,
        target,
        replacement,
        crossed,
        method,
    );
    let ghost given = RValue::views(operands@);
    proof {
        assert(whole.takes(operands@.len() as int));
        assert(shell@.takes(operands@.len() as int));
    }
    let value = shell.compose(operands);
    proof {
        assert(value@ == whole.with_children(given));
    }
    if found.is_some() {
        return (found, met, value);
    }
    if later {
        return (Some(false), met, value);
    }
    (None, met || stops, value)
}

fn fill_in_values(
    given: Vec<RValue>,
    end: usize,
    target: RcLocal,
    replacement: &RValue,
    crossed: bool,
    method: bool,
) -> (result: (Option<bool>, bool, Vec<RValue>))
    requires
        end <= given@.len(),
    ensures
        RValueView::filled_in_from(
            RValue::views(given@),
            0,
            end as int,
            target,
            replacement@,
            crossed,
            method,
        ) == (Search { found: result.0, crossed: result.1, after: RValue::views(result.2@) }),
        result.2@.len() == given@.len(),
        result.0 is None ==> RValue::views(result.2@) == RValue::views(given@),
    decreases RValueView::sizes_from(RValue::views(given@), 0), 1int,
{
    let ghost views = RValue::views(given@);
    let ghost whole = RValueView::filled_in_from(
        views,
        0,
        end as int,
        target,
        replacement@,
        crossed,
        method,
    );
    let mut values = given;
    let mut met = crossed;
    let mut index: usize = 0;
    while index < end
        invariant
            index <= end <= values@.len() == views.len(),
            views == RValue::views(given@),
            RValue::views(values@) == views,
            whole == RValueView::filled_in_from(
                views,
                0,
                end as int,
                target,
                replacement@,
                crossed,
                method,
            ),
            whole == RValueView::filled_in_from(
                views,
                index as int,
                end as int,
                target,
                replacement@,
                met,
                method,
            ),
        decreases end - index,
    {
        proof {
            model::lemma_sizes_member(views, 0, index as int);
            assert(views[index as int] == values@[index as int]@);
        }
        let value = values.remove(index);
        let (found, next, value) = fill_in_value(value, target, replacement, met);
        let ghost after = value@;
        values.insert(index, value);
        proof {
            assert(RValue::views(values@) =~= views.update(index as int, after));
        }
        if found.is_some() {
            return (found, next, values);
        }
        met = next || (method && index == 0);
        proof {
            assert(views.update(index as int, after) =~= views);
        }
        index += 1;
    }
    (None, met, values)
}

/// Whether an expression may not be moved past the targets from position
/// `from` on.
pub open spec fn targets_stop_from(
    targets: Seq<LValueView>,
    from: int,
    replacement: RValueView,
) -> bool
    decreases targets.len() - from,
{
    if 0 <= from < targets.len() {
        targets[from].has_side_effects() || (replacement.has_side_effects()
            && targets[from].reads().len() > 0) || targets_stop_from(targets, from + 1, replacement)
    } else {
        false
    }
}

/// A statement with `replacement` in the place of the first read of `target`,
/// where it can be moved there.
pub open spec fn consumed(statement: StatementView, target: RcLocal, replacement: RValueView) -> Option<
    StatementView,
> {
    match statement {
        StatementView::Assign(assign) => {
            let search = RValueView::filled_in_from(
                assign.right,
                0,
                assign.right.len() as int,
                target,
                replacement,
                targets_stop_from(assign.left, 0, replacement),
                false,
            );
            if search.found == Some(true) {
                Some(StatementView::Assign(AssignView { right: search.after, ..assign }))
            } else {
                None
            }
        },
        StatementView::Call(_) | StatementView::MethodCall(_) | StatementView::Return(_) => {
            let search = RValueView::filled_in_from(
                statement.roots(),
                0,
                statement.roots().len() as int,
                target,
                replacement,
                false,
                statement is MethodCall,
            );
            if search.found == Some(true) {
                Some(statement.with_roots(search.after))
            } else {
                None
            }
        },
        _ => None,
    }
}

fn targets_stop(targets: &Vec<LValue>, replacement: &RValue) -> (result: bool)
    ensures
        result == targets_stop_from(LValue::views(targets@), 0, replacement@),
{
    let ghost views = LValue::views(targets@);
    let effects = replacement.has_side_effects();
    let mut index: usize = 0;
    while index < targets.len()
        invariant
            index <= targets@.len() == views.len(),
            views == LValue::views(targets@),
            effects == replacement@.has_side_effects(),
            targets_stop_from(views, 0, replacement@) == targets_stop_from(
                views,
                index as int,
                replacement@,
            ),
        decreases targets.len() - index,
    {
        if targets[index].has_side_effects() || (effects && targets[index].values_read().len()
            > 0) {
            return true;
        }
        index += 1;
    }
    false
}

fn replace_in_consumer(statement: &Statement, target: RcLocal, replacement: &RValue) -> (replaced:
    Option<Statement>)
    ensures
        match replaced {
            Some(replaced) => consumed(statement@, target, replacement@) == Some(replaced@),
            None => consumed(statement@, target, replacement@) is None,
        },
{
    let ghost whole = statement@;
    proof {
        nodes::statement_node(*statement);
    }
    match statement {
        Statement::Assign(assign) => {
            proof {
                nodes::assign_node(*assign);
            }
            let crossed = targets_stop(&assign.left, replacement);
            let Assign { left, right, prefix, parallel } = assign.clone();
            proof {
                nodes::assign_node(Assign { left, right, prefix, parallel });
            }
            let count: usize = right.len();
            let (found, met, right) = fill_in_values(
                right,
                count,
                target,
                replacement,
                crossed,
                false,
            );
            if found != Some(true) {
                return None;
            }
            let assign = Assign { left, right, prefix, parallel };
            let replaced = Statement::Assign(assign);
            proof {
                nodes::assign_node(assign);
                nodes::statement_node(replaced);
            }
            Some(replaced)
        },
        Statement::Call(_) | Statement::MethodCall(_) | Statement::Return(_) => {
            let method = matches!(statement, Statement::MethodCall(_));
            let (shell, roots, blocks) = statement.clone().decompose();
            let count: usize = roots.len();
            proof {
                assert(roots@.len() == RValue::views(roots@).len());
            }
            let (found, met, roots) = fill_in_values(
                roots,
                count,
                target,
                replacement,
                false,
                method,
            );
            if found != Some(true) {
                return None;
            }
            let ghost given = RValue::views(roots@);
            proof {
                assert(roots@.len() == given.len());
                assert(whole.takes(roots@.len() as int));
                assert(blocks@.len() == Block::views(blocks@).len());
                shape_laws::given_roots(whole, given);
                shape_laws::same_blocks(whole.with_roots(given));
            }
            Some(shell.compose(roots, blocks))
        },
        _ => None,
    }
}

/// Whether a local that an expression reads is written by one of the statements
/// in a range.
pub open spec fn sources_written(
    block: Seq<StatementView>,
    start: int,
    end: int,
    reads: Seq<RcLocal>,
) -> bool {
    exists|k: int|
        0 <= k < reads.len() && alias_elimination::written_within(
            block,
            start,
            end,
            #[trigger] reads[k],
        )
}

/// Where the local that a statement gives a value is read, and the reading
/// statement with the value in its place; where that can be.
pub open spec fn inlining(block: Seq<StatementView>, at: int, protected: Set<u64>) -> Option<
    (int, StatementView),
> {
    match inline_candidate(block[at]) {
        Some((target, value)) => if protected.contains(target.id) {
            None
        } else {
            match straight_read_from(block, at + 1, target, None) {
                Some(read_at) => if alias_elimination::effects_within(block, at + 1, read_at)
                    || sources_written(block, at + 1, read_at + 1, value.reads()) {
                    None
                } else {
                    match consumed(block[read_at], target, value) {
                        Some(replaced) => Some((read_at, replaced)),
                        None => None,
                    }
                },
                None => None,
            }
        },
        None => None,
    }
}

proof fn lemma_inlining_within(block: Seq<StatementView>, at: int, protected: Set<u64>)
    requires
        0 <= at < block.len(),
    ensures
        match inlining(block, at, protected) {
            Some((read_at, _)) => at < read_at < block.len(),
            None => true,
        },
{
    match inline_candidate(block[at]) {
        Some((target, _)) => lemma_straight_read_within(block, at + 1, target, None),
        None => {},
    }
}

/// The block with the values given from position `from` on moved to where they
/// are read, where they can be, and how many were.
pub open spec fn inlined_from(block: Seq<StatementView>, from: int, protected: Set<u64>) -> (
    nat,
    Seq<StatementView>,
)
    decreases block.len() - from,
{
    if 0 <= from < block.len() {
        proof {
            match inline_candidate(block[from]) {
                Some((target, _)) => lemma_straight_read_within(block, from + 1, target, None),
                None => {},
            }
        }
        match inlining(block, from, protected) {
            Some((read_at, replaced)) => {
                let (count, rest) = inlined_from(
                    block.update(read_at, replaced).remove(from),
                    from,
                    protected,
                );
                (count + 1, rest)
            },
            None => inlined_from(block, from + 1, protected),
        }
    } else {
        (0, block)
    }
}

/// Each value that is moved takes a statement away.
pub proof fn inlining_shortens(block: Seq<StatementView>, from: int, protected: Set<u64>)
    ensures
        inlined_from(block, from, protected).0 + inlined_from(block, from, protected).1.len()
            == block.len(),
    decreases block.len() - from,
{
    if 0 <= from < block.len() {
        lemma_inlining_within(block, from, protected);
        match inlining(block, from, protected) {
            Some((read_at, replaced)) => inlining_shortens(
                block.update(read_at, replaced).remove(from),
                from,
                protected,
            ),
            None => inlining_shortens(block, from + 1, protected),
        }
    }
}

/// The block with values moved until none can be, and how many were.
pub open spec fn inlined(block: Seq<StatementView>, protected: Set<u64>) -> (
    nat,
    Seq<StatementView>,
)
    decreases block.len(),
{
    proof {
        inlining_shortens(block, 0, protected);
    }
    let (count, once) = inlined_from(block, 0, protected);
    if count == 0 {
        (0, once)
    } else {
        let (more, last) = inlined(once, protected);
        (count + more, last)
    }
}

/// The statements from position `from` on with branches that stand for a
/// conditional written so, and how many there were.
pub open spec fn conditionals_from(block: Seq<StatementView>, from: int) -> (
    nat,
    Seq<StatementView>,
)
    decreases block.len() - from,
{
    if 0 <= from < block.len() {
        let (count, rest) = conditionals_from(block, from + 1);
        match as_conditional(block[from]) {
            Some(recovered) => (count + 1, seq![recovered] + rest),
            None => (count, seq![block[from]] + rest),
        }
    } else {
        (0, Seq::empty())
    }
}

/// The block with the pairs of statements from position `from` on that stand
/// for a short circuit written so, and how many there were.
pub open spec fn short_circuits_from(
    block: Seq<StatementView>,
    from: int,
    protected: Set<u64>,
) -> (nat, Seq<StatementView>)
    decreases block.len() - from,
{
    if 0 <= from && from + 1 < block.len() {
        match as_short_circuit(block[from], block[from + 1], protected) {
            Some(recovered) => {
                let (count, rest) = short_circuits_from(
                    block.update(from, recovered).remove(from + 1),
                    from,
                    protected,
                );
                (count + 1, rest)
            },
            None => short_circuits_from(block, from + 1, protected),
        }
    } else {
        (0, block)
    }
}

fn find_plain_assignment(statement: &Statement) -> (found: Option<(RcLocal, &RValue)>)
    ensures
        match found {
            Some((target, value)) => plain_assignment(statement@) == Some((target, value@)),
            None => plain_assignment(statement@) is None,
        },
{
    match statement.as_assign() {
        Some(assign) => {
            proof {
                nodes::assign_node(*assign);
            }
            if assign.prefix || assign.parallel || assign.left.len() != 1 || assign.right.len()
                != 1 {
                return None;
            }
            match assign.left[0].as_local() {
                Some(target) => Some((target, &assign.right[0])),
                None => None,
            }
        },
        None => None,
    }
}

fn find_single_assignment(block: &Block) -> (found: Option<(RcLocal, &RValue)>)
    ensures
        match found {
            Some((target, value)) => single_local_assignment(block@) == Some((target, value@)),
            None => single_local_assignment(block@) is None,
        },
{
    if block.0.len() != 1 {
        return None;
    }
    find_plain_assignment(&block.0[0])
}

fn assign_local(target: RcLocal, value: RValue) -> (statement: Statement)
    ensures
        statement@ == assigned(target, value@),
{
    let mut left: Vec<LValue> = Vec::new();
    let mut right: Vec<RValue> = Vec::new();
    let local = LValue::Local(target);
    let ghost given = value@;
    proof {
        nodes::lvalue_node(local);
    }
    left.push(local);
    right.push(value);
    let statement = Statement::Assign(Assign::new(left, right));
    proof {
        nodes::statement_node(statement);
        assert(LValue::views(left@) =~= seq![LValueView::Local(target)]);
        assert(RValue::views(right@) =~= seq![given]);
    }
    statement
}

fn try_recover_conditional(statement: &Statement) -> (recovered: Option<Statement>)
    ensures
        match recovered {
            Some(recovered) => as_conditional(statement@) == Some(recovered@),
            None => as_conditional(statement@) is None,
        },
{
    proof {
        nodes::statement_node(*statement);
    }
    let branch = match statement {
        Statement::If(branch) => branch,
        _ => {
            return None;
        },
    };
    let (target, then_value) = match find_single_assignment(&branch.then_block) {
        Some(found) => found,
        None => {
            return None;
        },
    };
    let (other, else_value) = match find_single_assignment(&branch.else_block) {
        Some(found) => found,
        None => {
            return None;
        },
    };
    if target != other || has_local(&branch.condition.values_read(), target) || has_local(
        &then_value.values_read(),
        target,
    ) || has_local(&else_value.values_read(), target) {
        return None;
    }
    let value = RValue::Conditional(
        Conditional {
            condition: Box::new(branch.condition.clone()),
            then_value: Box::new(then_value.clone()),
            else_value: Box::new(else_value.clone()),
        },
    );
    proof {
        nodes::rvalue_node(value);
    }
    Some(assign_local(target, value))
}

fn find_operator(condition: &RValue, target: RcLocal) -> (operation: Option<BinaryOperation>)
    ensures
        operation == short_circuit_operator(condition@, target),
{
    proof {
        nodes::rvalue_node(*condition);
    }
    match condition {
        RValue::Local(local) => if *local == target {
            Some(BinaryOperation::And)
        } else {
            None
        },
        RValue::Unary(unary) => if unary.operation == UnaryOperation::Not && unary.value.as_local()
            == Some(target) {
            Some(BinaryOperation::Or)
        } else {
            None
        },
        _ => None,
    }
}

fn try_extend_short_circuit(
    first: &Statement,
    second: &Statement,
    protected: &FxHashSet<u64>,
) -> (recovered: Option<Statement>)
    ensures
        match recovered {
            Some(recovered) => as_short_circuit(first@, second@, protected@) == Some(recovered@),
            None => as_short_circuit(first@, second@, protected@) is None,
        },
{
    let (target, value) = match find_plain_assignment(first) {
        Some(found) => found,
        None => {
            return None;
        },
    };
    if has_member(protected, target.id) || has_local(&value.values_read(), target) {
        return None;
    }
    proof {
        nodes::statement_node(*second);
    }
    let branch = match second {
        Statement::If(branch) => branch,
        _ => {
            return None;
        },
    };
    let operation = match find_operator(&branch.condition, target) {
        Some(operation) => operation,
        None => {
            return None;
        },
    };
    if !branch.else_block.is_empty() {
        return None;
    }
    let (other, branch_value) = match find_single_assignment(&branch.then_block) {
        Some(found) => found,
        None => {
            return None;
        },
    };
    if other != target || has_local(&branch_value.values_read(), target) {
        return None;
    }
    let joined = RValue::Binary(
        Binary {
            left: Box::new(value.clone()),
            right: Box::new(branch_value.clone()),
            operation,
        },
    );
    proof {
        nodes::rvalue_node(joined);
    }
    Some(assign_local(target, joined))
}

fn find_candidate(statement: &Statement) -> (found: Option<(RcLocal, &RValue)>)
    ensures
        match found {
            Some((target, value)) => inline_candidate(statement@) == Some((target, value@)),
            None => inline_candidate(statement@) is None,
        },
{
    let (target, value) = match find_plain_assignment(statement) {
        Some(found) => found,
        None => {
            return None;
        },
    };
    proof {
        nodes::rvalue_node(*value);
    }
    if matches!(
        value,
        RValue::Local(_) | RValue::Call(_) | RValue::MethodCall(_) | RValue::Closure(_)
        | RValue::Table(_) | RValue::VarArg(_) | RValue::Select(Select::VarArg(_))
    ) || has_local(&value.values_read(), target) {
        return None;
    }
    Some((target, value))
}

fn find_straight_read(block: &Vec<Statement>, start: usize, local: RcLocal) -> (found: Option<
    usize,
>)
    requires
        start <= block@.len(),
    ensures
        match found {
            Some(at) => start <= at < block@.len() && straight_read_from(
                Statement::views(block@),
                start as int,
                local,
                None,
            ) == Some(at as int),
            None => straight_read_from(Statement::views(block@), start as int, local, None) is None,
        },
{
    let ghost views = Statement::views(block@);
    let mut found: Option<usize> = None;
    let mut index: usize = start;
    while index < block.len()
        invariant
            start <= index <= block.len(),
            views == Statement::views(block@),
            found matches Some(at) ==> start <= at < index,
            straight_read_from(views, start as int, local, None) == straight_read_from(
                views,
                index as int,
                local,
                match found {
                    Some(at) => Some(at as int),
                    None => None,
                },
            ),
        decreases block.len() - index,
    {
        let statement = &block[index];
        proof {
            nodes::statement_node(*statement);
        }
        if matches!(
            statement,
            Statement::If(_) | Statement::While(_) | Statement::Repeat(_)
            | Statement::NumericFor(_) | Statement::GenericFor(_)
        ) || has_local(&statement.values_written(), local) {
            return None;
        }
        let reads: usize = count_local(&statement.values_read(), local);
        if reads > 0 {
            if reads > 1 || found.is_some() {
                return None;
            }
            found = Some(index);
        }
        index += 1;
    }
    found
}

fn are_sources_written(block: &Vec<Statement>, start: usize, end: usize, reads: &Vec<RcLocal>) -> (result:
    bool)
    requires
        start <= end <= block@.len(),
    ensures
        result == sources_written(Statement::views(block@), start as int, end as int, reads@),
{
    let ghost views = Statement::views(block@);
    let mut index: usize = 0;
    while index < reads.len()
        invariant
            index <= reads.len(),
            start <= end <= block@.len(),
            views == Statement::views(block@),
            forall|k: int|
                0 <= k < index ==> !alias_elimination::written_within(
                    views,
                    start as int,
                    end as int,
                    #[trigger] reads@[k],
                ),
        decreases reads.len() - index,
    {
        if is_written_within(block, start, end, reads[index]) {
            assert(alias_elimination::written_within(
                views,
                start as int,
                end as int,
                reads@[index as int],
            ));
            return true;
        }
        index += 1;
    }
    false
}

fn try_inline(block: &Vec<Statement>, at: usize, protected: &FxHashSet<u64>) -> (result: Option<
    (usize, Statement),
>)
    requires
        at < block@.len(),
    ensures
        match result {
            Some((read_at, replaced)) => at < read_at < block@.len() && inlining(
                Statement::views(block@),
                at as int,
                protected@,
            ) == Some((read_at as int, replaced@)),
            None => inlining(Statement::views(block@), at as int, protected@) is None,
        },
{
    let length: usize = block.len();
    assert(at < length);
    let (target, value) = match find_candidate(&block[at]) {
        Some(found) => found,
        None => {
            return None;
        },
    };
    if has_member(protected, target.id) {
        return None;
    }
    let read_at = match find_straight_read(block, at + 1, target) {
        Some(read_at) => read_at,
        None => {
            return None;
        },
    };
    if has_effects_within(block, at + 1, read_at) || are_sources_written(
        block,
        at + 1,
        read_at + 1,
        &value.values_read(),
    ) {
        return None;
    }
    match replace_in_consumer(&block[read_at], target, value) {
        Some(replaced) => Some((read_at, replaced)),
        None => None,
    }
}

fn inline_block_once(block: Vec<Statement>, protected: &FxHashSet<u64>) -> (result: (
    Vec<Statement>,
    usize,
))
    ensures
        (result.1 as nat, Statement::views(result.0@)) == inlined_from(
            Statement::views(block@),
            0,
            protected@,
        ),
{
    let ghost views = Statement::views(block@);
    let ghost whole = inlined_from(views, 0, protected@);
    let mut statements = block;
    let length: usize = statements.len();
    let mut removed: usize = 0;
    let mut index: usize = 0;
    while index < statements.len()
        invariant
            index <= statements@.len(),
            removed + statements@.len() == length,
            ({
                let (count, rest) = inlined_from(
                    Statement::views(statements@),
                    index as int,
                    protected@,
                );
                whole == ((removed + count) as nat, rest)
            }),
        decreases statements@.len() - index,
    {
        let ghost before = Statement::views(statements@);
        match try_inline(&statements, index, protected) {
            Some((read_at, replaced)) => {
                let ghost put = replaced@;
                let read = statements.remove(read_at);
                statements.insert(read_at, replaced);
                proof {
                    assert(Statement::views(statements@) =~= before.update(read_at as int, put));
                }
                let source = statements.remove(index);
                proof {
                    assert(Statement::views(statements@) =~= before.update(
                        read_at as int,
                        put,
                    ).remove(index as int));
                }
                removed += 1;
            },
            None => {
                index += 1;
            },
        }
    }
    (statements, removed)
}

fn inline_block(block: Vec<Statement>, protected: &FxHashSet<u64>) -> (result: (
    Vec<Statement>,
    usize,
))
    ensures
        (result.1 as nat, Statement::views(result.0@)) == inlined(
            Statement::views(block@),
            protected@,
        ),
{
    let ghost whole = inlined(Statement::views(block@), protected@);
    let length: usize = block.len();
    let mut statements = block;
    let mut removed: usize = 0;
    loop
        invariant_except_break
            removed + statements@.len() == length,
            ({
                let (count, rest) = inlined(Statement::views(statements@), protected@);
                whole == ((removed + count) as nat, rest)
            }),
        ensures
            whole == (removed as nat, Statement::views(statements@)),
        decreases statements@.len(),
    {
        proof {
            inlining_shortens(Statement::views(statements@), 0, protected@);
        }
        let (once, count) = inline_block_once(statements, protected);
        proof {
            assert(once@.len() == Statement::views(once@).len());
        }
        statements = once;
        if count == 0 {
            break;
        }
        removed += count;
    }
    (statements, removed)
}

fn recover_conditionals(block: Vec<Statement>) -> (result: (Vec<Statement>, usize))
    ensures
        (result.1 as nat, Statement::views(result.0@)) == conditionals_from(
            Statement::views(block@),
            0,
        ),
{
    let ghost views = Statement::views(block@);
    let ghost whole = conditionals_from(views, 0);
    let count: usize = block.len();
    let mut rest = block;
    let mut done: Vec<Statement> = Vec::new();
    let mut recovered: usize = 0;
    let mut index: usize = 0;
    proof {
        assert(Statement::views(done@) + whole.1 =~= whole.1);
    }
    while index < count
        invariant
            recovered <= index <= count == views.len(),
            rest@.len() == count - index,
            Statement::views(rest@) =~= views.skip(index as int),
            ({
                let (more, remaining) = conditionals_from(views, index as int);
                whole == ((recovered + more) as nat, Statement::views(done@) + remaining)
            }),
        decreases count - index,
    {
        let ghost before = Statement::views(rest@);
        let ghost held = Statement::views(done@);
        let statement = rest.remove(0);
        proof {
            assert(before[0] == views[index as int]);
            assert(Statement::views(rest@) =~= before.skip(1));
        }
        let ghost put;
        match try_recover_conditional(&statement) {
            Some(conditional) => {
                proof {
                    put = conditional@;
                }
                done.push(conditional);
                recovered += 1;
            },
            None => {
                proof {
                    put = statement@;
                }
                done.push(statement);
            },
        }
        proof {
            let (_, remaining) = conditionals_from(views, index as int);
            let (_, fewer) = conditionals_from(views, index + 1);
            assert(Statement::views(done@) =~= held.push(put));
            assert(Statement::views(done@) + fewer =~= held + remaining);
        }
        index += 1;
    }
    proof {
        assert(Statement::views(done@) + Seq::<StatementView>::empty() =~= Statement::views(done@));
    }
    (done, recovered)
}

fn recover_short_circuits(block: Vec<Statement>, protected: &FxHashSet<u64>) -> (result: (
    Vec<Statement>,
    usize,
))
    ensures
        (result.1 as nat, Statement::views(result.0@)) == short_circuits_from(
            Statement::views(block@),
            0,
            protected@,
        ),
{
    let ghost whole = short_circuits_from(Statement::views(block@), 0, protected@);
    let length: usize = block.len();
    let mut statements = block;
    let mut recovered: usize = 0;
    let mut index: usize = 0;
    while statements.len() > 1 && index < statements.len() - 1
        invariant
            recovered + statements@.len() == length,
            ({
                let (count, rest) = short_circuits_from(
                    Statement::views(statements@),
                    index as int,
                    protected@,
                );
                whole == ((recovered + count) as nat, rest)
            }),
        decreases statements@.len() - index,
    {
        let ghost before = Statement::views(statements@);
        match try_extend_short_circuit(&statements[index], &statements[index + 1], protected) {
            Some(extended) => {
                let ghost put = extended@;
                let first = statements.remove(index);
                statements.insert(index, extended);
                proof {
                    assert(Statement::views(statements@) =~= before.update(index as int, put));
                }
                let second = statements.remove(index + 1);
                proof {
                    assert(Statement::views(statements@) =~= before.update(
                        index as int,
                        put,
                    ).remove(index + 1));
                }
                recovered += 1;
            },
            None => {
                index += 1;
            },
        }
    }
    (statements, recovered)
}

/// What a recovery of expressions carries: the locals that others can see, and
/// how often it applied.
#[verifier::ext_equal]
pub struct RecoveryNotes {
    pub protected: Set<u64>,
    pub stats: ExpressionRecoveryStats,
}

/// Recovers the expressions of a tree, and counts them.
pub struct ExpressionRecovery {
    pub protected: FxHashSet<u64>,
    pub stats: ExpressionRecoveryStats,
}

impl BlockPass for ExpressionRecovery {
    type Notes = RecoveryNotes;

    open spec fn notes(&self) -> RecoveryNotes {
        RecoveryNotes { protected: self.protected@, stats: self.stats }
    }

    open spec fn enters_closures() -> bool {
        false
    }

    open spec fn enters_scopes() -> bool {
        false
    }

    open spec fn settled(value: RValueView) -> RValueView {
        value
    }

    open spec fn finished(notes: RecoveryNotes, block: Seq<StatementView>, looped: bool) -> (
        RecoveryNotes,
        Seq<StatementView>,
    ) {
        let (conditionals, block) = conditionals_from(block, 0);
        let (short_circuits, block) = short_circuits_from(block, 0, notes.protected);
        let (inlined_temporaries, block) = inlined(block, notes.protected);
        (
            RecoveryNotes {
                protected: notes.protected,
                stats: ExpressionRecoveryStats {
                    conditionals: tally::raised(notes.stats.conditionals, conditionals),
                    short_circuits: tally::raised(notes.stats.short_circuits, short_circuits),
                    inlined_temporaries: tally::raised(
                        notes.stats.inlined_temporaries,
                        inlined_temporaries,
                    ),
                },
            },
            block,
        )
    }

    fn closures_entered() -> (result: bool) {
        false
    }

    fn scopes_entered() -> (result: bool) {
        false
    }

    fn settle(value: RValue) -> (settled: RValue) {
        value
    }

    fn finish(&mut self, block: Block, looped: bool) -> (done: Block) {
        let (block, conditionals) = recover_conditionals(block.0);
        let (block, short_circuits) = recover_short_circuits(block, &self.protected);
        let (block, inlined_temporaries) = inline_block(block, &self.protected);
        self.stats = ExpressionRecoveryStats {
            conditionals: raise(self.stats.conditionals, conditionals),
            short_circuits: raise(self.stats.short_circuits, short_circuits),
            inlined_temporaries: raise(self.stats.inlined_temporaries, inlined_temporaries),
        };
        Block(block)
    }
}

/// Recovers the expressions of a block from the statements that they were
/// split into: conditionals, short circuits, and values that were stored only
/// to be read once. The protected locals, and those that closures capture by
/// reference, keep their stores.
pub fn recover_expressions_with_protected(block: Block, protected: &Vec<RcLocal>) -> (result: (
    Block,
    ExpressionRecoveryStats,
))
    ensures
        ({
            let seen = crate::ast::binding_validation::ids(protected@).union(
                StatementView::references_of(block@, 0),
            );
            let (notes, walked) = StatementView::walked_block::<ExpressionRecovery>(
                block@,
                RecoveryNotes { protected: seen, stats: ExpressionRecoveryStats::none() },
                false,
            );
            result.0@ == walked && result.1 == notes.stats
        }),
{
    let mut seen = collect_ids(protected);
    collect_reference_captures(&block, &mut seen);
    let mut pass = ExpressionRecovery {
        protected: seen,
        stats: ExpressionRecoveryStats::default(),
    };
    let block = walk_block(block, &mut pass, false);
    (block, pass.stats)
}

/// The numbers of locals.
pub fn collect_ids(locals: &Vec<RcLocal>) -> (ids: FxHashSet<u64>)
    ensures
        ids@ == crate::ast::binding_validation::ids(locals@),
{
    let mut found = empty_set();
    let mut index: usize = 0;
    while index < locals.len()
        invariant
            index <= locals.len(),
            forall|id: u64| #[trigger]
                found@.contains(id) <==> exists|i: int|
                    0 <= i < index && (#[trigger] locals@[i]).id == id,
        decreases locals.len() - index,
    {
        let ghost before = found@;
        let fresh = insert_member(&mut found, locals[index].id);
        proof {
            assert forall|id: u64| #[trigger]
                found@.contains(id) == exists|i: int|
                    0 <= i < index + 1 && (#[trigger] locals@[i]).id == id by {
                if before.contains(id) {
                    let i = choose|i: int| 0 <= i < index && (#[trigger] locals@[i]).id == id;
                    assert(locals@[i].id == id);
                }
                if id == locals@[index as int].id {
                    assert(locals@[index as int].id == id);
                }
            }
        }
        index += 1;
    }
    proof {
        assert(found@ =~= crate::ast::binding_validation::ids(locals@));
    }
    found
}

} // verus!
