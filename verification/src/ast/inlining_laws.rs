//! That moving values to where they are read keeps what a block does.

use vstd::prelude::*;

use crate::ast::alias_elimination;
use crate::ast::alias_laws;
use crate::ast::binary;
use crate::ast::expression_recovery;
use crate::ast::frame_laws;
use crate::ast::global::GlobalOrigin;
use crate::ast::local::RcLocal;
use crate::ast::meaning;
use crate::ast::meaning::{Machine, Value, World};
use crate::ast::meaning_laws;
use crate::ast::nodes::{
    AssignView, LValueView, RValueView, SelectView, StatementView, UnaryOperation,
};
use crate::ast::replacement_laws;
use crate::ast::{model, rewrite, shape_laws};

verus! {

impl Machine {
    /// Whether what cannot be observed depends on nothing but the locals: the
    /// making of closures and tables, and the reading of what the compiler
    /// imported.
    pub open spec fn is_settled(self) -> bool {
        &&& self.keeps_cells()
        &&& forall|head: RValueView, code: int, captures: Seq<Value>, left: int, right: int|
            #![trigger (self.closure)(head, code, captures, left), (self.closure)(head, code, captures, right)]
            (self.closure)(head, code, captures, left) == (self.closure)(
                head,
                code,
                captures,
                right,
            )
        &&& forall|head: RValueView, values: Seq<Value>, left: int, right: int|
            #![trigger (self.table)(head, values, left), (self.table)(head, values, right)]
            (self.table)(head, values, left) == (self.table)(head, values, right)
        &&& forall|head: RValueView, left: int, right: int|
            #![trigger (self.apply)(head, Seq::empty(), left), (self.apply)(head, Seq::empty(), right)]
            is_import(head) ==> (self.apply)(head, Seq::empty(), left).0 == (self.apply)(
                head,
                Seq::empty(),
                right,
            ).0 && (self.apply)(head, Seq::empty(), left).1 == left
    }
}

/// Whether an expression is the read of a global that the compiler imported.
pub open spec fn is_import(value: RValueView) -> bool {
    value matches RValueView::Global(global) && global.origin == GlobalOrigin::CompilerImport
}

/// Whether some locals have the same values in two worlds.
pub open spec fn look_alike(locals: Seq<RcLocal>, m: Machine, left: World, right: World) -> bool {
    forall|local: RcLocal|
        locals.contains(local) ==> #[trigger] m.loaded(local, left) == m.loaded(local, right)
}

proof fn lemma_look_alike_part(
    values: Seq<RValueView>,
    from: int,
    i: int,
    m: Machine,
    left: World,
    right: World,
)
    requires
        0 <= from <= i < values.len(),
        look_alike(RValueView::reads_from(values, from), m, left, right),
    ensures
        look_alike(values[i].reads(), m, left, right),
        look_alike(RValueView::reads_from(values, from + 1), m, left, right),
{
    assert forall|local: RcLocal| values[i].reads().contains(local) implies #[trigger] m.loaded(
        local,
        left,
    ) == m.loaded(local, right) by {
        if !RValueView::reads_from(values, from).contains(local) {
            meaning_laws::lemma_not_read(values, from, i, local);
        }
    }
    assert forall|local: RcLocal|
        RValueView::reads_from(values, from + 1).contains(local) implies #[trigger] m.loaded(
        local,
        left,
    ) == m.loaded(local, right) by {
        if !RValueView::reads_from(values, from).contains(local) {
            meaning_laws::lemma_not_read(values, from, i, local);
        }
    }
}

/// What cannot be observed gives the same wherever the locals that it reads
/// have the same values.
pub proof fn locals_decide(value: RValueView, m: Machine, left: World, right: World)
    requires
        m.is_settled(),
        !value.has_side_effects(),
        look_alike(value.reads(), m, left, right),
    ensures
        value.evaluated(m, left).0 == value.evaluated(m, right).0,
    decreases value.size(), 0int,
{
    let children = value.children();
    model::lemma_children_smaller(value);
    binary::lemma_operand_sizes(value);
    meaning_laws::unobservable_changes_nothing(value, m, left);
    meaning_laws::unobservable_changes_nothing(value, m, right);
    match value {
        RValueView::Local(local) => {
            assert(value.reads()[0] == local);
            assert(value.reads().contains(local));
        },
        RValueView::Closure(closure) => {
            assert(m.captures(closure.upvalues, left) =~= m.captures(closure.upvalues, right)) by {
                assert forall|i: int| 0 <= i < closure.upvalues.len() implies m.loaded(
                    (#[trigger] closure.upvalues[i]).captured(),
                    left,
                ) == m.loaded(closure.upvalues[i].captured(), right) by {
                    assert(value.reads()[i] == closure.upvalues[i].captured());
                    assert(value.reads().contains(closure.upvalues[i].captured()));
                }
            }
        },
        RValueView::Table(_) => {
            meaning_laws::lemma_unobservable_operands(children, 0, value.expands(), m, left);
            meaning_laws::lemma_unobservable_operands(children, 0, value.expands(), m, right);
            lemma_locals_decide_from(children, 0, value.expands(), m, left, right);
        },
        RValueView::Unary(operand, _) => {
            assert(children[0] == *operand);
            meaning_laws::lemma_no_effect(children, 0, 0);
            lemma_look_alike_part(children, 0, 0, m, left, right);
            locals_decide(*operand, m, left, right);
        },
        RValueView::Binary(first, second, _) => {
            assert(children[0] == *first && children[1] == *second);
            meaning_laws::lemma_no_effect(children, 0, 0);
            meaning_laws::lemma_no_effect(children, 0, 1);
            lemma_look_alike_part(children, 0, 0, m, left, right);
            lemma_look_alike_part(children, 0, 1, m, left, right);
            locals_decide(*first, m, left, right);
            locals_decide(*second, m, left, right);
            meaning_laws::unobservable_changes_nothing(*first, m, left);
            meaning_laws::unobservable_changes_nothing(*first, m, right);
        },
        RValueView::Conditional(condition, then_value, else_value) => {
            assert(children[0] == *condition && children[1] == *then_value && children[2]
                == *else_value);
            meaning_laws::lemma_no_effect(children, 0, 0);
            meaning_laws::lemma_no_effect(children, 0, 1);
            meaning_laws::lemma_no_effect(children, 0, 2);
            lemma_look_alike_part(children, 0, 0, m, left, right);
            lemma_look_alike_part(children, 0, 1, m, left, right);
            lemma_look_alike_part(children, 0, 2, m, left, right);
            model::lemma_child_smaller(value, 0);
            model::lemma_child_smaller(value, 1);
            model::lemma_child_smaller(value, 2);
            locals_decide(*condition, m, left, right);
            locals_decide(*then_value, m, left, right);
            locals_decide(*else_value, m, left, right);
            meaning_laws::unobservable_changes_nothing(*condition, m, left);
            meaning_laws::unobservable_changes_nothing(*condition, m, right);
        },
        _ => {},
    }
}

proof fn lemma_locals_decide_from(
    values: Seq<RValueView>,
    from: int,
    expands: bool,
    m: Machine,
    left: World,
    right: World,
)
    requires
        0 <= from,
        m.is_settled(),
        !RValueView::effects_from(values, from),
        look_alike(RValueView::reads_from(values, from), m, left, right),
    ensures
        RValueView::operands_from(values, from, expands, m, left).0 == RValueView::operands_from(
            values,
            from,
            expands,
            m,
            right,
        ).0,
    decreases RValueView::sizes_from(values, from), 1int,
{
    model::lemma_sizes_step(values, from);
    if from < values.len() {
        lemma_look_alike_part(values, from, from, m, left, right);
        locals_decide(values[from], m, left, right);
        meaning_laws::unobservable_changes_nothing(values[from], m, left);
        meaning_laws::unobservable_changes_nothing(values[from], m, right);
        lemma_locals_decide_from(values, from + 1, expands, m, left, right);
    }
}

/// Computing an expression leaves the locals as they are that nobody else sees.
pub proof fn expressions_keep_locals(value: RValueView, m: Machine, world: World)
    ensures
        value.evaluated(m, world).1.locals == world.locals,
    decreases value.size(), 0int,
{
    let children = value.children();
    model::lemma_children_smaller(value);
    binary::lemma_operand_sizes(value);
    match value {
        RValueView::Unary(operand, UnaryOperation::Not) => {
            expressions_keep_locals(*operand, m, world);
        },
        RValueView::Binary(left, right, _) => {
            expressions_keep_locals(*left, m, world);
            expressions_keep_locals(*right, m, left.evaluated(m, world).1);
        },
        RValueView::Conditional(condition, then_value, else_value) => {
            assert(children[0] == *condition && children[1] == *then_value && children[2]
                == *else_value);
            model::lemma_child_smaller(value, 0);
            model::lemma_child_smaller(value, 1);
            model::lemma_child_smaller(value, 2);
            let middle = condition.evaluated(m, world).1;
            expressions_keep_locals(*condition, m, world);
            expressions_keep_locals(*then_value, m, middle);
            expressions_keep_locals(*else_value, m, middle);
        },
        RValueView::Local(_) | RValueView::Literal(_) | RValueView::VarArg | RValueView::Closure(_)
        | RValueView::Select(SelectView::VarArg) => {},
        _ => {
            lemma_operands_keep_locals(children, 0, value.expands(), m, world);
        },
    }
}

proof fn lemma_operands_keep_locals(
    values: Seq<RValueView>,
    from: int,
    expands: bool,
    m: Machine,
    world: World,
)
    ensures
        RValueView::operands_from(values, from, expands, m, world).1.locals == world.locals,
    decreases RValueView::sizes_from(values, from), 1int,
{
    model::lemma_sizes_step(values, from);
    if 0 <= from < values.len() {
        expressions_keep_locals(values[from], m, world);
        let middle = values[from].evaluated(m, world).1;
        lemma_operands_keep_locals(values, from + 1, expands, m, middle);
    }
}

/// Past what stops a value nothing is filled in.
proof fn lemma_crossed(value: RValueView, target: RcLocal, replacement: RValueView)
    ensures
        value.filled_in(target, replacement, true).found != Some(true),
        value.filled_in(target, replacement, true).found is None ==> value.filled_in(
            target,
            replacement,
            true,
        ).crossed,
    decreases value.size(), 0int,
{
    model::lemma_children_smaller(value);
    lemma_crossed_from(
        value.children(),
        0,
        value.certain(),
        target,
        replacement,
        value.calls_method(),
    );
}

proof fn lemma_crossed_from(
    values: Seq<RValueView>,
    from: int,
    end: int,
    target: RcLocal,
    replacement: RValueView,
    method: bool,
)
    ensures
        ({
            let search = RValueView::filled_in_from(
                values,
                from,
                end,
                target,
                replacement,
                true,
                method,
            );
            search.found != Some(true) && (search.found is None ==> search.crossed)
        }),
    decreases RValueView::sizes_from(values, from), 1int,
{
    model::lemma_sizes_step(values, from);
    if 0 <= from < end && from < values.len() {
        lemma_crossed(values[from], target, replacement);
        lemma_crossed_from(values, from + 1, end, target, replacement, method);
    }
}

/// Where one of a list of expressions is filled in, none before it stops the
/// value.
proof fn lemma_filled_at(
    values: Seq<RValueView>,
    from: int,
    end: int,
    target: RcLocal,
    replacement: RValueView,
    method: bool,
) -> (i: int)
    requires
        0 <= from,
        RValueView::filled_in_from(
            values,
            from,
            end,
            target,
            replacement,
            false,
            method,
        ).found == Some(true),
    ensures
        from <= i < values.len(),
        i < end,
        values[i].filled_in(target, replacement, false).found == Some(true),
        RValueView::filled_in_from(values, from, end, target, replacement, false, method).after
            == values.update(i, values[i].filled_in(target, replacement, false).after),
        forall|j: int| from <= j < i ==> !(#[trigger] values[j]).stops(replacement),
    decreases values.len() - from,
{
    let first = values[from].filled_in(target, replacement, false);
    if first.found is Some {
        from
    } else {
        if first.crossed || (method && from == 0) {
            lemma_crossed_from(values, from + 1, end, target, replacement, method);
        }
        let i = lemma_filled_at(values, from + 1, end, target, replacement, method);
        assert forall|j: int| from <= j < i implies !(#[trigger] values[j]).stops(replacement) by {
            if j == from {
                assert(!values[from].stops(replacement));
            }
        }
        i
    }
}

/// What is filled in was read.
proof fn lemma_filled_read(value: RValueView, target: RcLocal, replacement: RValueView)
    requires
        value.filled_in(target, replacement, false).found == Some(true),
    ensures
        replacement_laws::count(value.reads(), target) >= 1,
    decreases value.size(),
{
    if value == RValueView::Local(target) {
        assert(value.reads() =~= seq![target]);
        assert(value.reads()[0] == target);
        replacement_laws::lemma_count_zero(value.reads(), target);
    } else {
        let children = value.children();
        let i = lemma_filled_at(
            children,
            0,
            value.certain(),
            target,
            replacement,
            value.calls_method(),
        );
        model::lemma_child_smaller(value, i);
        lemma_filled_read(children[i], target, replacement);
        replacement_laws::lemma_count_replaced(children, 0, i, children[i], target);
    }
}

/// Whether a local holds what an expression gives, in a world that is
/// otherwise as computing the expression leaves another.
pub open spec fn holds(
    target: RcLocal,
    replacement: RValueView,
    m: Machine,
    held: World,
    world: World,
) -> bool {
    let (results, after) = replacement.evaluated(m, world);
    held == m.stored(target, meaning::first(results), after)
}

/// An expression that does not stop a value gives the same before and after
/// the value is computed.
proof fn lemma_passed(
    value: RValueView,
    target: RcLocal,
    replacement: RValueView,
    m: Machine,
    held: World,
    world: World,
)
    requires
        m.is_settled(),
        !m.shared.contains(target.id),
        holds(target, replacement, m, held, world),
        !value.stops(replacement),
        !value.reads().contains(target),
    ensures
        replacement_laws::is_steady(value, m, held, world),
{
    if value.has_side_effects() {
        assert(is_import(value));
        assert(value.children() =~= Seq::<RValueView>::empty());
        assert(value.head() == value);
        assert(RValueView::operands_from(value.children(), 0, value.expands(), m, held) == (
            Seq::<Value>::empty(),
            held,
        ));
        assert(RValueView::operands_from(value.children(), 0, value.expands(), m, world) == (
            Seq::<Value>::empty(),
            world,
        ));
        assert((m.apply)(value, Seq::empty(), held.rest).0 == (m.apply)(
            value,
            Seq::empty(),
            world.rest,
        ).0);
        assert((m.apply)(value, Seq::empty(), world.rest).1 == world.rest);
        assert((m.apply)(value, Seq::empty(), held.rest).1 == held.rest);
    } else {
        meaning_laws::unobservable_changes_nothing(value, m, held);
        meaning_laws::unobservable_changes_nothing(value, m, world);
        assert(look_alike(value.reads(), m, held, world)) by {
            lemma_looks_held(value.reads(), target, replacement, m, held, world);
        }
        locals_decide(value, m, held, world);
    }
}

/// The locals have the same values before and after a value is computed and
/// held, but for those that others see where that can be observed.
proof fn lemma_looks_held(
    locals: Seq<RcLocal>,
    target: RcLocal,
    replacement: RValueView,
    m: Machine,
    held: World,
    world: World,
)
    requires
        !m.shared.contains(target.id),
        holds(target, replacement, m, held, world),
        !locals.contains(target),
        replacement.has_side_effects() ==> forall|k: int|
            0 <= k < locals.len() ==> !m.shared.contains((#[trigger] locals[k]).id),
    ensures
        look_alike(locals, m, held, world),
{
    let (results, after) = replacement.evaluated(m, world);
    expressions_keep_locals(replacement, m, world);
    if !replacement.has_side_effects() {
        meaning_laws::unobservable_changes_nothing(replacement, m, world);
    }
    assert forall|local: RcLocal| locals.contains(local) implies #[trigger] m.loaded(local, held)
        == m.loaded(local, world) by {
        let k = choose|k: int| 0 <= k < locals.len() && locals[k] == local;
        assert(local.id != target.id) by {
            if local.id == target.id {
                assert(local == target);
            }
        }
        if replacement.has_side_effects() {
            assert(!m.shared.contains(locals[k].id));
        }
    }
}

/// An expression with its one read of a local filled in by what the local
/// holds gives the same, and does not read the local.
proof fn lemma_filled(
    value: RValueView,
    target: RcLocal,
    replacement: RValueView,
    m: Machine,
    held: World,
    world: World,
)
    requires
        m.is_settled(),
        !m.shared.contains(target.id),
        holds(target, replacement, m, held, world),
        !replacement.gives_many(),
        replacement_laws::count(value.reads(), target) == 1,
        value.filled_in(target, replacement, false).found == Some(true),
    ensures
        replacement_laws::stands_for(
            value,
            value.filled_in(target, replacement, false).after,
            target,
            meaning::first(replacement.evaluated(m, world).0),
            m,
            held,
            world,
        ),
    decreases value.size(),
{
    let given = meaning::first(replacement.evaluated(m, world).0);
    if value == RValueView::Local(target) {
        assert(value.children().len() == 0);
        meaning_laws::lemma_one_result(replacement, m, world);
        assert(m.loaded(target, held) == given);
    } else {
        let children = value.children();
        let i = lemma_filled_at(
            children,
            0,
            value.certain(),
            target,
            replacement,
            value.calls_method(),
        );
        let other = children[i].filled_in(target, replacement, false).after;
        model::lemma_child_smaller(value, i);
        lemma_filled_read(children[i], target, replacement);
        assert(value.reads() == RValueView::reads_from(children, 0)) by {
            assert(children.len() > 0);
        }
        replacement_laws::lemma_count_replaced(children, 0, i, other, target);
        lemma_filled(children[i], target, replacement, m, held, world);
        assert forall|j: int| 0 <= j < i implies replacement_laws::is_steady(
            #[trigger] children[j],
            m,
            held,
            world,
        ) by {
            alias_laws::lemma_only_read(children, 0, i, j, target);
            lemma_passed(children[j], target, replacement, m, held, world);
        }
        assert forall|j: int| i < j < children.len() implies !(
        #[trigger] children[j]).reads().contains(target) by {
            alias_laws::lemma_only_read(children, 0, i, j, target);
        }
        replacement_laws::lemma_child_replaced(value, i, other, target, given, m, held, world);
    }
}

proof fn lemma_unstopped_targets(targets: Seq<LValueView>, from: int, replacement: RValueView)
    requires
        0 <= from,
        !expression_recovery::targets_stop_from(targets, from, replacement),
    ensures
        !StatementView::target_effects_from(targets, from),
    decreases targets.len() - from,
{
    if from < targets.len() {
        lemma_unstopped_targets(targets, from + 1, replacement);
    }
}

proof fn lemma_refilled_plain(
    targets: Seq<LValueView>,
    from: int,
    operands: Seq<RValueView>,
    at: int,
)
    requires
        0 <= from <= targets.len(),
        !StatementView::target_effects_from(targets, from),
    ensures
        LValueView::refilled_from(targets, from, operands, at) == targets.skip(from),
    decreases targets.len() - from,
{
    if from < targets.len() {
        lemma_refilled_plain(targets, from + 1, operands, at + targets[from].arity());
        assert(seq![targets[from]] + targets.skip(from + 1) =~= targets.skip(from));
    }
}

/// Assignments to locals alone, with another list of values.
proof fn lemma_plain_assign(assign: AssignView, right: Seq<RValueView>)
    requires
        !StatementView::target_effects_from(assign.left, 0),
    ensures
        assign.roots() == assign.right,
        assign.with_roots(right) == (AssignView { right, ..assign }),
{
    alias_laws::lemma_plain_targets(assign.left, 0);
    assert(assign.roots() =~= assign.right);
    lemma_refilled_plain(assign.left, 0, right, 0);
    assert(assign.left.skip(0) =~= assign.left);
    assert(right.skip(0) =~= right);
}

/// Which of the expressions of a statement a value is filled into.
proof fn lemma_consumed(statement: StatementView, target: RcLocal, replacement: RValueView) -> (i:
    int)
    requires
        expression_recovery::consumed(statement, target, replacement) is Some,
    ensures
        ({
            let roots = statement.roots();
            &&& 0 <= i < roots.len()
            &&& roots[i].filled_in(target, replacement, false).found == Some(true)
            &&& expression_recovery::consumed(statement, target, replacement) == Some(
                statement.with_roots(
                    roots.update(i, roots[i].filled_in(target, replacement, false).after),
                ),
            )
            &&& forall|j: int| 0 <= j < i ==> !(#[trigger] roots[j]).stops(replacement)
            &&& statement is Assign || statement is Call || statement is MethodCall
                || statement is Return
            &&& statement matches StatementView::Assign(assign)
                ==> !StatementView::target_effects_from(assign.left, 0)
        }),
{
    if let StatementView::Assign(assign) = statement {
        let end = assign.right.len() as int;
        if expression_recovery::targets_stop_from(assign.left, 0, replacement) {
            lemma_crossed_from(assign.right, 0, end, target, replacement, false);
        }
        lemma_unstopped_targets(assign.left, 0, replacement);
        let i = lemma_filled_at(assign.right, 0, end, target, replacement, false);
        lemma_plain_assign(
            assign,
            assign.right.update(
                i,
                assign.right[i].filled_in(target, replacement, false).after,
            ),
        );
        i
    } else {
        let end = statement.roots().len() as int;
        lemma_filled_at(
            statement.roots(),
            0,
            end,
            target,
            replacement,
            statement is MethodCall,
        )
    }
}

/// A statement that has the one read of a local, where no branch or loop
/// follows, and those that do not.
proof fn lemma_straight_read(
    block: Seq<StatementView>,
    from: int,
    local: RcLocal,
    found: Option<int>,
)
    requires
        0 <= from,
        expression_recovery::straight_read_from(block, from, local, found) is Some,
        found matches Some(at) ==> 0 <= at < from,
    ensures
        ({
            let at = expression_recovery::straight_read_from(block, from, local, found)->0;
            &&& found matches Some(before) ==> at == before
            &&& found is None ==> from <= at < block.len() && replacement_laws::count(
                block[at].reads(),
                local,
            ) == 1
            &&& forall|i: int|
                from <= i < block.len() ==> !(#[trigger] block[i]).writes().contains(local)
                    && !block[i].is_structured() && (i != at ==> !block[i].reads().contains(local))
        }),
    decreases block.len() - from,
{
    if from < block.len() {
        let reads = alias_elimination::occurrences_from(block[from].reads(), 0, local);
        replacement_laws::lemma_count_zero(block[from].reads(), local);
        let next = if reads == 0 {
            found
        } else {
            Some(from)
        };
        lemma_straight_read(block, from + 1, local, next);
        let at = expression_recovery::straight_read_from(block, from, local, found)->0;
        assert forall|i: int| from <= i < block.len() implies !(
        #[trigger] block[i]).writes().contains(local) && !block[i].is_structured() && (i != at
            ==> !block[i].reads().contains(local)) by {
            if i > from {
                assert(from + 1 <= i);
            }
        }
    }
}

/// What is known of the statements around a value that is moved.
proof fn lemma_inlining(block: Seq<StatementView>, at: int, protected: Set<u64>) -> (i: int)
    requires
        0 <= at < block.len(),
        expression_recovery::inlining(block, at, protected) is Some,
    ensures
        ({
            let (target, value) = expression_recovery::plain_assignment(block[at])->0;
            let (read_at, replaced) = expression_recovery::inlining(block, at, protected)->0;
            let roots = block[read_at].roots();
            &&& expression_recovery::plain_assignment(block[at]) is Some
            &&& expression_recovery::is_movable(value)
            &&& !value.reads().contains(target)
            &&& !protected.contains(target.id)
            &&& at < read_at < block.len()
            &&& replacement_laws::count(block[read_at].reads(), target) == 1
            &&& forall|k: int|
                at < k < block.len() ==> !(#[trigger] block[k]).writes().contains(target)
                    && !block[k].is_structured() && (k != read_at ==> !block[k].reads().contains(
                    target,
                ))
            &&& forall|k: int|
                at < k < read_at ==> !(#[trigger] block[k]).has_side_effects() && forall|j: int|
                    0 <= j < value.reads().len() ==> !block[k].writes().contains(
                        #[trigger] value.reads()[j],
                    )
            &&& 0 <= i < roots.len()
            &&& roots[i].filled_in(target, value, false).found == Some(true)
            &&& replaced == block[read_at].with_roots(
                roots.update(i, roots[i].filled_in(target, value, false).after),
            )
            &&& forall|j: int| 0 <= j < i ==> !(#[trigger] roots[j]).stops(value)
            &&& block[read_at] is Assign || block[read_at] is Call || block[read_at] is MethodCall
                || block[read_at] is Return
            &&& block[read_at] matches StatementView::Assign(assign)
                ==> !StatementView::target_effects_from(assign.left, 0)
        }),
{
    let (target, value) = expression_recovery::plain_assignment(block[at])->0;
    let (read_at, replaced) = expression_recovery::inlining(block, at, protected)->0;
    lemma_straight_read(block, at + 1, target, None);
    assert forall|k: int| at < k < read_at implies !(#[trigger] block[k]).has_side_effects()
        && forall|j: int|
        0 <= j < value.reads().len() ==> !block[k].writes().contains(
            #[trigger] value.reads()[j],
        ) by {
        assert(!alias_elimination::effects_within(block, at + 1, read_at));
        assert forall|j: int| 0 <= j < value.reads().len() implies !block[k].writes().contains(
            #[trigger] value.reads()[j],
        ) by {
            assert(!alias_elimination::written_within(block, at + 1, read_at + 1, value.reads()[j]));
        }
    }
    lemma_consumed(block[read_at], target, value)
}

/// Computing a value before or after some locals that it does not read are
/// given theirs is the same, where nobody sees the locals or the computing.
proof fn lemma_stored_after(
    value: RValueView,
    targets: Seq<LValueView>,
    from: int,
    values: Seq<Value>,
    at: int,
    m: Machine,
    world: World,
)
    requires
        0 <= from,
        m.is_settled(),
        forall|j: int|
            0 <= j < value.reads().len() ==> !LValueView::writes_from(targets, from).contains(
                #[trigger] value.reads()[j],
            ),
        value.has_side_effects() ==> forall|k: int|
            0 <= k < LValueView::writes_from(targets, from).len() ==> !m.shared.contains(
                (#[trigger] LValueView::writes_from(targets, from)[k]).id,
            ),
    ensures
        value.evaluated(m, meaning::targets_stored(targets, from, values, at, m, world)) == (
            value.evaluated(m, world).0,
            meaning::targets_stored(
                targets,
                from,
                values,
                at,
                m,
                value.evaluated(m, world).1,
            ),
        ),
    decreases targets.len() - from,
{
    if from < targets.len() {
        let given = if 0 <= at < values.len() {
            values[at]
        } else {
            Value::Nil
        };
        let own = targets[from].writes();
        let rest = LValueView::writes_from(targets, from + 1);
        let all = LValueView::writes_from(targets, from);
        assert(all == own + rest);
        let next = match targets[from] {
            LValueView::Local(target) => m.stored(target, given, world),
            _ => world,
        };
        assert forall|j: int| 0 <= j < value.reads().len() implies !rest.contains(
            #[trigger] value.reads()[j],
        ) by {
            frame_laws::lemma_contains_parts(own, rest, value.reads()[j]);
        }
        if value.has_side_effects() {
            assert forall|k: int| 0 <= k < rest.len() implies !m.shared.contains(
                (#[trigger] rest[k]).id,
            ) by {
                assert(all[own.len() + k] == rest[k]);
            }
        }
        lemma_stored_after(value, targets, from + 1, values, at + 1, m, next);
        if let LValueView::Local(target) = targets[from] {
            assert(own[0] == target);
            assert(all[0] == target);
            assert(all.contains(target));
            assert(!value.reads().contains(target)) by {
                if value.reads().contains(target) {
                    let j = choose|j: int|
                        0 <= j < value.reads().len() && value.reads()[j] == target;
                    assert(!all.contains(value.reads()[j]));
                }
            }
            if m.shared.contains(target.id) {
                assert(!value.has_side_effects());
                meaning_laws::unobservable_changes_nothing(value, m, world);
                meaning_laws::unobservable_changes_nothing(value, m, next);
                assert forall|local: RcLocal|
                    value.reads().contains(local) implies #[trigger] m.loaded(local, next)
                    == m.loaded(local, world) by {
                    alias_laws::lemma_other_stays(target, local, given, m, world);
                }
                locals_decide(value, m, next, world);
            } else {
                meaning_laws::unread_locals_stay(value, target, given, m, world);
            }
        }
    }
}

/// Whether a statement neither reads nor writes a local that others see.
pub open spec fn is_unshared(statement: StatementView, m: Machine) -> bool {
    &&& forall|k: int|
        0 <= k < statement.reads().len() ==> !m.shared.contains(
            (#[trigger] statement.reads()[k]).id,
        )
    &&& forall|k: int|
        0 <= k < statement.writes().len() ==> !m.shared.contains(
            (#[trigger] statement.writes()[k]).id,
        )
}

/// A statement that a value is moved past does the same before and after.
proof fn lemma_moved_past(
    statement: StatementView,
    target: RcLocal,
    value: RValueView,
    m: Machine,
    held: World,
    world: World,
    fuel: nat,
)
    requires
        m.is_settled(),
        !m.shared.contains(target.id),
        holds(target, value, m, held, world),
        !statement.has_side_effects(),
        !statement.reads().contains(target),
        !statement.writes().contains(target),
        forall|j: int|
            0 <= j < value.reads().len() ==> !statement.writes().contains(
                #[trigger] value.reads()[j],
            ),
        value.has_side_effects() ==> is_unshared(statement, m),
    ensures
        holds(
            target,
            value,
            m,
            statement.run(m, held, fuel).0,
            statement.run(m, world, fuel).0,
        ),
        statement.run(m, held, fuel).1 is Normal,
        statement.run(m, world, fuel).1 is Normal,
        value.evaluated(m, statement.run(m, world, fuel).0).0 == value.evaluated(m, world).0,
{
    if let StatementView::Assign(assign) = statement {
        let expands = statement.expands();
        lemma_plain_assign(assign, assign.right);
        alias_laws::lemma_plain_targets(assign.left, 0);
        rewrite::statements_read_their_expressions(statement);
        let reads = RValueView::reads_from(assign.right, 0);
        assert(statement.reads() =~= reads);
        assert(statement.writes() =~= LValueView::writes_from(assign.left, 0));
        meaning_laws::lemma_unobservable_operands(assign.right, 0, expands, m, held);
        meaning_laws::lemma_unobservable_operands(assign.right, 0, expands, m, world);
        if value.has_side_effects() {
            assert forall|k: int| 0 <= k < reads.len() implies !m.shared.contains(
                (#[trigger] reads[k]).id,
            ) by {
                assert(!m.shared.contains(statement.reads()[k].id));
            }
            let written = LValueView::writes_from(assign.left, 0);
            assert forall|k: int| 0 <= k < written.len() implies !m.shared.contains(
                (#[trigger] written[k]).id,
            ) by {
                assert(!m.shared.contains(statement.writes()[k].id));
            }
        }
        lemma_looks_held(reads, target, value, m, held, world);
        lemma_locals_decide_from(assign.right, 0, expands, m, held, world);
        let values = statement.inputs(m, world).0;
        let (results, after) = value.evaluated(m, world);
        lemma_stored_after(value, assign.left, 0, values, 0, m, world);
        frame_laws::lemma_targets_frame(
            assign.left,
            0,
            values,
            0,
            target,
            meaning::first(results),
            m,
            after,
        );
    }
}

/// The statements from the one behind a value that is moved on.
proof fn lemma_inlined_run(
    block: Seq<StatementView>,
    at: int,
    protected: Set<u64>,
    from: int,
    m: Machine,
    held: World,
    world: World,
    fuel: nat,
)
    requires
        0 <= at < block.len(),
        expression_recovery::inlining(block, at, protected) is Some,
        m.is_settled(),
        m.shared.subset_of(protected),
        is_movable_past(block, at, protected, m),
        at < from <= (expression_recovery::inlining(block, at, protected)->0).0,
        holds(
            (expression_recovery::plain_assignment(block[at])->0).0,
            (expression_recovery::plain_assignment(block[at])->0).1,
            m,
            held,
            world,
        ),
    ensures
        ({
            let (target, value) = expression_recovery::plain_assignment(block[at])->0;
            let (read_at, replaced) = expression_recovery::inlining(block, at, protected)->0;
            let made = block.update(read_at, replaced);
            let (after, exit) = StatementView::run_from(made, from, m, world, fuel);
            StatementView::run_from(block, from, m, held, fuel) == (
                m.stored(target, meaning::first(value.evaluated(m, world).0), after),
                exit,
            )
        }),
    decreases block.len() - from,
{
    let (target, value) = expression_recovery::plain_assignment(block[at])->0;
    let (read_at, replaced) = expression_recovery::inlining(block, at, protected)->0;
    let made = block.update(read_at, replaced);
    let given = meaning::first(value.evaluated(m, world).0);
    let i = lemma_inlining(block, at, protected);
    let statement = block[from];
    if from < read_at {
        lemma_moved_past(statement, target, value, m, held, world, fuel);
        let next = statement.run(m, held, fuel).0;
        let after = statement.run(m, world, fuel).0;
        assert(made[from] == statement);
        lemma_inlined_run(block, at, protected, from + 1, m, next, after, fuel);
    } else {
        let roots = statement.roots();
        let other = roots[i].filled_in(target, value, false).after;
        lemma_filled_read(roots[i], target, value);
        alias_laws::lemma_root_counts(statement, i, target);
        lemma_filled(roots[i], target, value, m, held, world);
        assert forall|j: int| 0 <= j < i implies replacement_laws::is_steady(
            #[trigger] roots[j],
            m,
            held,
            world,
        ) by {
            alias_laws::lemma_only_read(roots, 0, i, j, target);
            lemma_passed(roots[j], target, value, m, held, world);
        }
        assert forall|j: int| i < j < roots.len() implies !(
        #[trigger] roots[j]).reads().contains(target) by {
            alias_laws::lemma_only_read(roots, 0, i, j, target);
        }
        assert(statement.blocks().len() == 0);
        replacement_laws::lemma_statement_replaced(
            statement,
            i,
            other,
            target,
            given,
            m,
            held,
            world,
            fuel,
        );
        let after = replaced.run(m, world, fuel).0;
        assert(made[from] == replaced);
        assert forall|k: int| from + 1 <= k < made.len() implies !frame_laws::mentions(
            #[trigger] made[k],
            target,
        ) by {
            assert(made[k] == block[k]);
            if !(block[k] is Do) {
                assert(block[k].blocks().len() == 0);
            }
        }
        frame_laws::lemma_unmentioned_from(made, from + 1, target, given, m, after, fuel);
        alias_laws::lemma_same_later(
            block,
            made,
            from + 1,
            m,
            m.stored(target, given, after),
            fuel,
        );
    }
}

/// Whether the statements behind one allow its value to be moved: no scope
/// mentions the local, and where computing the value can be observed, what is
/// not observed itself neither reads nor writes a local that others see.
pub open spec fn is_movable_past(
    block: Seq<StatementView>,
    at: int,
    protected: Set<u64>,
    m: Machine,
) -> bool {
    match expression_recovery::plain_assignment(block[at]) {
        Some((target, value)) => if protected.contains(target.id) {
            true
        } else {
            forall|k: int|
                at < k < block.len() ==> {
                    &&& (#[trigger] block[k]) is Do ==> !StatementView::blocks_touched(
                        block[k].blocks(),
                        0,
                    ).contains(target)
                    &&& expression_recovery::is_movable(value) && value.has_side_effects()
                        && !block[k].has_side_effects() ==> is_unshared(block[k], m)
                }
        },
        None => true,
    }
}

/// Moving one value to where it is read keeps what a block does, but for the
/// local that held it.
pub proof fn moving_a_value_keeps_runs(
    block: Seq<StatementView>,
    at: int,
    protected: Set<u64>,
    m: Machine,
    world: World,
    fuel: nat,
)
    requires
        0 <= at < block.len(),
        expression_recovery::inlining(block, at, protected) is Some,
        m.is_settled(),
        m.shared.subset_of(protected),
        is_movable_past(block, at, protected, m),
    ensures
        ({
            let target = (expression_recovery::plain_assignment(block[at])->0).0;
            let (read_at, replaced) = expression_recovery::inlining(block, at, protected)->0;
            replacement_laws::ends_alike(
                StatementView::run_from(
                    block.update(read_at, replaced).remove(at),
                    at,
                    m,
                    world,
                    fuel,
                ),
                StatementView::run_from(block, at, m, world, fuel),
                set![target.id],
            )
        }),
{
    let (target, value) = expression_recovery::plain_assignment(block[at])->0;
    let (read_at, replaced) = expression_recovery::inlining(block, at, protected)->0;
    let made = block.update(read_at, replaced);
    let i = lemma_inlining(block, at, protected);
    crate::ast::recovery_laws::lemma_assigned_run(block[at], m, world, fuel);
    let held = block[at].run(m, world, fuel).0;
    lemma_inlined_run(block, at, protected, at + 1, m, held, world, fuel);
    alias_laws::lemma_removed_later(made, at, at + 1, m, world, fuel);
}

/// Computing an expression with a value filled in can be observed where
/// computing the expression or the value can.
proof fn lemma_filled_effects(value: RValueView, target: RcLocal, replacement: RValueView)
    requires
        value.filled_in(target, replacement, false).found == Some(true),
    ensures
        value.filled_in(target, replacement, false).after.has_side_effects() == (
        value.has_side_effects() || replacement.has_side_effects()),
        value is Local || expression_recovery::is_movable(
            value.filled_in(target, replacement, false).after,
        ) == expression_recovery::is_movable(value),
    decreases value.size(),
{
    if value == RValueView::Local(target) {
    } else {
        let children = value.children();
        let i = lemma_filled_at(
            children,
            0,
            value.certain(),
            target,
            replacement,
            value.calls_method(),
        );
        let other = children[i].filled_in(target, replacement, false).after;
        model::lemma_child_smaller(value, i);
        lemma_filled_effects(children[i], target, replacement);
        meaning::lemma_same_head(value, children.update(i, other));
        lemma_effects_replaced(children, 0, i, other, replacement.has_side_effects());
    }
}

proof fn lemma_effects_replaced(
    values: Seq<RValueView>,
    from: int,
    i: int,
    other: RValueView,
    more: bool,
)
    requires
        0 <= from,
        0 <= i < values.len(),
        other.has_side_effects() == (values[i].has_side_effects() || more),
    ensures
        RValueView::effects_from(values.update(i, other), from) == (RValueView::effects_from(
            values,
            from,
        ) || (more && from <= i)),
    decreases values.len() - from,
{
    if from < values.len() {
        lemma_effects_replaced(values, from + 1, i, other, more);
    }
}

/// What an expression with a value filled in reads, the expression or the
/// value reads.
proof fn lemma_filled_reads(
    value: RValueView,
    target: RcLocal,
    replacement: RValueView,
    local: RcLocal,
)
    requires
        value.filled_in(target, replacement, false).found == Some(true),
        value.filled_in(target, replacement, false).after.reads().contains(local),
    ensures
        value.reads().contains(local) || replacement.reads().contains(local),
    decreases value.size(),
{
    if value == RValueView::Local(target) {
    } else {
        let children = value.children();
        let i = lemma_filled_at(
            children,
            0,
            value.certain(),
            target,
            replacement,
            value.calls_method(),
        );
        let other = children[i].filled_in(target, replacement, false).after;
        let operands = children.update(i, other);
        model::lemma_child_smaller(value, i);
        meaning::lemma_same_head(value, operands);
        let after = value.filled_in(target, replacement, false).after;
        assert(after.children() == operands);
        assert(!(after is Local) && !(after is Closure)) by {
            assert(operands.len() > 0);
        }
        assert(value.reads() == RValueView::reads_from(children, 0));
        if other.reads().contains(local) {
            lemma_filled_reads(children[i], target, replacement, local);
        }
        lemma_replaced_reads(children, i, other, local);
    }
}

proof fn lemma_replaced_reads(
    values: Seq<RValueView>,
    i: int,
    other: RValueView,
    local: RcLocal,
)
    requires
        0 <= i < values.len(),
        RValueView::reads_from(values.update(i, other), 0).contains(local),
    ensures
        RValueView::reads_from(values, 0).contains(local) || (other.reads().contains(local)
            && !values[i].reads().contains(local)),
        values[i].reads().contains(local) ==> RValueView::reads_from(values, 0).contains(local),
{
    replacement_laws::lemma_count_replaced(values, 0, i, other, local);
    replacement_laws::lemma_count_zero(RValueView::reads_from(values, 0), local);
    replacement_laws::lemma_count_zero(
        RValueView::reads_from(values.update(i, other), 0),
        local,
    );
    replacement_laws::lemma_count_zero(other.reads(), local);
    replacement_laws::lemma_count_zero(values[i].reads(), local);
}

/// What a statement with a value filled in is like.
proof fn lemma_replaced_kind(
    block: Seq<StatementView>,
    at: int,
    protected: Set<u64>,
    m: Machine,
)
    requires
        0 <= at < block.len(),
        expression_recovery::inlining(block, at, protected) is Some,
    ensures
        ({
            let (target, value) = expression_recovery::plain_assignment(block[at])->0;
            let (read_at, replaced) = expression_recovery::inlining(block, at, protected)->0;
            let statement = block[read_at];
            &&& !(replaced is Do)
            &&& !replaced.has_side_effects() ==> !statement.has_side_effects()
                && !value.has_side_effects() && !block[at].has_side_effects()
            &&& is_unshared(statement, m) && is_unshared(block[at], m) ==> is_unshared(replaced, m)
            &&& expression_recovery::plain_assignment(replaced) matches Some((other, made)) ==> {
                &&& expression_recovery::plain_assignment(statement) is Some
                &&& (expression_recovery::plain_assignment(statement)->0).0 == other
                &&& expression_recovery::is_movable(made) && made.has_side_effects() ==> (
                value.has_side_effects() || (expression_recovery::is_movable(
                    (expression_recovery::plain_assignment(statement)->0).1,
                ) && (expression_recovery::plain_assignment(statement)->0).1.has_side_effects()))
            }
        }),
{
    let (target, value) = expression_recovery::plain_assignment(block[at])->0;
    let (read_at, replaced) = expression_recovery::inlining(block, at, protected)->0;
    let statement = block[read_at];
    let i = lemma_inlining(block, at, protected);
    let roots = statement.roots();
    let other = roots[i].filled_in(target, value, false).after;
    let operands = roots.update(i, other);
    lemma_filled_effects(roots[i], target, value);
    shape_laws::same_roots(statement);
    shape_laws::given_roots(statement, operands);
    shape_laws::same_blocks(replaced);
    meaning_laws::lemma_same_frame(statement, operands, statement.blocks());
    rewrite::statements_read_their_expressions(statement);
    rewrite::statements_read_their_expressions(replaced);
    rewrite::statements_read_their_expressions(block[at]);
    lemma_assigned_parts(block[at]);
    if is_unshared(statement, m) && is_unshared(block[at], m) {
        assert forall|k: int| 0 <= k < replaced.reads().len() implies !m.shared.contains(
            (#[trigger] replaced.reads()[k]).id,
        ) by {
            let local = replaced.reads()[k];
            let reads = RValueView::reads_from(operands, 0);
            assert(replaced.reads() =~= reads);
            assert(reads[k] == local);
            assert(reads.contains(local));
            if other.reads().contains(local) {
                lemma_filled_reads(roots[i], target, value, local);
            }
            lemma_replaced_reads(roots, i, other, local);
            assert(statement.reads() =~= RValueView::reads_from(roots, 0));
            if statement.reads().contains(local) {
                let j = choose|j: int|
                    0 <= j < statement.reads().len() && statement.reads()[j] == local;
                assert(!m.shared.contains(statement.reads()[j].id));
            } else {
                assert(value.reads().contains(local));
                assert(block[at].reads().contains(local));
                let j = choose|j: int|
                    0 <= j < block[at].reads().len() && block[at].reads()[j] == local;
                assert(!m.shared.contains(block[at].reads()[j].id));
            }
        }
        assert(replaced.writes() == statement.writes());
    }
    if let StatementView::Assign(assign) = statement {
        lemma_plain_assign(assign, operands);
        lemma_effects_replaced(assign.right, 0, i, other, value.has_side_effects());
        if expression_recovery::plain_assignment(replaced) is Some {
            assert(i == 0);
        }
    }
}

proof fn lemma_assigned_parts(statement: StatementView)
    requires
        expression_recovery::plain_assignment(statement) is Some,
    ensures
        ({
            let value = (expression_recovery::plain_assignment(statement)->0).1;
            &&& statement.reads() == value.reads()
            &&& statement.has_side_effects() == value.has_side_effects()
        }),
{
    let assign = statement->Assign_0;
    let value = (expression_recovery::plain_assignment(statement)->0).1;
    assert(!StatementView::target_effects_from(assign.left, 1));
    assert(!StatementView::target_effects_from(assign.left, 0));
    lemma_plain_assign(assign, assign.right);
    rewrite::statements_read_their_expressions(statement);
    assert(RValueView::reads_from(assign.right, 1) =~= Seq::empty());
    assert(RValueView::reads_from(assign.right, 0) =~= value.reads());
    assert(statement.reads() =~= value.reads());
    assert(!RValueView::effects_from(assign.right, 1));
}

/// Whether the values of a block can be moved.
pub open spec fn is_orderly(block: Seq<StatementView>, protected: Set<u64>, m: Machine) -> bool {
    forall|at: int| 0 <= at < block.len() ==> #[trigger] is_movable_past(block, at, protected, m)
}

/// The locals that a block gives one value at a time and that others do not
/// see.
pub open spec fn temporaries(block: Seq<StatementView>, protected: Set<u64>) -> Set<u64> {
    Set::new(
        |id: u64|
            !protected.contains(id) && exists|k: int|
                0 <= k < block.len() && (#[trigger] expression_recovery::plain_assignment(
                    block[k],
                )) is Some && (expression_recovery::plain_assignment(block[k])->0).0.id == id,
    )
}

/// Where a statement was before one was taken out.
pub open spec fn former(k: int, at: int) -> int {
    if k < at {
        k
    } else {
        k + 1
    }
}

/// Moving a value leaves the others so that they can be moved.
proof fn lemma_still_orderly(block: Seq<StatementView>, at: int, protected: Set<u64>, m: Machine)
    requires
        0 <= at < block.len(),
        expression_recovery::inlining(block, at, protected) is Some,
        is_orderly(block, protected, m),
    ensures
        ({
            let (read_at, replaced) = expression_recovery::inlining(block, at, protected)->0;
            let made = block.update(read_at, replaced).remove(at);
            &&& is_orderly(made, protected, m)
            &&& temporaries(made, protected).subset_of(temporaries(block, protected))
        }),
{
    let (target, value) = expression_recovery::plain_assignment(block[at])->0;
    let (read_at, replaced) = expression_recovery::inlining(block, at, protected)->0;
    let made = block.update(read_at, replaced).remove(at);
    let i = lemma_inlining(block, at, protected);
    lemma_replaced_kind(block, at, protected, m);
    lemma_assigned_parts(block[at]);
    assert(is_movable_past(block, at, protected, m));
    assert forall|k: int| 0 <= k < made.len() implies #[trigger] made[k] == block.update(
        read_at,
        replaced,
    )[former(k, at)] by {}
    assert forall|id: u64| #[trigger]
        temporaries(made, protected).contains(id) implies temporaries(block, protected).contains(
        id,
    ) by {
        let k = choose|k: int|
            0 <= k < made.len() && (#[trigger] expression_recovery::plain_assignment(made[k]))
                is Some && (expression_recovery::plain_assignment(made[k])->0).0.id == id;
        assert(made[k] == block.update(read_at, replaced)[former(k, at)]);
        assert(expression_recovery::plain_assignment(block[former(k, at)]) is Some);
    }
    assert forall|k: int| 0 <= k < made.len() implies #[trigger] is_movable_past(
        made,
        k,
        protected,
        m,
    ) by {
        let a = former(k, at);
        assert(made[k] == block.update(read_at, replaced)[a]);
        assert(is_movable_past(block, a, protected, m));
        if let Some((other, given)) = expression_recovery::plain_assignment(made[k]) {
            if !protected.contains(other.id) {
                assert forall|l: int| k < l < made.len() implies {
                    &&& (#[trigger] made[l]) is Do ==> !StatementView::blocks_touched(
                        made[l].blocks(),
                        0,
                    ).contains(other)
                    &&& expression_recovery::is_movable(given) && given.has_side_effects()
                        && !made[l].has_side_effects() ==> is_unshared(made[l], m)
                } by {
                    let b = former(l, at);
                    assert(made[l] == block.update(read_at, replaced)[b]);
                    lemma_pair_orderly(block, at, protected, m, a, b);
                }
            }
        }
    }
}

/// Of two statements, the later stays one that the value of the earlier can be
/// moved past.
proof fn lemma_pair_orderly(
    block: Seq<StatementView>,
    at: int,
    protected: Set<u64>,
    m: Machine,
    a: int,
    b: int,
)
    requires
        0 <= at < block.len(),
        expression_recovery::inlining(block, at, protected) is Some,
        is_orderly(block, protected, m),
        0 <= a < b < block.len(),
        a != at,
        b != at,
        ({
            let (read_at, replaced) = expression_recovery::inlining(block, at, protected)->0;
            let made = block.update(read_at, replaced);
            &&& expression_recovery::plain_assignment(made[a]) is Some
            &&& !protected.contains((expression_recovery::plain_assignment(made[a])->0).0.id)
        }),
    ensures
        ({
            let (read_at, replaced) = expression_recovery::inlining(block, at, protected)->0;
            let made = block.update(read_at, replaced);
            let (other, given) = expression_recovery::plain_assignment(made[a])->0;
            &&& made[b] is Do ==> !StatementView::blocks_touched(made[b].blocks(), 0).contains(
                other,
            )
            &&& expression_recovery::is_movable(given) && given.has_side_effects()
                && !made[b].has_side_effects() ==> is_unshared(made[b], m)
        }),
{
    let (target, value) = expression_recovery::plain_assignment(block[at])->0;
    let (read_at, replaced) = expression_recovery::inlining(block, at, protected)->0;
    let made = block.update(read_at, replaced);
    let (other, given) = expression_recovery::plain_assignment(made[a])->0;
    let i = lemma_inlining(block, at, protected);
    lemma_replaced_kind(block, at, protected, m);
    lemma_assigned_parts(block[at]);
    assert(is_movable_past(block, at, protected, m));
    assert(is_movable_past(block, a, protected, m));
    if a == read_at {
        assert(block[b] == made[b]);
    } else if b == read_at {
        lemma_assigned_parts(block[a]);
        assert(block[a] == made[a]);
        if expression_recovery::is_movable(given) && given.has_side_effects()
            && !made[b].has_side_effects() {
            if at < a {
                assert(!block[a].has_side_effects());
            }
            assert(a < at);
            assert(is_unshared(block[b], m));
            assert(is_unshared(block[at], m));
        }
    } else {
        assert(block[a] == made[a] && block[b] == made[b]);
    }
}

proof fn lemma_inlined_prefix(block: Seq<StatementView>, from: int, protected: Set<u64>)
    requires
        0 <= from <= block.len(),
    ensures
        ({
            let made = expression_recovery::inlined_from(block, from, protected).1;
            made.len() >= from && made.take(from) == block.take(from)
        }),
    decreases block.len() - from,
{
    if from < block.len() {
        let made = expression_recovery::inlined_from(block, from, protected).1;
        match expression_recovery::inlining(block, from, protected) {
            Some((read_at, replaced)) => {
                let i = lemma_inlining(block, from, protected);
                let next = block.update(read_at, replaced).remove(from);
                lemma_inlined_prefix(next, from, protected);
                assert(next.take(from) =~= block.take(from));
            },
            None => {
                lemma_inlined_prefix(block, from + 1, protected);
                assert(made.take(from) =~= made.take(from + 1).take(from));
                assert(block.take(from) =~= block.take(from + 1).take(from));
            },
        }
    }
}

/// Moving the values of a block from position `from` on keeps what the block
/// does in every world, but for the locals that held them.
pub proof fn moving_values_keeps_runs(
    block: Seq<StatementView>,
    from: int,
    protected: Set<u64>,
    m: Machine,
    world: World,
    fuel: nat,
)
    requires
        0 <= from <= block.len(),
        m.is_settled(),
        m.shared.subset_of(protected),
        is_orderly(block, protected, m),
    ensures
        ({
            let made = expression_recovery::inlined_from(block, from, protected).1;
            &&& replacement_laws::ends_alike(
                StatementView::run_from(made, from, m, world, fuel),
                StatementView::run_from(block, from, m, world, fuel),
                temporaries(block, protected),
            )
            &&& is_orderly(made, protected, m)
            &&& temporaries(made, protected).subset_of(temporaries(block, protected))
        }),
    decreases block.len() - from,
{
    let made = expression_recovery::inlined_from(block, from, protected).1;
    let hidden = temporaries(block, protected);
    if from < block.len() {
        match expression_recovery::inlining(block, from, protected) {
            Some((read_at, replaced)) => {
                let target = (expression_recovery::plain_assignment(block[from])->0).0;
                let next = block.update(read_at, replaced).remove(from);
                let i = lemma_inlining(block, from, protected);
                assert(hidden.contains(target.id)) by {
                    assert(expression_recovery::plain_assignment(block[from]) is Some);
                }
                assert(is_movable_past(block, from, protected, m));
                moving_a_value_keeps_runs(block, from, protected, m, world, fuel);
                lemma_still_orderly(block, from, protected, m);
                moving_values_keeps_runs(next, from, protected, m, world, fuel);
                let a = StatementView::run_from(made, from, m, world, fuel);
                let b = StatementView::run_from(next, from, m, world, fuel);
                let c = StatementView::run_from(block, from, m, world, fuel);
                assert(replacement_laws::ends_alike(b, c, hidden));
                alias_laws::lemma_agree_chain(a, b, c, temporaries(next, protected), hidden);
            },
            None => {
                lemma_inlined_prefix(block, from + 1, protected);
                assert(made[from] == made.take(from + 1)[from]);
                assert(block[from] == block.take(from + 1)[from]);
                let after = block[from].run(m, world, fuel).0;
                moving_values_keeps_runs(block, from + 1, protected, m, after, fuel);
            },
        }
    }
}

/// Moving the values of a block until none can be moved keeps what the block
/// does in every world, but for the locals that held them.
pub proof fn inlining_keeps_runs(
    block: Seq<StatementView>,
    protected: Set<u64>,
    m: Machine,
    world: World,
    fuel: nat,
)
    requires
        m.is_settled(),
        m.shared.subset_of(protected),
        is_orderly(block, protected, m),
    ensures
        replacement_laws::ends_alike(
            StatementView::run_from(
                expression_recovery::inlined(block, protected).1,
                0,
                m,
                world,
                fuel,
            ),
            StatementView::run_from(block, 0, m, world, fuel),
            temporaries(block, protected),
        ),
    decreases block.len(),
{
    let hidden = temporaries(block, protected);
    let (count, once) = expression_recovery::inlined_from(block, 0, protected);
    expression_recovery::inlining_shortens(block, 0, protected);
    moving_values_keeps_runs(block, 0, protected, m, world, fuel);
    if count != 0 {
        inlining_keeps_runs(once, protected, m, world, fuel);
        let made = expression_recovery::inlined(block, protected).1;
        alias_laws::lemma_agree_chain(
            StatementView::run_from(made, 0, m, world, fuel),
            StatementView::run_from(once, 0, m, world, fuel),
            StatementView::run_from(block, 0, m, world, fuel),
            temporaries(once, protected),
            hidden,
        );
    }
}

} // verus!
