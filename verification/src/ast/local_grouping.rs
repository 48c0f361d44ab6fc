//! Joining declarations into lists.

use vstd::prelude::*;

use rustc_hash::FxHashSet;

use crate::ast::local::{Locals, RcLocal};
use crate::ast::local_rw::LocalRw;
use crate::ast::nodes::{
    Assign, AssignView, Block, LValue, LValueView, RValue, RValueView, Statement, StatementView,
};
use crate::ast::walk::{walk_block, BlockPass};
use crate::ast::{model, nodes};
use crate::collections::{empty_set, has_member, insert_member};
use crate::text::same_text;

verus! {

broadcast use nodes::group_views;

/// Targets one recombined declaration may bind.
///
/// Source that writes a declaration list at all writes a short one; a long
/// run of locals is written a line at a time even when it could be joined.
pub const MAX_GROUP: usize = 3;

/// The declaration a statement is, if it is one this pass can move.
///
/// A declaration list assigns each name exactly one value, so only a
/// one-name, one-value declaration can join one. A multiple-result expression
/// is excluded outright: whether it is truncated depends on its position in
/// the list, which joining changes.
pub open spec fn simple_declaration(statement: StatementView) -> Option<(RcLocal, RValueView)> {
    match statement {
        StatementView::Assign(assign) => if !assign.prefix || assign.parallel || assign.left.len()
            != 1 || assign.right.len() != 1 || assign.right[0] is Select {
            None
        } else {
            match assign.left[0] {
                LValueView::Local(target) => Some((target, assign.right[0])),
                _ => None,
            }
        },
        _ => None,
    }
}

/// The numbers of locals.
pub open spec fn numbers(locals: Seq<RcLocal>) -> Set<u64> {
    crate::ast::binding_validation::ids(locals)
}

impl RValueView {
    /// Every local an expression mentions, including inside the bodies of
    /// closures it builds — a captured local is read by the closure wherever
    /// the closure is constructed.
    pub open spec fn mentions(self) -> Set<u64>
        decreases self.size(), 0int,
    {
        proof {
            model::lemma_children_smaller(self);
        }
        numbers(self.reads()).union(StatementView::mentions_from(self.body(), 0)).union(
            Self::mentions_from(self.children(), 0),
        )
    }

    /// The same of the expressions from position `from` on.
    pub open spec fn mentions_from(values: Seq<RValueView>, from: int) -> Set<u64>
        decreases Self::sizes_from(values, from), 1int,
    {
        proof {
            model::lemma_sizes_step(values, from);
        }
        if 0 <= from < values.len() {
            values[from].mentions().union(Self::mentions_from(values, from + 1))
        } else {
            Set::empty()
        }
    }

    /// Whether evaluating an expression can run code of the program's own.
    ///
    /// Two such expressions in one declaration list would have to be evaluated
    /// in the order the statements ran, which is more than this pass is willing
    /// to take for granted, so a group holds at most one.
    pub open spec fn runs_code(self) -> bool
        decreases self.size(), 0int,
    {
        proof {
            model::lemma_children_smaller(self);
        }
        self is Call || self is MethodCall || self is Select || Self::run_code_from(
            self.children(),
            0,
        )
    }

    /// Whether one of the expressions from position `from` on can.
    pub open spec fn run_code_from(values: Seq<RValueView>, from: int) -> bool
        decreases Self::sizes_from(values, from), 1int,
    {
        proof {
            model::lemma_sizes_step(values, from);
        }
        if 0 <= from < values.len() {
            values[from].runs_code() || Self::run_code_from(values, from + 1)
        } else {
            false
        }
    }
}

impl StatementView {
    /// The locals that the statements from position `from` on mention outside
    /// of the blocks nested in them.
    pub open spec fn mentions_from(statements: Seq<StatementView>, from: int) -> Set<u64>
        decreases Self::sizes_from(statements, from), 2int,
    {
        proof {
            model::lemma_statement_sizes_step(statements, from);
        }
        if 0 <= from < statements.len() {
            proof {
                model::lemma_rvalues_smaller(statements[from]);
            }
            numbers(statements[from].locals()).union(
                RValueView::mentions_from(statements[from].rvalues(), 0),
            ).union(Self::mentions_from(statements, from + 1))
        } else {
            Set::empty()
        }
    }
}

/// Whether a local is written as one of some others is.
pub open spec fn shares_name(
    names: Seq<Option<Seq<char>>>,
    declared: Seq<RcLocal>,
    local: RcLocal,
) -> bool {
    exists|i: int|
        0 <= i < declared.len() && Locals::spelling(names, #[trigger] declared[i])
            == Locals::spelling(names, local)
}

/// Whether a value mentions one of some locals.
pub open spec fn mentions_any(value: RValueView, declared: Seq<RcLocal>) -> bool {
    exists|i: int|
        0 <= i < declared.len() && value.mentions().contains((#[trigger] declared[i]).id)
}

/// The end of the run of declarations that can be joined, `end` being as far as
/// it is known to reach, `declared` what it declares and `effectful` whether
/// one of its values can run code.
pub open spec fn run_end(
    block: Seq<StatementView>,
    end: int,
    declared: Seq<RcLocal>,
    effectful: bool,
    names: Seq<Option<Seq<char>>>,
) -> int
    decreases block.len() - end,
{
    if 0 <= end < block.len() && declared.len() < MAX_GROUP {
        match simple_declaration(block[end]) {
            Some((target, value)) => if shares_name(names, declared, target) || (effectful
                && value.runs_code()) || mentions_any(value, declared) || value.mentions().contains(
                target.id,
            ) {
                end
            } else {
                run_end(
                    block,
                    end + 1,
                    declared.push(target),
                    effectful || value.runs_code(),
                    names,
                )
            },
            None => end,
        }
    } else {
        end
    }
}

/// The end of the run of declarations starting at `start` that can be joined.
///
/// A declaration may only join the ones before it when its value does not
/// read what they bind. A declaration list evaluates every value before it
/// binds any name, so such a read would find whatever the name meant outside
/// the block rather than the value just computed for it.
pub open spec fn group_end(
    block: Seq<StatementView>,
    start: int,
    names: Seq<Option<Seq<char>>>,
) -> int {
    match simple_declaration(block[start]) {
        Some((first, value)) => if value.mentions().contains(first.id) {
            start
        } else {
            run_end(block, start + 1, seq![first], value.runs_code(), names)
        },
        None => start,
    }
}

/// The declaration that the statements from `start` to before `end` are
/// together.
pub open spec fn joined(block: Seq<StatementView>, start: int, end: int) -> StatementView {
    StatementView::Assign(
        AssignView {
            left: Seq::new((end - start) as nat, |i: int| block[start + i]->Assign_0.left[0]),
            right: Seq::new((end - start) as nat, |i: int| block[start + i]->Assign_0.right[0]),
            prefix: true,
            parallel: false,
        },
    )
}

/// The local that a declaration binds.
pub open spec fn bound_local(statement: StatementView) -> RcLocal {
    (simple_declaration(statement)->0).0
}

/// The value that a declaration binds a local to.
pub open spec fn bound_value(statement: StatementView) -> RValueView {
    (simple_declaration(statement)->0).1
}

/// Whether the declarations from `start` to before `end` can be one list: each
/// binds one local to one value, no value mentions a local that one of them
/// binds before it or itself, no two values can run code, and the locals are
/// written differently.
pub open spec fn is_independent(
    block: Seq<StatementView>,
    start: int,
    end: int,
    names: Seq<Option<Seq<char>>>,
) -> bool {
    &&& forall|i: int| start <= i < end ==> simple_declaration(#[trigger] block[i]) is Some
    &&& forall|i: int, j: int|
        start <= i <= j < end ==> !bound_value(#[trigger] block[j]).mentions().contains(
            bound_local(#[trigger] block[i]).id,
        )
    &&& forall|i: int, j: int|
        start <= i < j < end ==> !(bound_value(#[trigger] block[i]).runs_code() && bound_value(
            #[trigger] block[j],
        ).runs_code())
    &&& forall|i: int, j: int|
        start <= i < j < end ==> Locals::spelling(names, bound_local(#[trigger] block[i]))
            != Locals::spelling(names, bound_local(#[trigger] block[j]))
}

proof fn lemma_run_independent(
    block: Seq<StatementView>,
    start: int,
    end: int,
    declared: Seq<RcLocal>,
    effectful: bool,
    names: Seq<Option<Seq<char>>>,
)
    requires
        0 <= start < end <= block.len(),
        is_independent(block, start, end, names),
        declared.len() == end - start <= MAX_GROUP,
        forall|i: int|
            0 <= i < declared.len() ==> declared[i] == bound_local(#[trigger] block[start + i]),
        forall|i: int|
            start <= i < end && bound_value(#[trigger] block[i]).runs_code() ==> effectful,
    ensures
        is_independent(block, start, run_end(block, end, declared, effectful, names), names),
        run_end(block, end, declared, effectful, names) <= start + MAX_GROUP,
    decreases block.len() - end,
{
    if end < block.len() && declared.len() < MAX_GROUP {
        match simple_declaration(block[end]) {
            Some((target, value)) => {
                if !(shares_name(names, declared, target) || (effectful && value.runs_code())
                    || mentions_any(value, declared) || value.mentions().contains(target.id)) {
                    assert forall|i: int| start <= i < end implies bound_local(#[trigger] block[i])
                        == declared[i - start] by {
                        assert(block[start + (i - start)] == block[i]);
                    }
                    assert forall|i: int| 0 <= i < declared.push(target).len() implies
                        declared.push(target)[i] == bound_local(#[trigger] block[start + i]) by {
                        if i == declared.len() {
                            assert(block[start + i] == block[end]);
                        }
                    }
                    lemma_run_independent(
                        block,
                        start,
                        end + 1,
                        declared.push(target),
                        effectful || value.runs_code(),
                        names,
                    );
                }
            },
            None => {},
        }
    }
}

/// Declarations are only joined where one list says what they said one by one:
/// no value reads what the list binds, at most one of them can run code, and
/// the list stays short.
pub proof fn joined_declarations_are_independent(
    block: Seq<StatementView>,
    start: int,
    names: Seq<Option<Seq<char>>>,
)
    requires
        0 <= start < block.len(),
    ensures
        is_independent(block, start, group_end(block, start, names), names),
        group_end(block, start, names) <= start + MAX_GROUP,
{
    match simple_declaration(block[start]) {
        Some((first, value)) => {
            if !value.mentions().contains(first.id) {
                lemma_run_independent(
                    block,
                    start,
                    start + 1,
                    seq![first],
                    value.runs_code(),
                    names,
                );
            }
        },
        None => {},
    }
}

/// A run of declarations ends within the block.
pub proof fn lemma_run_end(
    block: Seq<StatementView>,
    end: int,
    declared: Seq<RcLocal>,
    effectful: bool,
    names: Seq<Option<Seq<char>>>,
)
    requires
        0 <= end <= block.len(),
    ensures
        end <= run_end(block, end, declared, effectful, names) <= block.len(),
        forall|i: int|
            end <= i < run_end(block, end, declared, effectful, names) ==> simple_declaration(
                #[trigger] block[i],
            ) is Some,
    decreases block.len() - end,
{
    if end < block.len() && declared.len() < MAX_GROUP {
        match simple_declaration(block[end]) {
            Some((target, value)) => lemma_run_end(
                block,
                end + 1,
                declared.push(target),
                effectful || value.runs_code(),
                names,
            ),
            None => {},
        }
    }
}

/// The statements from position `from` on with runs of declarations joined.
pub open spec fn combined_from(
    block: Seq<StatementView>,
    from: int,
    names: Seq<Option<Seq<char>>>,
) -> Seq<StatementView>
    decreases block.len() - from,
{
    if 0 <= from < block.len() {
        let end = group_end(block, from, names);
        proof {
            lemma_group_end(block, from, names);
        }
        if end > from + 1 {
            seq![joined(block, from, end)] + combined_from(block, end, names)
        } else {
            seq![block[from]] + combined_from(block, from + 1, names)
        }
    } else {
        Seq::empty()
    }
}

fn find_declaration(statement: &Statement) -> (found: Option<(RcLocal, &RValue)>)
    ensures
        match found {
            Some((target, value)) => simple_declaration(statement@) == Some((target, value@)),
            None => simple_declaration(statement@) is None,
        },
{
    match statement.as_assign() {
        Some(assign) => {
            proof {
                nodes::assign_node(*assign);
            }
            if !assign.prefix || assign.parallel || assign.left.len() != 1 || assign.right.len()
                != 1 {
                return None;
            }
            proof {
                nodes::rvalue_node(assign.right@[0]);
            }
            if matches!(&assign.right[0], RValue::Select(_)) {
                return None;
            }
            match assign.left[0].as_local() {
                Some(target) => Some((target, &assign.right[0])),
                None => None,
            }
        },
        None => None,
    }
}

/// Adds locals to a set.
pub fn add_all(locals: &Vec<RcLocal>, out: &mut FxHashSet<u64>)
    ensures
        final(out)@ == old(out)@.union(numbers(locals@)),
{
    let mut index: usize = 0;
    proof {
        assert(out@ =~= old(out)@.union(numbers(locals@.take(0))));
    }
    while index < locals.len()
        invariant
            index <= locals@.len(),
            out@ == old(out)@.union(numbers(locals@.take(index as int))),
        decreases locals.len() - index,
    {
        let ghost less = locals@.take(index as int);
        let ghost more = locals@.take(index + 1);
        let fresh = insert_member(out, locals[index].id);
        proof {
            assert forall|id: u64| numbers(more).contains(id) == (numbers(less).contains(id) || id
                == locals@[index as int].id) by {
                if numbers(less).contains(id) {
                    let i = choose|i: int| 0 <= i < less.len() && (#[trigger] less[i]).id == id;
                    assert(more[i].id == id);
                }
                if id == locals@[index as int].id {
                    assert(more[index as int].id == id);
                }
                if numbers(more).contains(id) {
                    let i = choose|i: int| 0 <= i < more.len() && (#[trigger] more[i]).id == id;
                    if i < index {
                        assert(less[i].id == id);
                    }
                }
            }
            assert(out@ =~= old(out)@.union(numbers(more)));
        }
        index += 1;
    }
    proof {
        assert(locals@.take(locals@.len() as int) =~= locals@);
    }
}

fn collect_mentions(value: &RValue, out: &mut FxHashSet<u64>)
    ensures
        final(out)@ == old(out)@.union(value@.mentions()),
    decreases value@.size(), 0int,
{
    let ghost whole = value@;
    let ghost start = out@;
    proof {
        nodes::rvalue_node(*value);
        model::lemma_children_smaller(whole);
    }
    add_all(&value.values_read(), out);
    if let RValue::Closure(closure) = value {
        let body = &closure.function.body;
        let ghost views = whole.body();
        let mut index: usize = 0;
        while index < body.0.len()
            invariant
                index <= body.0@.len() == views.len(),
                views == body@,
                StatementView::sizes_from(views, 0) < whole.size(),
                whole == value@,
                out@.union(StatementView::mentions_from(views, index as int)) =~= start.union(
                    numbers(whole.reads()),
                ).union(StatementView::mentions_from(views, 0)),
            decreases body.0.len() - index,
        {
            let statement = &body.0[index];
            proof {
                model::lemma_statement_sizes_member(views, 0, index as int);
                model::lemma_rvalues_smaller(statement@);
            }
            add_all(&statement.values(), out);
            collect_all_mentions(statement.rvalues(), out);
            index += 1;
        }
        proof {
            assert(out@.union(Set::empty()) =~= out@);
        }
    } else {
        proof {
            assert(out@.union(Set::empty()) =~= out@);
            assert(StatementView::mentions_from(whole.body(), 0) =~= Set::<u64>::empty());
        }
    }
    collect_all_mentions(value.rvalues(), out);
    proof {
        assert(out@ =~= start.union(whole.mentions()));
    }
}

fn collect_all_mentions(values: Vec<&RValue>, out: &mut FxHashSet<u64>)
    ensures
        final(out)@ == old(out)@.union(RValueView::mentions_from(RValue::borrowed(values@), 0)),
    decreases RValueView::sizes_from(RValue::borrowed(values@), 0), 1int,
{
    let ghost views = RValue::borrowed(values@);
    let mut index: usize = 0;
    while index < values.len()
        invariant
            index <= values@.len() == views.len(),
            views == RValue::borrowed(values@),
            out@.union(RValueView::mentions_from(views, index as int)) =~= old(out)@.union(
                RValueView::mentions_from(views, 0),
            ),
        decreases values.len() - index,
    {
        proof {
            model::lemma_sizes_member(views, 0, index as int);
        }
        collect_mentions(values[index], out);
        index += 1;
    }
    proof {
        assert(out@.union(Set::empty()) =~= out@);
    }
}

fn runs_program_code(value: &RValue) -> (result: bool)
    ensures
        result == value@.runs_code(),
    decreases value@.size(), 0int,
{
    let ghost whole = value@;
    proof {
        nodes::rvalue_node(*value);
        model::lemma_children_smaller(whole);
    }
    if matches!(value, RValue::Call(_) | RValue::MethodCall(_) | RValue::Select(_)) {
        return true;
    }
    let values = value.rvalues();
    let ghost views = RValue::borrowed(values@);
    let mut index: usize = 0;
    while index < values.len()
        invariant
            index <= values@.len() == views.len(),
            views == RValue::borrowed(values@),
            RValueView::sizes_from(views, 0) < whole.size(),
            whole == value@,
            whole.runs_code() == RValueView::run_code_from(views, index as int),
        decreases values.len() - index,
    {
        proof {
            model::lemma_sizes_member(views, 0, index as int);
        }
        if runs_program_code(values[index]) {
            return true;
        }
        index += 1;
    }
    false
}

fn has_shared_name(locals: &Locals, declared: &Vec<RcLocal>, local: RcLocal) -> (result: bool)
    ensures
        result == shares_name(locals@, declared@, local),
{
    let name = local.to_string(locals);
    let mut index: usize = 0;
    while index < declared.len()
        invariant
            index <= declared@.len(),
            name@ == Locals::spelling(locals@, local),
            forall|i: int|
                0 <= i < index ==> Locals::spelling(locals@, #[trigger] declared@[i]) != name@,
        decreases declared.len() - index,
    {
        let other = declared[index].to_string(locals);
        if same_text(&other, name.as_str()) {
            assert(Locals::spelling(locals@, declared@[index as int]) == name@);
            return true;
        }
        index += 1;
    }
    false
}

fn has_any(set: &FxHashSet<u64>, declared: &Vec<RcLocal>) -> (result: bool)
    ensures
        result == exists|i: int|
            0 <= i < declared@.len() && set@.contains((#[trigger] declared@[i]).id),
{
    let mut index: usize = 0;
    while index < declared.len()
        invariant
            index <= declared@.len(),
            forall|i: int| 0 <= i < index ==> !set@.contains((#[trigger] declared@[i]).id),
        decreases declared.len() - index,
    {
        if has_member(set, declared[index].id) {
            assert(set@.contains(declared@[index as int].id));
            return true;
        }
        index += 1;
    }
    false
}

fn find_group_end(block: &Vec<Statement>, start: usize, locals: &Locals) -> (end: usize)
    requires
        start < block@.len(),
    ensures
        end == group_end(Statement::views(block@), start as int, locals@),
{
    let ghost views = Statement::views(block@);
    let ghost names = locals@;
    let length: usize = block.len();
    let (first, value) = match find_declaration(&block[start]) {
        Some(found) => found,
        None => {
            return start;
        },
    };
    let mut mentioned = empty_set();
    collect_mentions(value, &mut mentioned);
    proof {
        assert(mentioned@ =~= value@.mentions());
    }
    if has_member(&mentioned, first.id) {
        return start;
    }
    let mut declared: Vec<RcLocal> = Vec::new();
    declared.push(first);
    proof {
        assert(declared@ =~= seq![first]);
    }
    let mut effectful = runs_program_code(value);
    let mut end: usize = start + 1;
    while end < length && declared.len() < MAX_GROUP
        invariant
            start < end <= length == block@.len() == views.len(),
            views == Statement::views(block@),
            names == locals@,
            group_end(views, start as int, names) == run_end(
                views,
                end as int,
                declared@,
                effectful,
                names,
            ),
        decreases length - end,
    {
        let (target, value) = match find_declaration(&block[end]) {
            Some(found) => found,
            None => {
                return end;
            },
        };
        if has_shared_name(locals, &declared, target) {
            return end;
        }
        let runs = runs_program_code(value);
        if effectful && runs {
            return end;
        }
        let mut mentioned = empty_set();
        collect_mentions(value, &mut mentioned);
        proof {
            assert(mentioned@ =~= value@.mentions());
        }
        if has_any(&mentioned, &declared) || has_member(&mentioned, target.id) {
            return end;
        }
        declared.push(target);
        effectful = effectful || runs;
        end += 1;
    }
    end
}

/// The declaration that statements are together.
fn merge(statements: Vec<Statement>) -> (merged: Statement)
    requires
        forall|i: int|
            0 <= i < statements@.len() ==> simple_declaration(
                #[trigger] Statement::views(statements@)[i],
            ) is Some,
    ensures
        merged@ == joined(Statement::views(statements@), 0, statements@.len() as int),
{
    let ghost views = Statement::views(statements@);
    let count: usize = statements.len();
    let mut rest = statements;
    let mut left: Vec<LValue> = Vec::new();
    let mut right: Vec<RValue> = Vec::new();
    let mut index: usize = 0;
    while index < count
        invariant
            index <= count == views.len(),
            rest@.len() == count - index,
            Statement::views(rest@) =~= views.skip(index as int),
            forall|i: int| 0 <= i < views.len() ==> simple_declaration(#[trigger] views[i]) is Some,
            left@.len() == index,
            right@.len() == index,
            forall|i: int|
                0 <= i < index ==> (#[trigger] LValue::views(left@)[i])
                    == views[i]->Assign_0.left[0],
            forall|i: int|
                0 <= i < index ==> (#[trigger] RValue::views(right@)[i])
                    == views[i]->Assign_0.right[0],
        decreases count - index,
    {
        let ghost before = Statement::views(rest@);
        let ghost lefts = LValue::views(left@);
        let ghost rights = RValue::views(right@);
        let statement = rest.remove(0);
        proof {
            assert(before[0] == views[index as int]);
            assert(Statement::views(rest@) =~= before.skip(1));
            assert(simple_declaration(views[index as int]) is Some);
            nodes::statement_node(statement);
        }
        if let Statement::Assign(assign) = statement {
            proof {
                nodes::assign_node(assign);
                assert(LValue::views(assign.left@)[0] == assign.left@[0]@);
                assert(RValue::views(assign.right@)[0] == assign.right@[0]@);
            }
            let Assign { left: mut targets, right: mut values, prefix, parallel } = assign;
            let target = targets.remove(0);
            let value = values.remove(0);
            let ghost added = target@;
            let ghost given = value@;
            left.push(target);
            right.push(value);
            proof {
                assert(LValue::views(left@) =~= lefts.push(added));
                assert(RValue::views(right@) =~= rights.push(given));
            }
        }
        index += 1;
    }
    let assign = Assign { left, right, prefix: true, parallel: false };
    let merged = Statement::Assign(assign);
    proof {
        nodes::assign_node(assign);
        nodes::statement_node(merged);
        let whole = joined(views, 0, count as int)->Assign_0;
        assert(LValue::views(left@) =~= whole.left);
        assert(RValue::views(right@) =~= whole.right);
    }
    merged
}

/// Joins the declarations of a tree.
pub struct LocalGrouping<'a> {
    pub locals: &'a Locals,
}

impl<'a> BlockPass for LocalGrouping<'a> {
    type Notes = Seq<Option<Seq<char>>>;

    open spec fn notes(&self) -> Seq<Option<Seq<char>>> {
        self.locals@
    }

    open spec fn enters_closures() -> bool {
        true
    }

    open spec fn enters_scopes() -> bool {
        true
    }

    open spec fn settled(value: RValueView) -> RValueView {
        value
    }

    open spec fn finished(
        notes: Seq<Option<Seq<char>>>,
        block: Seq<StatementView>,
        looped: bool,
    ) -> (Seq<Option<Seq<char>>>, Seq<StatementView>) {
        (notes, combined_from(block, 0, notes))
    }

    fn closures_entered() -> (result: bool) {
        true
    }

    fn scopes_entered() -> (result: bool) {
        true
    }

    fn settle(value: RValue) -> (settled: RValue) {
        value
    }

    fn finish(&mut self, block: Block, looped: bool) -> (done: Block) {
        let ghost views = block@;
        let ghost names = self.locals@;
        let ghost whole = combined_from(views, 0, names);
        let mut rest = block.0;
        let count: usize = rest.len();
        let mut done: Vec<Statement> = Vec::new();
        let mut index: usize = 0;
        proof {
            assert(Statement::views(done@) + whole =~= whole);
            assert(views.skip(0) =~= views);
        }
        while index < count
            invariant
                index <= count == views.len(),
                rest@.len() == count - index,
                Statement::views(rest@) == views.skip(index as int),
                names == self.locals@,
                names == old(self).locals@,
                whole == Statement::views(done@) + combined_from(views, index as int, names),
            decreases count - index,
        {
            let ghost before = Statement::views(rest@);
            let ghost held = Statement::views(done@);
            let ghost remaining = combined_from(views, index as int, names);
            let end = find_group_end(&rest, 0, self.locals);
            proof {
                lemma_group_shift(views, index as int, names);
                lemma_group_end(before, 0, names);
            }
            if end > 1 {
                let mut group: Vec<Statement> = Vec::new();
                let mut taken: usize = 0;
                while taken < end
                    invariant
                        taken <= end <= before.len(),
                        rest@.len() == before.len() - taken,
                        Statement::views(rest@) == before.skip(taken as int),
                        Statement::views(group@) == before.take(taken as int),
                    decreases end - taken,
                {
                    let ghost now = Statement::views(rest@);
                    let ghost grown = Statement::views(group@);
                    let statement = rest.remove(0);
                    proof {
                        assert(now[0] == before[taken as int]);
                        assert(Statement::views(rest@) =~= now.skip(1));
                        assert(now.skip(1) =~= before.skip(taken + 1));
                    }
                    group.push(statement);
                    proof {
                        assert(Statement::views(group@) =~= before.take(taken + 1));
                    }
                    taken += 1;
                }
                let ghost first = Statement::views(group@);
                proof {
                    assert(group@.len() == first.len());
                    assert forall|i: int| 0 <= i < first.len() implies simple_declaration(
                        #[trigger] first[i],
                    ) is Some by {
                        assert(first[i] == before[i]);
                    }
                }
                let merged = merge(group);
                done.push(merged);
                proof {
                    let whole_join = joined(views, index as int, index + end)->Assign_0;
                    let part_join = joined(first, 0, end as int)->Assign_0;
                    assert(whole_join.left =~= part_join.left);
                    assert(whole_join.right =~= part_join.right);
                    assert(merged@ == joined(views, index as int, index + end));
                    assert(Statement::views(done@) =~= held.push(merged@));
                    assert(Statement::views(rest@) =~= views.skip(index + end));
                    assert(Statement::views(done@) + combined_from(views, index + end, names)
                        =~= held + remaining);
                }
                index += end;
            } else {
                let statement = rest.remove(0);
                proof {
                    assert(before[0] == views[index as int]);
                    assert(Statement::views(rest@) =~= before.skip(1));
                    assert(before.skip(1) =~= views.skip(index + 1));
                }
                done.push(statement);
                proof {
                    assert(Statement::views(done@) =~= held.push(views[index as int]));
                    assert(Statement::views(done@) + combined_from(views, index + 1, names)
                        =~= held + remaining);
                }
                index += 1;
            }
        }
        let done = Block(done);
        proof {
            assert(done@ + Seq::<StatementView>::empty() =~= done@);
        }
        done
    }
}

/// A run of declarations that can be joined ends within the block.
pub proof fn lemma_group_end(block: Seq<StatementView>, start: int, names: Seq<Option<Seq<char>>>)
    requires
        0 <= start < block.len(),
    ensures
        start <= group_end(block, start, names) <= block.len(),
        forall|i: int|
            start <= i < group_end(block, start, names) ==> simple_declaration(
                #[trigger] block[i],
            ) is Some,
{
    match simple_declaration(block[start]) {
        Some((first, value)) => lemma_run_end(
            block,
            start + 1,
            seq![first],
            value.runs_code(),
            names,
        ),
        None => {},
    }
}

proof fn lemma_run_shift(
    block: Seq<StatementView>,
    by: int,
    end: int,
    declared: Seq<RcLocal>,
    effectful: bool,
    names: Seq<Option<Seq<char>>>,
)
    requires
        0 <= by <= block.len(),
        0 <= end,
    ensures
        run_end(block, by + end, declared, effectful, names) == by + run_end(
            block.skip(by),
            end,
            declared,
            effectful,
            names,
        ),
    decreases block.len() - end,
{
    if by + end < block.len() && declared.len() < MAX_GROUP {
        assert(block.skip(by)[end] == block[by + end]);
        match simple_declaration(block[by + end]) {
            Some((target, value)) => lemma_run_shift(
                block,
                by,
                end + 1,
                declared.push(target),
                effectful || value.runs_code(),
                names,
            ),
            None => {},
        }
    }
}

proof fn lemma_group_shift(block: Seq<StatementView>, by: int, names: Seq<Option<Seq<char>>>)
    requires
        0 <= by < block.len(),
    ensures
        group_end(block, by, names) == by + group_end(block.skip(by), 0, names),
{
    assert(block.skip(by)[0] == block[by]);
    match simple_declaration(block[by]) {
        Some((first, value)) => lemma_run_shift(
            block,
            by,
            1,
            seq![first],
            value.runs_code(),
            names,
        ),
        None => {},
    }
}

/// Joins runs of adjacent single-name declarations into one declaration list,
/// so `local a = x` followed by `local b = y` is written `local a, b = x, y`.
///
/// Joining does not change what an expression mentions, so what is nested comes
/// first.
pub fn combine_local_declarations(block: Block, locals: &Locals) -> (combined: Block)
    ensures
        combined@ == StatementView::walked_block::<LocalGrouping>(block@, locals@, false).1,
{
    let mut pass = LocalGrouping { locals };
    walk_block(block, &mut pass, false)
}

} // verus!
