//! Giving the locals that a statement writes, one by one.

use vstd::prelude::*;

use crate::ast::local::RcLocal;
use crate::ast::nodes::{
    Assign, AssignView, Class, ClassView, GenericFor, GenericForInit, GenericForNext, LValue,
    LValueView, NumForInit, NumForNext, NumericFor, RValueView, Statement, StatementView,
};
use crate::ast::{nodes, rename, shape_laws};

verus! {

broadcast use nodes::group_views;

impl LValueView {
    /// The targets from position `from` on, with the locals from `at` on in
    /// place of those that they write.
    pub open spec fn rewritten_from(
        targets: Seq<LValueView>,
        from: int,
        locals: Seq<RcLocal>,
        at: int,
    ) -> Seq<LValueView>
        decreases targets.len() - from,
    {
        if 0 <= from < targets.len() {
            match targets[from] {
                LValueView::Local(_) => seq![LValueView::Local(locals[at])]
                    + Self::rewritten_from(targets, from + 1, locals, at + 1),
                other => seq![other] + Self::rewritten_from(targets, from + 1, locals, at),
            }
        } else {
            Seq::empty()
        }
    }
}

impl AssignView {
    /// The assignment with other locals in place of those that it writes.
    pub open spec fn rewritten_to(self, locals: Seq<RcLocal>) -> AssignView {
        AssignView { left: LValueView::rewritten_from(self.left, 0, locals, 0), ..self }
    }
}

impl StatementView {
    /// The statement with other locals in place of those that it writes by
    /// itself, in order.
    pub open spec fn rewritten_to(self, locals: Seq<RcLocal>) -> StatementView {
        match self {
            StatementView::Assign(assign) => StatementView::Assign(assign.rewritten_to(locals)),
            StatementView::NumForInit(assign) => StatementView::NumForInit(
                assign.rewritten_to(locals),
            ),
            StatementView::GenericForInit(assign) => StatementView::GenericForInit(
                assign.rewritten_to(locals),
            ),
            StatementView::NumericFor { initial, limit, step, counter, block } =>
                StatementView::NumericFor { initial, limit, step, counter: locals[0], block },
            StatementView::GenericFor { res_locals, right, block } => StatementView::GenericFor {
                res_locals: locals,
                right,
                block,
            },
            StatementView::Class(class) => StatementView::Class(
                ClassView { target: locals[0], ..class },
            ),
            StatementView::NumForNext { counter, value, limit, step } => StatementView::NumForNext {
                counter: locals[0],
                value,
                limit,
                step,
            },
            StatementView::GenericForNext { res_locals, generator, state } =>
                StatementView::GenericForNext { res_locals: locals, generator, state },
            _ => self,
        }
    }
}

proof fn lemma_rewritten_from(
    targets: Seq<LValueView>,
    from: int,
    locals: Seq<RcLocal>,
    at: int,
)
    requires
        0 <= from <= targets.len(),
        0 <= at,
        locals.len() - at == LValueView::writes_from(targets, from).len(),
    ensures
        ({
            let made = LValueView::rewritten_from(targets, from, locals, at);
            &&& made.len() == targets.len() - from
            &&& LValueView::writes_from(made, 0) == locals.skip(at)
            &&& LValueView::children_from(made, 0) == LValueView::children_from(targets, from)
        }),
    decreases targets.len() - from,
{
    let made = LValueView::rewritten_from(targets, from, locals, at);
    if from < targets.len() {
        let next = match targets[from] {
            LValueView::Local(_) => at + 1,
            _ => at,
        };
        lemma_rewritten_from(targets, from + 1, locals, next);
        let rest = LValueView::rewritten_from(targets, from + 1, locals, next);
        let first = made[0];
        assert(made =~= seq![first] + rest);
        lemma_targets_shift(first, rest, 0);
        match targets[from] {
            LValueView::Local(_) => {
                assert(seq![locals[at]] + locals.skip(at + 1) =~= locals.skip(at));
            },
            _ => {
                assert(Seq::<RcLocal>::empty() + locals.skip(at) =~= locals.skip(at));
            },
        }
    } else {
        assert(locals.skip(at) =~= Seq::empty());
    }
}

proof fn lemma_targets_shift(target: LValueView, targets: Seq<LValueView>, from: int)
    requires
        0 <= from <= targets.len(),
    ensures
        LValueView::writes_from(seq![target] + targets, from + 1) == LValueView::writes_from(
            targets,
            from,
        ),
        LValueView::children_from(seq![target] + targets, from + 1) == LValueView::children_from(
            targets,
            from,
        ),
    decreases targets.len() - from,
{
    if from < targets.len() {
        lemma_targets_shift(target, targets, from + 1);
        assert((seq![target] + targets)[from + 1] == targets[from]);
    }
}

pub proof fn lemma_reads_concat(left: Seq<RValueView>, right: Seq<RValueView>, from: int)
    requires
        0 <= from <= left.len(),
    ensures
        RValueView::reads_from(left + right, from) == RValueView::reads_from(left, from)
            + RValueView::reads_from(right, 0),
    decreases left.len() - from,
{
    if from < left.len() {
        lemma_reads_concat(left, right, from + 1);
        assert((left + right)[from] == left[from]);
        assert(RValueView::reads_from(left + right, from) =~= RValueView::reads_from(left, from)
            + RValueView::reads_from(right, 0));
    } else {
        lemma_reads_suffix(left, right, 0);
        assert(RValueView::reads_from(left, from) =~= Seq::empty());
        assert(RValueView::reads_from(left + right, from) =~= RValueView::reads_from(left, from)
            + RValueView::reads_from(right, 0));
    }
}

proof fn lemma_reads_suffix(left: Seq<RValueView>, right: Seq<RValueView>, from: int)
    requires
        0 <= from <= right.len(),
    ensures
        RValueView::reads_from(left + right, left.len() + from) == RValueView::reads_from(
            right,
            from,
        ),
    decreases right.len() - from,
{
    if from < right.len() {
        lemma_reads_suffix(left, right, from + 1);
        assert((left + right)[left.len() + from] == right[from]);
    }
}

pub proof fn lemma_target_reads(targets: Seq<LValueView>, from: int)
    requires
        0 <= from <= targets.len(),
    ensures
        LValueView::reads_from(targets, from) == RValueView::reads_from(
            LValueView::children_from(targets, from),
            0,
        ),
    decreases targets.len() - from,
{
    if from < targets.len() {
        lemma_target_reads(targets, from + 1);
        lemma_reads_concat(
            targets[from].children(),
            LValueView::children_from(targets, from + 1),
            0,
        );
    }
}

/// What a statement reads apart from its expressions.
pub open spec fn direct_reads(statement: StatementView) -> Seq<RcLocal> {
    match statement {
        StatementView::SetList { object_local, .. } => seq![object_local],
        _ => Seq::empty(),
    }
}

/// A statement reads what its expressions read.
pub proof fn statements_read_their_expressions(statement: StatementView)
    ensures
        statement.reads() == direct_reads(statement) + RValueView::reads_from(
            statement.roots(),
            0,
        ),
{
    match statement {
        StatementView::Assign(assign) | StatementView::NumForInit(assign)
        | StatementView::GenericForInit(assign) => {
            lemma_target_reads(assign.left, 0);
            lemma_reads_concat(LValueView::children_from(assign.left, 0), assign.right, 0);
        },
        _ => {},
    }
    assert(statement.reads() =~= direct_reads(statement) + RValueView::reads_from(
        statement.roots(),
        0,
    ));
}

/// Giving a statement locals to write leaves what it reads as it is.
pub proof fn rewriting_gives_writes(statement: StatementView, locals: Seq<RcLocal>)
    requires
        locals.len() == statement.writes().len(),
    ensures
        statement.rewritten_to(locals).writes() == locals,
        statement.rewritten_to(locals).reads() == statement.reads(),
        statement.rewritten_to(locals).roots() == statement.roots(),
{
    match statement {
        StatementView::Assign(assign) | StatementView::NumForInit(assign)
        | StatementView::GenericForInit(assign) => {
            lemma_rewritten_from(assign.left, 0, locals, 0);
            assert(locals.skip(0) =~= locals);
        },
        _ => {},
    }
    assert(statement.rewritten_to(locals).writes() =~= locals);
    statements_read_their_expressions(statement);
    statements_read_their_expressions(statement.rewritten_to(locals));
    assert(statement.rewritten_to(locals).roots() =~= statement.roots());
}

pub proof fn lemma_refilled_writes(
    targets: Seq<LValueView>,
    from: int,
    operands: Seq<RValueView>,
    at: int,
)
    requires
        0 <= from <= targets.len(),
    ensures
        LValueView::writes_from(LValueView::refilled_from(targets, from, operands, at), 0)
            == LValueView::writes_from(targets, from),
    decreases targets.len() - from,
{
    if from < targets.len() {
        let next = at + targets[from].arity();
        lemma_refilled_writes(targets, from + 1, operands, next);
        let made = LValueView::refilled_from(targets, from, operands, at);
        let rest = LValueView::refilled_from(targets, from + 1, operands, next);
        assert(made =~= seq![made[0]] + rest);
        lemma_targets_shift(made[0], rest, 0);
    }
}

/// Giving a statement other locals to read replaces each of those that it
/// reads, and leaves what it writes as it is.
pub proof fn rereading_renames_reads(statement: StatementView, f: spec_fn(RcLocal) -> RcLocal)
    ensures
        statement.reread(f).reads() == statement.reads().map_values(f),
        statement.reread(f).writes() == statement.writes(),
        statement.reread(f).roots() == RValueView::renamed_from(statement.roots(), 0, f),
{
    let roots = RValueView::renamed_from(statement.roots(), 0, f);
    rename::lemma_renamed_len(statement.roots(), 0, f);
    shape_laws::same_roots(statement);
    shape_laws::given_roots(statement, roots);
    let made = statement.with_roots(roots);
    statements_read_their_expressions(statement);
    statements_read_their_expressions(statement.reread(f));
    rename::lemma_renamed_reads_from(statement.roots(), 0, f);
    match statement {
        StatementView::Assign(assign) | StatementView::NumForInit(assign)
        | StatementView::GenericForInit(assign) => {
            lemma_refilled_writes(assign.left, 0, roots, 0);
        },
        _ => {},
    }
    assert(statement.reread(f).roots() =~= roots);
    assert(statement.reread(f).reads() =~= statement.reads().map_values(f));
    assert(statement.reread(f).writes() =~= statement.writes());
}

fn copy_all(locals: &Vec<RcLocal>) -> (copy: Vec<RcLocal>)
    ensures
        copy@ == locals@,
{
    crate::ast::copy::copy_locals(locals)
}

fn rewrite_targets(targets: Vec<LValue>, locals: &Vec<RcLocal>) -> (rewritten: Vec<LValue>)
    requires
        locals@.len() == LValueView::writes_from(LValue::views(targets@), 0).len(),
    ensures
        LValue::views(rewritten@) == LValueView::rewritten_from(
            LValue::views(targets@),
            0,
            locals@,
            0,
        ),
{
    let ghost views = LValue::views(targets@);
    let ghost whole = LValueView::rewritten_from(views, 0, locals@, 0);
    let count: usize = targets.len();
    let length: usize = locals.len();
    let mut rest = targets;
    let mut rewritten: Vec<LValue> = Vec::new();
    let mut index: usize = 0;
    let mut at: usize = 0;
    proof {
        assert(LValue::views(rewritten@) + whole =~= whole);
    }
    while index < count
        invariant
            index <= count == views.len(),
            rest@.len() == count - index,
            LValue::views(rest@) =~= views.skip(index as int),
            at <= length == locals@.len(),
            locals@.len() - at == LValueView::writes_from(views, index as int).len(),
            whole == LValue::views(rewritten@) + LValueView::rewritten_from(
                views,
                index as int,
                locals@,
                at as int,
            ),
        decreases count - index,
    {
        let ghost before = LValue::views(rest@);
        let ghost held = LValue::views(rewritten@);
        let ghost here = at as int;
        let target = rest.remove(0);
        proof {
            assert(before[0] == views[index as int]);
            assert(LValue::views(rest@) =~= before.skip(1));
            assert(before.skip(1) =~= views.skip(index + 1));
            nodes::lvalue_node(target);
        }
        let target = match target {
            LValue::Local(_) => {
                let local = locals[at];
                at += 1;
                LValue::Local(local)
            },
            other => other,
        };
        proof {
            nodes::lvalue_node(target);
        }
        let ghost put = target@;
        rewritten.push(target);
        proof {
            assert(LValue::views(rewritten@) =~= held.push(put));
            let more = LValueView::rewritten_from(views, index + 1, locals@, at as int);
            assert(LValueView::rewritten_from(views, index as int, locals@, here) == seq![put]
                + more);
            assert(held + (seq![put] + more) =~= held.push(put) + more);
        }
        index += 1;
    }
    proof {
        assert(LValue::views(rewritten@) + Seq::<LValueView>::empty() =~= LValue::views(
            rewritten@,
        ));
    }
    rewritten
}

impl Assign {
    fn rewritten_with(self, locals: &Vec<RcLocal>) -> (rewritten: Assign)
        requires
            locals@.len() == self@.writes().len(),
        ensures
            rewritten@ == self@.rewritten_to(locals@),
    {
        proof {
            nodes::assign_node(self);
        }
        let Assign { left, right, prefix, parallel } = self;
        let rewritten = Assign { left: rewrite_targets(left, locals), right, prefix, parallel };
        proof {
            nodes::assign_node(rewritten);
        }
        rewritten
    }
}

impl Statement {
    /// This statement with other locals in place of those that it writes by
    /// itself, in order.
    pub fn rewritten_with(self, locals: &Vec<RcLocal>) -> (rewritten: Statement)
        requires
            locals@.len() == self@.writes().len(),
        ensures
            rewritten@ == self@.rewritten_to(locals@),
    {
        proof {
            nodes::statement_node(self);
        }
        let rewritten = match self {
            Statement::Assign(assign) => Statement::Assign(assign.rewritten_with(locals)),
            Statement::NumForInit(init) => Statement::NumForInit(
                NumForInit(init.0.rewritten_with(locals)),
            ),
            Statement::GenericForInit(init) => Statement::GenericForInit(
                GenericForInit(init.0.rewritten_with(locals)),
            ),
            Statement::NumericFor(each) => {
                let counter = locals[0];
                Statement::NumericFor(NumericFor { counter, ..each })
            },
            Statement::GenericFor(each) => {
                let GenericFor { res_locals, right, block } = each;
                Statement::GenericFor(GenericFor { res_locals: copy_all(locals), right, block })
            },
            Statement::Class(class) => {
                let target = locals[0];
                Statement::Class(Class { target, ..class })
            },
            Statement::NumForNext(next) => {
                let counter = locals[0];
                Statement::NumForNext(NumForNext { counter, ..next })
            },
            Statement::GenericForNext(next) => {
                let GenericForNext { res_locals, generator, state } = next;
                Statement::GenericForNext(
                    GenericForNext { res_locals: copy_all(locals), generator, state },
                )
            },
            other => other,
        };
        proof {
            nodes::statement_node(rewritten);
        }
        rewritten
    }
}

} // verus!
