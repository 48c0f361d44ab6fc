//! Putting other locals in the place of those that nodes read and write.

use vstd::prelude::*;

use crate::ast::local::RcLocal;
use crate::ast::nodes::{
    Assign, AssignView, Class, ClassView, Closure, ClosureView, GenericFor, GenericForInit,
    GenericForNext, LValue, LValueView, NumForInit, NumForNext, NumericFor, RValue, RValueView,
    SetList, Statement, StatementView, Upvalue,
};
use crate::ast::{model, nodes, shape_laws};

verus! {

broadcast use nodes::group_views;

/// A way to put one local in the place of another.
pub trait Renaming {
    /// The local that stands in the place of another.
    spec fn image(&self, local: RcLocal) -> RcLocal;

    /// Whether this can be asked of any local.
    spec fn is_total(&self) -> bool;

    fn rename(&self, local: RcLocal) -> (renamed: RcLocal)
        requires
            self.is_total(),
        ensures
            renamed == self.image(local),
    ;
}

/// Puts one local in the place of one other.
pub struct Replacement {
    pub old: RcLocal,
    pub new: RcLocal,
}

impl Renaming for Replacement {
    open spec fn image(&self, local: RcLocal) -> RcLocal {
        if local == self.old {
            self.new
        } else {
            local
        }
    }

    open spec fn is_total(&self) -> bool {
        true
    }

    fn rename(&self, local: RcLocal) -> (renamed: RcLocal) {
        if local == self.old {
            self.new
        } else {
            local
        }
    }
}

impl Upvalue {
    pub open spec fn renamed(self, f: spec_fn(RcLocal) -> RcLocal) -> Upvalue {
        match self {
            Upvalue::Copy(local) => Upvalue::Copy(f(local)),
            Upvalue::Ref(local) => Upvalue::Ref(f(local)),
        }
    }
}

impl RValueView {
    /// The expression with each local that it reads replaced. A closure reads
    /// its captures; its body is left alone.
    pub open spec fn renamed(self, f: spec_fn(RcLocal) -> RcLocal) -> RValueView
        decreases self.size(), 0int,
    {
        proof {
            model::lemma_children_smaller(self);
        }
        match self {
            RValueView::Local(local) => RValueView::Local(f(local)),
            RValueView::Closure(closure) => RValueView::Closure(
                ClosureView {
                    upvalues: closure.upvalues.map_values(|u: Upvalue| u.renamed(f)),
                    ..closure
                },
            ),
            _ => self.with_children(Self::renamed_from(self.children(), 0, f)),
        }
    }

    /// The expressions from position `from` on, renamed.
    pub open spec fn renamed_from(
        values: Seq<RValueView>,
        from: int,
        f: spec_fn(RcLocal) -> RcLocal,
    ) -> Seq<RValueView>
        decreases Self::sizes_from(values, from), 1int,
    {
        proof {
            model::lemma_sizes_step(values, from);
        }
        if 0 <= from < values.len() {
            seq![values[from].renamed(f)] + Self::renamed_from(values, from + 1, f)
        } else {
            Seq::empty()
        }
    }
}

pub proof fn lemma_renamed_len(values: Seq<RValueView>, from: int, f: spec_fn(RcLocal) -> RcLocal)
    requires
        0 <= from <= values.len(),
    ensures
        RValueView::renamed_from(values, from, f).len() == values.len() - from,
    decreases values.len() - from,
{
    if from < values.len() {
        lemma_renamed_len(values, from + 1, f);
    }
}

impl LValueView {
    /// The target with the local that it writes replaced.
    pub open spec fn retargeted(self, f: spec_fn(RcLocal) -> RcLocal) -> LValueView {
        match self {
            LValueView::Local(local) => LValueView::Local(f(local)),
            _ => self,
        }
    }
}

impl StatementView {
    /// The statement with each local that it writes by itself replaced.
    pub open spec fn rewritten(self, f: spec_fn(RcLocal) -> RcLocal) -> StatementView {
        match self {
            StatementView::Assign(assign) => StatementView::Assign(
                AssignView {
                    left: assign.left.map_values(|l: LValueView| l.retargeted(f)),
                    ..assign
                },
            ),
            StatementView::NumForInit(assign) => StatementView::NumForInit(
                AssignView {
                    left: assign.left.map_values(|l: LValueView| l.retargeted(f)),
                    ..assign
                },
            ),
            StatementView::GenericForInit(assign) => StatementView::GenericForInit(
                AssignView {
                    left: assign.left.map_values(|l: LValueView| l.retargeted(f)),
                    ..assign
                },
            ),
            StatementView::NumericFor { initial, limit, step, counter, block } =>
                StatementView::NumericFor { initial, limit, step, counter: f(counter), block },
            StatementView::GenericFor { res_locals, right, block } => StatementView::GenericFor {
                res_locals: res_locals.map_values(f),
                right,
                block,
            },
            StatementView::Class(class) => StatementView::Class(
                ClassView { target: f(class.target), ..class },
            ),
            StatementView::NumForNext { counter, value, limit, step } => StatementView::NumForNext {
                counter: f(counter),
                value,
                limit,
                step,
            },
            StatementView::GenericForNext { res_locals, generator, state } =>
                StatementView::GenericForNext {
                res_locals: res_locals.map_values(f),
                generator,
                state,
            },
            _ => self,
        }
    }

    /// The statement with each local that it reads by itself replaced.
    pub open spec fn reread(self, f: spec_fn(RcLocal) -> RcLocal) -> StatementView {
        match self.with_roots(RValueView::renamed_from(self.roots(), 0, f)) {
            StatementView::SetList { object_local, index, values, tail } =>
                StatementView::SetList { object_local: f(object_local), index, values, tail },
            other => other,
        }
    }

    /// The statement with each local that it reads or writes by itself
    /// replaced.
    pub open spec fn renamed(self, f: spec_fn(RcLocal) -> RcLocal) -> StatementView {
        self.rewritten(f).reread(f)
    }
}

/// Renames the locals of a list.
pub fn rename_locals<R: Renaming>(locals: &mut Vec<RcLocal>, renaming: &R)
    requires
        renaming.is_total(),
    ensures
        final(locals)@ == old(locals)@.map_values(|l: RcLocal| renaming.image(l)),
{
    let ghost f = |l: RcLocal| renaming.image(l);
    let mut index: usize = 0;
    while index < locals.len()
        invariant
            index <= locals.len(),
            locals@.len() == old(locals)@.len(),
            renaming.is_total(),
            forall|i: int| 0 <= i < index ==> locals@[i] == renaming.image(old(locals)@[i]),
            forall|i: int| index <= i < locals@.len() ==> locals@[i] == old(locals)@[i],
        decreases locals.len() - index,
    {
        let renamed = renaming.rename(locals[index]);
        locals.set(index, renamed);
        index += 1;
    }
    proof {
        assert(locals@ =~= old(locals)@.map_values(|l: RcLocal| renaming.image(l)));
    }
}

fn rename_upvalues<R: Renaming>(upvalues: Vec<Upvalue>, renaming: &R) -> (renamed: Vec<Upvalue>)
    requires
        renaming.is_total(),
    ensures
        renamed@ == upvalues@.map_values(
            |u: Upvalue| u.renamed(|l: RcLocal| renaming.image(l)),
        ),
{
    let mut renamed: Vec<Upvalue> = Vec::new();
    let mut index: usize = 0;
    while index < upvalues.len()
        invariant
            index <= upvalues.len(),
            renaming.is_total(),
            renamed@.len() == index,
            forall|i: int|
                0 <= i < index ==> renamed@[i] == upvalues@[i].renamed(
                    |l: RcLocal| renaming.image(l),
                ),
        decreases upvalues.len() - index,
    {
        let upvalue = match upvalues[index] {
            Upvalue::Copy(local) => Upvalue::Copy(renaming.rename(local)),
            Upvalue::Ref(local) => Upvalue::Ref(renaming.rename(local)),
        };
        renamed.push(upvalue);
        index += 1;
    }
    proof {
        assert(renamed@ =~= upvalues@.map_values(
            |u: Upvalue| u.renamed(|l: RcLocal| renaming.image(l)),
        ));
    }
    renamed
}

fn rename_values<R: Renaming>(values: Vec<RValue>, renaming: &R) -> (renamed: Vec<RValue>)
    requires
        renaming.is_total(),
    ensures
        RValue::views(renamed@) == RValueView::renamed_from(
            RValue::views(values@),
            0,
            |l: RcLocal| renaming.image(l),
        ),
    decreases RValueView::sizes_from(RValue::views(values@), 0), 1int,
{
    let ghost f = |l: RcLocal| renaming.image(l);
    let ghost views = RValue::views(values@);
    let count: usize = values.len();
    let mut rest = values;
    let mut renamed: Vec<RValue> = Vec::new();
    let mut index: usize = 0;
    proof {
        assert(RValue::views(renamed@) + RValueView::renamed_from(views, 0, f)
            =~= RValueView::renamed_from(views, 0, f));
    }
    while index < count
        invariant
            index <= count == views.len(),
            rest@.len() == count - index,
            RValue::views(rest@) =~= views.skip(index as int),
            views == RValue::views(values@),
            renaming.is_total(),
            f == (|l: RcLocal| renaming.image(l)),
            RValue::views(renamed@) + RValueView::renamed_from(views, index as int, f)
                == RValueView::renamed_from(views, 0, f),
        decreases count - index,
    {
        let ghost before = RValue::views(rest@);
        let ghost held = RValue::views(renamed@);
        let value = rest.remove(0);
        proof {
            assert(before[0] == views[index as int]);
            assert(RValue::views(rest@) =~= before.skip(1));
            model::lemma_sizes_member(views, 0, index as int);
        }
        let value = value.renamed_by(renaming);
        renamed.push(value);
        proof {
            assert(RValue::views(renamed@) + RValueView::renamed_from(views, index + 1, f)
                =~= held + RValueView::renamed_from(views, index as int, f));
        }
        index += 1;
    }
    proof {
        assert(RValue::views(renamed@) + Seq::<RValueView>::empty() =~= RValue::views(renamed@));
    }
    renamed
}

impl RValue {
    /// This expression with each local that it reads replaced.
    pub fn renamed_by<R: Renaming>(self, renaming: &R) -> (renamed: RValue)
        requires
            renaming.is_total(),
        ensures
            renamed@ == self@.renamed(|l: RcLocal| renaming.image(l)),
        decreases self@.size(), 0int,
    {
        let ghost whole = self@;
        let ghost f = |l: RcLocal| renaming.image(l);
        proof {
            nodes::rvalue_node(self);
            model::lemma_children_smaller(whole);
        }
        match self {
            RValue::Local(local) => RValue::local(renaming.rename(local)),
            RValue::Closure(closure) => {
                let Closure { function, upvalues } = closure;
                let renamed = RValue::Closure(
                    Closure { function, upvalues: rename_upvalues(upvalues, renaming) },
                );
                proof {
                    nodes::rvalue_node(renamed);
                    assert(renamed@ == whole.renamed(f));
                }
                renamed
            },
            other => {
                let (shell, operands) = other.decompose();
                let operands = rename_values(operands, renaming);
                proof {
                    lemma_renamed_len(whole.children(), 0, f);
                    assert(shell@.takes(operands@.len() as int));
                }
                shell.compose(operands)
            },
        }
    }

    /// Puts one local in the place of another that this expression reads.
    pub fn replace_values_read(&mut self, old_local: RcLocal, new_local: RcLocal)
        ensures
            final(self)@ == old(self)@.renamed(
                |l: RcLocal|
                    if l == old_local {
                        new_local
                    } else {
                        l
                    },
            ),
    {
        let replacement = Replacement { old: old_local, new: new_local };
        let mut value = RValue::local(old_local);
        core::mem::swap(self, &mut value);
        *self = value.renamed_by(&replacement);
        proof {
            assert((|l: RcLocal| replacement.image(l)) =~= (|l: RcLocal|
                if l == old_local {
                    new_local
                } else {
                    l
                }));
        }
    }
}

fn retarget<R: Renaming>(targets: Vec<LValue>, renaming: &R) -> (renamed: Vec<LValue>)
    requires
        renaming.is_total(),
    ensures
        LValue::views(renamed@) == LValue::views(targets@).map_values(
            |t: LValueView| t.retargeted(|l: RcLocal| renaming.image(l)),
        ),
{
    let ghost f = |l: RcLocal| renaming.image(l);
    let ghost views = LValue::views(targets@);
    let count: usize = targets.len();
    let mut rest = targets;
    let mut renamed: Vec<LValue> = Vec::new();
    let mut index: usize = 0;
    while index < count
        invariant
            index <= count == views.len(),
            rest@.len() == count - index,
            LValue::views(rest@) =~= views.skip(index as int),
            renaming.is_total(),
            f == (|l: RcLocal| renaming.image(l)),
            renamed@.len() == index,
            forall|i: int|
                0 <= i < index ==> (#[trigger] LValue::views(renamed@)[i]) == views[i].retargeted(f),
        decreases count - index,
    {
        let ghost before = LValue::views(rest@);
        let target = rest.remove(0);
        proof {
            assert(before[0] == views[index as int]);
            assert(LValue::views(rest@) =~= before.skip(1));
            nodes::lvalue_node(target);
        }
        let target = match target {
            LValue::Local(local) => LValue::Local(renaming.rename(local)),
            other => other,
        };
        proof {
            nodes::lvalue_node(target);
        }
        renamed.push(target);
        index += 1;
    }
    proof {
        assert(LValue::views(renamed@) =~= views.map_values(|t: LValueView| t.retargeted(f)));
    }
    renamed
}

impl Assign {
    fn rewritten_by<R: Renaming>(self, renaming: &R) -> (renamed: Assign)
        requires
            renaming.is_total(),
        ensures
            renamed@ == (AssignView {
                left: self@.left.map_values(
                    |t: LValueView| t.retargeted(|l: RcLocal| renaming.image(l)),
                ),
                ..self@
            }),
    {
        proof {
            nodes::assign_node(self);
        }
        let Assign { left, right, prefix, parallel } = self;
        let renamed = Assign { left: retarget(left, renaming), right, prefix, parallel };
        proof {
            nodes::assign_node(renamed);
        }
        renamed
    }
}

impl Statement {
    /// This statement with each local that it writes by itself replaced.
    pub fn rewritten_by<R: Renaming>(self, renaming: &R) -> (renamed: Statement)
        requires
            renaming.is_total(),
        ensures
            renamed@ == self@.rewritten(|l: RcLocal| renaming.image(l)),
    {
        let ghost f = |l: RcLocal| renaming.image(l);
        proof {
            nodes::statement_node(self);
        }
        let renamed = match self {
            Statement::Assign(assign) => Statement::Assign(assign.rewritten_by(renaming)),
            Statement::NumForInit(init) => Statement::NumForInit(
                NumForInit(init.0.rewritten_by(renaming)),
            ),
            Statement::GenericForInit(init) => Statement::GenericForInit(
                GenericForInit(init.0.rewritten_by(renaming)),
            ),
            Statement::NumericFor(each) => {
                let counter = renaming.rename(each.counter);
                Statement::NumericFor(NumericFor { counter, ..each })
            },
            Statement::GenericFor(each) => {
                let GenericFor { res_locals, right, block } = each;
                let mut res_locals = res_locals;
                rename_locals(&mut res_locals, renaming);
                Statement::GenericFor(GenericFor { res_locals, right, block })
            },
            Statement::Class(class) => {
                let target = renaming.rename(class.target);
                Statement::Class(Class { target, ..class })
            },
            Statement::NumForNext(next) => {
                let counter = renaming.rename(next.counter);
                Statement::NumForNext(NumForNext { counter, ..next })
            },
            Statement::GenericForNext(next) => {
                let GenericForNext { res_locals, generator, state } = next;
                let mut res_locals = res_locals;
                rename_locals(&mut res_locals, renaming);
                Statement::GenericForNext(GenericForNext { res_locals, generator, state })
            },
            other => other,
        };
        proof {
            nodes::statement_node(renamed);
            assert(renamed@ =~= self@.rewritten(f));
        }
        renamed
    }

    /// This statement with each local that it reads by itself replaced.
    pub fn reread_by<R: Renaming>(self, renaming: &R) -> (renamed: Statement)
        requires
            renaming.is_total(),
        ensures
            renamed@ == self@.reread(|l: RcLocal| renaming.image(l)),
    {
        let ghost f = |l: RcLocal| renaming.image(l);
        let ghost whole = self@;
        let (shell, roots, blocks) = self.decompose();
        let roots = rename_values(roots, renaming);
        proof {
            lemma_renamed_len(whole.roots(), 0, f);
            shape_laws::given_roots(whole, RValue::views(roots@));
            shape_laws::same_blocks(whole.with_roots(RValue::views(roots@)));
            assert(shell@.takes(roots@.len() as int));
        }
        let statement = shell.compose(roots, blocks);
        let ghost made = whole.with_roots(RValueView::renamed_from(whole.roots(), 0, f));
        proof {
            assert(statement@ == made);
            nodes::statement_node(statement);
        }
        let renamed = match statement {
            Statement::SetList(list) => {
                let object_local = renaming.rename(list.object_local);
                Statement::SetList(SetList { object_local, ..list })
            },
            other => other,
        };
        proof {
            nodes::statement_node(renamed);
        }
        renamed
    }

    /// This statement with each local that it reads or writes by itself
    /// replaced.
    pub fn renamed_by<R: Renaming>(self, renaming: &R) -> (renamed: Statement)
        requires
            renaming.is_total(),
        ensures
            renamed@ == self@.renamed(|l: RcLocal| renaming.image(l)),
    {
        self.rewritten_by(renaming).reread_by(renaming)
    }
}

pub proof fn lemma_renamed_reads_from(
    values: Seq<RValueView>,
    from: int,
    f: spec_fn(RcLocal) -> RcLocal,
)
    requires
        0 <= from <= values.len(),
    ensures
        RValueView::reads_from(RValueView::renamed_from(values, from, f), 0)
            == RValueView::reads_from(values, from).map_values(f),
    decreases RValueView::sizes_from(values, from), 1int,
{
    if from < values.len() {
        model::lemma_sizes_step(values, from);
        renaming_renames_reads(values[from], f);
        lemma_renamed_reads_from(values, from + 1, f);
        let rest = RValueView::renamed_from(values, from + 1, f);
        lemma_reads_shift(values[from].renamed(f), rest, 0);
        assert(RValueView::reads_from(values, from).map_values(f) =~= values[from].reads().map_values(
            f,
        ) + RValueView::reads_from(values, from + 1).map_values(f));
    } else {
        assert(RValueView::reads_from(values, from).map_values(f) =~= Seq::empty());
    }
}

proof fn lemma_reads_shift(value: RValueView, values: Seq<RValueView>, from: int)
    requires
        0 <= from <= values.len(),
    ensures
        RValueView::reads_from(seq![value] + values, from + 1) == RValueView::reads_from(
            values,
            from,
        ),
    decreases values.len() - from,
{
    if from < values.len() {
        lemma_reads_shift(value, values, from + 1);
        assert((seq![value] + values)[from + 1] == values[from]);
    }
}

/// Renaming an expression renames just the locals that it reads, in place.
pub proof fn renaming_renames_reads(value: RValueView, f: spec_fn(RcLocal) -> RcLocal)
    ensures
        value.renamed(f).reads() == value.reads().map_values(f),
    decreases value.size(), 0int,
{
    model::lemma_children_smaller(value);
    match value {
        RValueView::Local(local) => {
            assert(value.renamed(f).reads() =~= value.reads().map_values(f));
        },
        RValueView::Closure(closure) => {
            assert(value.renamed(f).reads() =~= value.reads().map_values(f));
        },
        _ => {
            let operands = RValueView::renamed_from(value.children(), 0, f);
            lemma_renamed_len(value.children(), 0, f);
            shape_laws::same_operands(value);
            lemma_takes(value, operands);
            shape_laws::given_operands(value, operands);
            lemma_renamed_reads_from(value.children(), 0, f);
        },
    }
}

proof fn lemma_takes(value: RValueView, operands: Seq<RValueView>)
    requires
        operands.len() == value.children().len(),
    ensures
        value.takes(operands.len() as int),
{
    shape_laws::same_operands(value);
}

} // verus!
