//! Checking that every local is declared where it is used.

use vstd::prelude::*;

use rustc_hash::FxHashSet;

use crate::ast::local::{Locals, RcLocal};
use crate::ast::local_rw::LocalRw;
use crate::ast::nodes::{
    Assign, AssignView, Block, LValue, LValueView, RValue, RValueView, Statement, StatementView,
};
use crate::ast::{model, nodes};
use crate::collections::{copy_set, has_member, insert_member};
use crate::text;
use crate::text::push_decimal;

verus! {

broadcast use nodes::group_views;

#[derive(Clone, Copy, Debug, Eq, PartialEq, Structural)]
pub enum BindingAccess {
    Read,
    Write,
    Declaration,
}

impl BindingAccess {
    pub open spec fn text(self) -> Seq<char> {
        match self {
            BindingAccess::Read => "Read"@,
            BindingAccess::Write => "Write"@,
            BindingAccess::Declaration => "Declaration"@,
        }
    }

    pub fn as_str(&self) -> (name: &'static str)
        ensures
            name@ == self.text(),
    {
        match self {
            BindingAccess::Read => "Read",
            BindingAccess::Write => "Write",
            BindingAccess::Declaration => "Declaration",
        }
    }
}

/// A use of a local that does not resolve in lexical scope.
#[derive(Debug)]
pub struct BindingResolutionError {
    pub local: String,
    pub access: BindingAccess,
    pub statement: usize,
}

impl BindingResolutionError {
    pub open spec fn text(&self) -> Seq<char> {
        self.access.text() + " of local "@ + self.local@
            + " does not resolve in lexical scope at statement "@ + text::decimal(
            self.statement as nat,
        )
    }

    pub fn to_string(&self) -> (message: String)
        ensures
            message@ == self.text(),
    {
        let mut message = String::new();
        message.append(self.access.as_str());
        message.append(" of local ");
        message.append(self.local.as_str());
        message.append(" does not resolve in lexical scope at statement ");
        push_decimal(&mut message, self.statement as u128);
        proof {
            assert(message@ =~= self.text());
        }
        message
    }
}

/// The first use of a local that does not resolve, in which statement of its
/// block.
#[derive(Clone, Copy, Debug)]
pub struct Fault {
    pub local: RcLocal,
    pub access: BindingAccess,
    pub statement: usize,
}

/// The model of a fault.
pub struct FaultView {
    pub local: RcLocal,
    pub access: BindingAccess,
    pub statement: nat,
}

impl Fault {
    pub open spec fn view(&self) -> FaultView {
        FaultView { local: self.local, access: self.access, statement: self.statement as nat }
    }
}

/// The locals that are visible past some code, or its first fault.
pub type Scoped = Result<Set<u64>, FaultView>;

/// The first of the locals from position `from` on that is visible, or that is
/// not.
pub open spec fn first_from(
    locals: Seq<RcLocal>,
    from: int,
    visible: Set<u64>,
    sought: bool,
) -> Option<RcLocal>
    decreases locals.len() - from,
{
    if 0 <= from < locals.len() {
        if visible.contains(locals[from].id) == sought {
            Some(locals[from])
        } else {
            first_from(locals, from + 1, visible, sought)
        }
    } else {
        None
    }
}

/// What comes of uses that need their locals visible.
pub open spec fn needing(
    locals: Seq<RcLocal>,
    visible: Set<u64>,
    access: BindingAccess,
    at: nat,
) -> Scoped {
    match first_from(locals, 0, visible, false) {
        Some(local) => Err(FaultView { local, access, statement: at }),
        None => Ok(visible),
    }
}

/// What comes of declarations, which need their locals not visible yet.
pub open spec fn declaring(locals: Seq<RcLocal>, visible: Set<u64>, at: nat) -> Scoped {
    match first_from(locals, 0, visible, true) {
        Some(local) => Err(
            FaultView { local, access: BindingAccess::Declaration, statement: at },
        ),
        None => Ok(visible.union(ids(locals))),
    }
}

/// What comes of declarations one after the other: each needs its local not
/// visible, and not declared by one before it.
pub open spec fn declaring_in_turn(
    locals: Seq<RcLocal>,
    from: int,
    visible: Set<u64>,
    at: nat,
) -> Scoped
    decreases locals.len() - from,
{
    if 0 <= from < locals.len() {
        if visible.contains(locals[from].id) {
            Err(
                FaultView {
                    local: locals[from],
                    access: BindingAccess::Declaration,
                    statement: at,
                },
            )
        } else {
            declaring_in_turn(locals, from + 1, visible.insert(locals[from].id), at)
        }
    } else {
        Ok(visible)
    }
}

/// The numbers of locals.
pub open spec fn ids(locals: Seq<RcLocal>) -> Set<u64> {
    Set::new(|id: u64| exists|i: int| 0 <= i < locals.len() && (#[trigger] locals[i]).id == id)
}

/// The first local that the initial values of a declaration from position
/// `from` on read and that is not visible there. A closure sees the locals
/// that the declaration declares.
pub open spec fn unresolved_from(
    values: Seq<RValueView>,
    from: int,
    visible: Set<u64>,
    declared: Set<u64>,
) -> Option<RcLocal>
    decreases values.len() - from,
{
    if 0 <= from < values.len() {
        let seen = if values[from] is Closure {
            visible.union(declared)
        } else {
            visible
        };
        match first_from(values[from].reads(), 0, seen, false) {
            Some(local) => Some(local),
            None => unresolved_from(values, from + 1, visible, declared),
        }
    } else {
        None
    }
}

impl AssignView {
    /// What comes of an assignment or a declaration.
    pub open spec fn scoped(self, visible: Set<u64>, at: nat) -> Scoped {
        if !self.prefix {
            match needing(self.reads(), visible, BindingAccess::Read, at) {
                Ok(_) => needing(self.writes(), visible, BindingAccess::Write, at),
                Err(fault) => Err(fault),
            }
        } else {
            let declared = LValueView::writes_from(self.left, 0);
            match needing(LValueView::reads_from(self.left, 0), visible, BindingAccess::Read, at) {
                Ok(_) => match unresolved_from(self.right, 0, visible, ids(declared)) {
                    Some(local) => Err(
                        FaultView { local, access: BindingAccess::Read, statement: at },
                    ),
                    None => declaring(declared, visible, at),
                },
                Err(fault) => Err(fault),
            }
        }
    }
}

impl StatementView {
    /// What comes of a statement.
    pub open spec fn scoped(self, visible: Set<u64>, at: nat) -> Scoped
        decreases self.size(), 0int,
    {
        proof {
            model::lemma_nested_smaller(self);
        }
        match self {
            StatementView::Assign(assign) => assign.scoped(visible, at),
            StatementView::Class(class) => if visible.contains(class.target.id) {
                Err(
                    FaultView {
                        local: class.target,
                        access: BindingAccess::Declaration,
                        statement: at,
                    },
                )
            } else {
                needing(self.reads(), visible.insert(class.target.id), BindingAccess::Read, at)
            },
            StatementView::If { condition, then_block, else_block } => {
                proof {
                    assert(self.blocks()[0] == then_block);
                    assert(self.blocks()[1] == else_block);
                }
                match needing(condition.reads(), visible, BindingAccess::Read, at) {
                    Ok(_) => match Self::scoped_from(then_block, 0, visible) {
                        Ok(_) => match Self::scoped_from(else_block, 0, visible) {
                            Ok(_) => Ok(visible),
                            Err(fault) => Err(fault),
                        },
                        Err(fault) => Err(fault),
                    },
                    Err(fault) => Err(fault),
                }
            },
            StatementView::Do(block) => {
                proof {
                    assert(self.blocks()[0] == block);
                }
                match Self::scoped_from(block, 0, visible) {
                    Ok(_) => Ok(visible),
                    Err(fault) => Err(fault),
                }
            },
            StatementView::While { condition, block } => {
                proof {
                    assert(self.blocks()[0] == block);
                }
                match needing(condition.reads(), visible, BindingAccess::Read, at) {
                    Ok(_) => match Self::scoped_from(block, 0, visible) {
                        Ok(_) => Ok(visible),
                        Err(fault) => Err(fault),
                    },
                    Err(fault) => Err(fault),
                }
            },
            StatementView::Repeat { condition, block } => {
                proof {
                    assert(self.blocks()[0] == block);
                }
                match Self::scoped_from(block, 0, visible) {
                    Ok(inside) => match needing(
                        condition.reads(),
                        inside,
                        BindingAccess::Read,
                        at,
                    ) {
                        Ok(_) => Ok(visible),
                        Err(fault) => Err(fault),
                    },
                    Err(fault) => Err(fault),
                }
            },
            StatementView::NumericFor { counter, block, .. } => {
                proof {
                    assert(self.blocks()[0] == block);
                }
                match needing(self.reads(), visible, BindingAccess::Read, at) {
                    Ok(_) => match declaring_in_turn(seq![counter], 0, visible, at) {
                        Ok(inside) => match Self::scoped_from(block, 0, inside) {
                            Ok(_) => Ok(visible),
                            Err(fault) => Err(fault),
                        },
                        Err(fault) => Err(fault),
                    },
                    Err(fault) => Err(fault),
                }
            },
            StatementView::GenericFor { res_locals, block, .. } => {
                proof {
                    assert(self.blocks()[0] == block);
                }
                match needing(self.reads(), visible, BindingAccess::Read, at) {
                    Ok(_) => match declaring_in_turn(res_locals, 0, visible, at) {
                        Ok(inside) => match Self::scoped_from(block, 0, inside) {
                            Ok(_) => Ok(visible),
                            Err(fault) => Err(fault),
                        },
                        Err(fault) => Err(fault),
                    },
                    Err(fault) => Err(fault),
                }
            },
            _ => match needing(self.reads(), visible, BindingAccess::Read, at) {
                Ok(_) => needing(self.writes(), visible, BindingAccess::Write, at),
                Err(fault) => Err(fault),
            },
        }
    }

    /// What comes of the statements from position `from` on.
    pub open spec fn scoped_from(
        statements: Seq<StatementView>,
        from: int,
        visible: Set<u64>,
    ) -> Scoped
        decreases Self::sizes_from(statements, from), 1int,
    {
        proof {
            model::lemma_statement_sizes_step(statements, from);
        }
        if 0 <= from < statements.len() {
            match statements[from].scoped(visible, from as nat) {
                Ok(next) => Self::scoped_from(statements, from + 1, next),
                Err(fault) => Err(fault),
            }
        } else {
            Ok(visible)
        }
    }
}

/// Whether a result is what comes of some code.
pub open spec fn tells(result: Result<(), Fault>, visible: Set<u64>, scoped: Scoped) -> bool {
    match result {
        Ok(_) => scoped == Scoped::Ok(visible),
        Err(fault) => scoped == Scoped::Err(fault@),
    }
}

fn require_visible(
    locals: Vec<RcLocal>,
    visible: &FxHashSet<u64>,
    access: BindingAccess,
    statement: usize,
) -> (result: Result<(), Fault>)
    ensures
        tells(result, visible@, needing(locals@, visible@, access, statement as nat)),
{
    let mut index: usize = 0;
    while index < locals.len()
        invariant
            index <= locals.len(),
            first_from(locals@, 0, visible@, false) == first_from(
                locals@,
                index as int,
                visible@,
                false,
            ),
        decreases locals.len() - index,
    {
        if !has_member(visible, locals[index].id) {
            return Err(Fault { local: locals[index], access, statement });
        }
        index += 1;
    }
    Ok(())
}

/// Makes locals visible, unless one of them is.
fn declare_all(locals: &Vec<RcLocal>, visible: &mut FxHashSet<u64>, statement: usize) -> (result:
    Result<(), Fault>)
    ensures
        tells(result, final(visible)@, declaring(locals@, old(visible)@, statement as nat)),
{
    let mut index: usize = 0;
    while index < locals.len()
        invariant
            index <= locals.len(),
            visible@ == old(visible)@,
            first_from(locals@, 0, visible@, true) == first_from(
                locals@,
                index as int,
                visible@,
                true,
            ),
        decreases locals.len() - index,
    {
        if has_member(visible, locals[index].id) {
            return Err(
                Fault { local: locals[index], access: BindingAccess::Declaration, statement },
            );
        }
        index += 1;
    }
    let mut index: usize = 0;
    proof {
        assert(visible@ =~= old(visible)@.union(ids(locals@.take(0))));
    }
    while index < locals.len()
        invariant
            index <= locals.len(),
            visible@ == old(visible)@.union(ids(locals@.take(index as int))),
        decreases locals.len() - index,
    {
        let ghost before = visible@;
        let fresh = insert_member(visible, locals[index].id);
        proof {
            let less = locals@.take(index as int);
            let more = locals@.take(index + 1);
            assert forall|id: u64| ids(more).contains(id) == (ids(less).contains(id) || id
                == locals@[index as int].id) by {
                if ids(less).contains(id) {
                    let i = choose|i: int| 0 <= i < less.len() && (#[trigger] less[i]).id == id;
                    assert(more[i].id == id);
                }
                if id == locals@[index as int].id {
                    assert(more[index as int].id == id);
                }
                if ids(more).contains(id) {
                    let i = choose|i: int| 0 <= i < more.len() && (#[trigger] more[i]).id == id;
                    if i < index {
                        assert(less[i].id == id);
                    }
                }
            }
            assert(visible@ =~= old(visible)@.union(ids(more)));
        }
        index += 1;
    }
    proof {
        assert(locals@.take(locals@.len() as int) =~= locals@);
    }
    Ok(())
}

/// Makes locals visible one after the other, until one is.
fn declare_in_turn(locals: &Vec<RcLocal>, visible: &mut FxHashSet<u64>, statement: usize) -> (result:
    Result<(), Fault>)
    ensures
        tells(
            result,
            final(visible)@,
            declaring_in_turn(locals@, 0, old(visible)@, statement as nat),
        ),
{
    let mut index: usize = 0;
    while index < locals.len()
        invariant
            index <= locals.len(),
            declaring_in_turn(locals@, 0, old(visible)@, statement as nat) == declaring_in_turn(
                locals@,
                index as int,
                visible@,
                statement as nat,
            ),
        decreases locals.len() - index,
    {
        if !insert_member(visible, locals[index].id) {
            return Err(
                Fault { local: locals[index], access: BindingAccess::Declaration, statement },
            );
        }
        index += 1;
    }
    Ok(())
}

/// The locals among the targets of an assignment.
fn target_locals(targets: &Vec<LValue>) -> (locals: Vec<RcLocal>)
    ensures
        locals@ == LValueView::writes_from(LValue::views(targets@), 0),
{
    let ghost views = LValue::views(targets@);
    let mut locals: Vec<RcLocal> = Vec::new();
    let mut index: usize = 0;
    while index < targets.len()
        invariant
            index <= targets.len(),
            views == LValue::views(targets@),
            locals@ + LValueView::writes_from(views, index as int) =~= LValueView::writes_from(
                views,
                0,
            ),
        decreases targets.len() - index,
    {
        let ghost before = locals@;
        if let Some(local) = targets[index].as_local() {
            locals.push(local);
        }
        proof {
            assert(locals@ =~= before + views[index as int].writes());
        }
        index += 1;
    }
    proof {
        assert(locals@ =~= LValueView::writes_from(views, 0));
    }
    locals
}

/// The locals that the targets of an assignment read.
fn target_reads(targets: &Vec<LValue>) -> (locals: Vec<RcLocal>)
    ensures
        locals@ == LValueView::reads_from(LValue::views(targets@), 0),
{
    let ghost views = LValue::views(targets@);
    let mut locals: Vec<RcLocal> = Vec::new();
    let mut index: usize = 0;
    while index < targets.len()
        invariant
            index <= targets.len(),
            views == LValue::views(targets@),
            locals@ + LValueView::reads_from(views, index as int) =~= LValueView::reads_from(
                views,
                0,
            ),
        decreases targets.len() - index,
    {
        let ghost before = locals@;
        let mut read = targets[index].values_read();
        locals.append(&mut read);
        proof {
            assert(locals@ =~= before + views[index as int].reads());
        }
        index += 1;
    }
    proof {
        assert(locals@ =~= LValueView::reads_from(views, 0));
    }
    locals
}

fn contains_local(locals: &Vec<RcLocal>, local: RcLocal) -> (result: bool)
    ensures
        result == ids(locals@).contains(local.id),
{
    let mut index: usize = 0;
    while index < locals.len()
        invariant
            index <= locals.len(),
            forall|i: int| 0 <= i < index ==> (#[trigger] locals@[i]).id != local.id,
        decreases locals.len() - index,
    {
        if locals[index].id == local.id {
            assert(locals@[index as int].id == local.id);
            return true;
        }
        index += 1;
    }
    false
}

/// The first local that the initial values of a declaration read and that is
/// not visible there.
fn unresolved(values: &Vec<RValue>, visible: &FxHashSet<u64>, declared: &Vec<RcLocal>) -> (found:
    Option<RcLocal>)
    ensures
        found == unresolved_from(RValue::views(values@), 0, visible@, ids(declared@)),
{
    let ghost views = RValue::views(values@);
    let ghost names = ids(declared@);
    let mut index: usize = 0;
    while index < values.len()
        invariant
            index <= values.len(),
            views == RValue::views(values@),
            names == ids(declared@),
            unresolved_from(views, 0, visible@, names) == unresolved_from(
                views,
                index as int,
                visible@,
                names,
            ),
        decreases values.len() - index,
    {
        let value = &values[index];
        proof {
            nodes::rvalue_node(*value);
        }
        let closure = matches!(value, RValue::Closure(_));
        let ghost seen = if views[index as int] is Closure {
            visible@.union(names)
        } else {
            visible@
        };
        let locals = value.values_read();
        let mut position: usize = 0;
        while position < locals.len()
            invariant
                position <= locals.len(),
                index < values.len(),
                views == RValue::views(values@),
                names == ids(declared@),
                closure == (views[index as int] is Closure),
                seen == (if views[index as int] is Closure {
                    visible@.union(names)
                } else {
                    visible@
                }),
                locals@ == views[index as int].reads(),
                first_from(locals@, 0, seen, false) == first_from(
                    locals@,
                    position as int,
                    seen,
                    false,
                ),
                unresolved_from(views, 0, visible@, names) == unresolved_from(
                    views,
                    index as int,
                    visible@,
                    names,
                ),
            decreases locals.len() - position,
        {
            let local = locals[position];
            let recursive = closure && contains_local(declared, local);
            if !has_member(visible, local.id) && !recursive {
                return Some(local);
            }
            position += 1;
        }
        index += 1;
    }
    None
}

fn validate_assign(assign: &Assign, visible: &mut FxHashSet<u64>, statement: usize) -> (result:
    Result<(), Fault>)
    ensures
        tells(result, final(visible)@, assign@.scoped(old(visible)@, statement as nat)),
{
    proof {
        nodes::assign_node(*assign);
    }
    if !assign.prefix {
        let read = require_visible(assign.values_read(), visible, BindingAccess::Read, statement);
        if read.is_err() {
            return read;
        }
        return require_visible(assign.values_written(), visible, BindingAccess::Write, statement);
    }
    let declared = target_locals(&assign.left);
    let read = require_visible(target_reads(&assign.left), visible, BindingAccess::Read, statement);
    if read.is_err() {
        return read;
    }
    if let Some(local) = unresolved(&assign.right, visible, &declared) {
        return Err(Fault { local, access: BindingAccess::Read, statement });
    }
    declare_all(&declared, visible, statement)
}

fn validate_statement(
    statement: &Statement,
    visible: &mut FxHashSet<u64>,
    at: usize,
) -> (result: Result<(), Fault>)
    ensures
        tells(result, final(visible)@, statement@.scoped(old(visible)@, at as nat)),
    decreases statement@.size(), 0int,
{
    let ghost view = statement@;
    proof {
        nodes::statement_node(*statement);
        model::lemma_nested_smaller(view);
    }
    match statement {
        Statement::Assign(assign) => validate_assign(assign, visible, at),
        Statement::Class(class) => {
            if !insert_member(visible, class.target.id) {
                return Err(
                    Fault {
                        local: class.target,
                        access: BindingAccess::Declaration,
                        statement: at,
                    },
                );
            }
            require_visible(statement.values_read(), visible, BindingAccess::Read, at)
        },
        Statement::If(branch) => {
            proof {
                assert(view.blocks()[0] == branch.then_block@);
                assert(view.blocks()[1] == branch.else_block@);
            }
            let read = require_visible(
                branch.condition.values_read(),
                visible,
                BindingAccess::Read,
                at,
            );
            if read.is_err() {
                return read;
            }
            let then_result = validate_block(&branch.then_block, &mut copy_set(visible));
            if then_result.is_err() {
                return then_result;
            }
            validate_block(&branch.else_block, &mut copy_set(visible))
        },
        Statement::Do(scope) => {
            proof {
                assert(view.blocks()[0] == scope.block@);
            }
            validate_block(&scope.block, &mut copy_set(visible))
        },
        Statement::While(each) => {
            proof {
                assert(view.blocks()[0] == each.block@);
            }
            let read = require_visible(
                each.condition.values_read(),
                visible,
                BindingAccess::Read,
                at,
            );
            if read.is_err() {
                return read;
            }
            validate_block(&each.block, &mut copy_set(visible))
        },
        Statement::Repeat(each) => {
            proof {
                assert(view.blocks()[0] == each.block@);
            }
            let mut inside = copy_set(visible);
            let body = validate_block(&each.block, &mut inside);
            if body.is_err() {
                return body;
            }
            require_visible(each.condition.values_read(), &inside, BindingAccess::Read, at)
        },
        Statement::NumericFor(each) => {
            proof {
                assert(view.blocks()[0] == each.block@);
            }
            let read = require_visible(statement.values_read(), visible, BindingAccess::Read, at);
            if read.is_err() {
                return read;
            }
            let mut inside = copy_set(visible);
            let mut counters: Vec<RcLocal> = Vec::new();
            counters.push(each.counter);
            proof {
                assert(counters@ =~= seq![each.counter]);
            }
            let declared = declare_in_turn(&counters, &mut inside, at);
            if declared.is_err() {
                return declared;
            }
            validate_block(&each.block, &mut inside)
        },
        Statement::GenericFor(each) => {
            proof {
                assert(view.blocks()[0] == each.block@);
            }
            let read = require_visible(statement.values_read(), visible, BindingAccess::Read, at);
            if read.is_err() {
                return read;
            }
            let mut inside = copy_set(visible);
            let declared = declare_in_turn(&each.res_locals, &mut inside, at);
            if declared.is_err() {
                return declared;
            }
            validate_block(&each.block, &mut inside)
        },
        _ => {
            let read = require_visible(statement.values_read(), visible, BindingAccess::Read, at);
            if read.is_err() {
                return read;
            }
            require_visible(statement.values_written(), visible, BindingAccess::Write, at)
        },
    }
}

/// Checks a block, and makes what it declares visible.
pub fn validate_block(block: &Block, visible: &mut FxHashSet<u64>) -> (result: Result<(), Fault>)
    ensures
        tells(result, final(visible)@, StatementView::scoped_from(block@, 0, old(visible)@)),
    decreases StatementView::sizes_from(block@, 0), 1int,
{
    let ghost views = block@;
    let mut index: usize = 0;
    while index < block.0.len()
        invariant
            index <= block.0@.len() == views.len(),
            views == block@,
            StatementView::scoped_from(views, 0, old(visible)@) == StatementView::scoped_from(
                views,
                index as int,
                visible@,
            ),
        decreases block.0.len() - index,
    {
        proof {
            model::lemma_statement_sizes_member(views, 0, index as int);
        }
        match validate_statement(&block.0[index], visible, index) {
            Ok(_) => {},
            Err(fault) => {
                return Err(fault);
            },
        }
        index += 1;
    }
    Ok(())
}

/// Checks that every local of a block is declared where it is used, given the
/// locals that are visible where it starts, and that none is declared twice.
pub fn validate_bindings(
    block: &Block,
    initially_visible: &FxHashSet<u64>,
    locals: &Locals,
) -> (result: Result<(), BindingResolutionError>)
    ensures
        match StatementView::scoped_from(block@, 0, initially_visible@) {
            Ok(_) => result is Ok,
            Err(fault) => result is Err && {
                let error = result->Err_0;
                &&& error.local@ == Locals::spelling(locals@, fault.local)
                &&& error.access == fault.access
                &&& error.statement == fault.statement
            },
        },
{
    let mut visible = copy_set(initially_visible);
    match validate_block(block, &mut visible) {
        Ok(_) => Ok(()),
        Err(fault) => Err(
            BindingResolutionError {
                local: fault.local.to_string(locals),
                access: fault.access,
                statement: fault.statement,
            },
        ),
    }
}

} // verus!
