//! The locals that nodes read and write, the effects of evaluating them, and
//! when two expressions are the same.

use vstd::prelude::*;

use crate::ast::global::Global;
use crate::ast::literal::Literal;
use crate::ast::local::RcLocal;
use crate::ast::nodes::{
    Assign, BinaryOperation, Call, Class, Closure, Conditional, Index, LValue, LValueView,
    MethodCall, RValue, RValueView, Select, SelectView, Statement, StatementView, Table,
    UnaryOperation, Upvalue,
};
use crate::ast::{model, nodes};
use crate::text::same_text;

verus! {

broadcast use nodes::group_views;

/// A node that reads or writes locals.
pub trait LocalRw: Sized {
    /// The locals read, in order.
    spec fn read_locals(&self) -> Seq<RcLocal>;

    /// The locals written, in order.
    spec fn written_locals(&self) -> Seq<RcLocal>;

    fn values_read(&self) -> (locals: Vec<RcLocal>)
        ensures
            locals@ == self.read_locals(),
    ;

    fn values_written(&self) -> (locals: Vec<RcLocal>)
        ensures
            locals@ == self.written_locals(),
    ;

    /// The locals read, then those written.
    fn values(&self) -> (locals: Vec<RcLocal>)
        ensures
            locals@ == self.read_locals() + self.written_locals(),
    {
        let mut locals = self.values_read();
        let mut written = self.values_written();
        locals.append(&mut written);
        locals
    }
}

fn push_reads(values: &Vec<&RValue>, locals: &mut Vec<RcLocal>)
    ensures
        final(locals)@ == old(locals)@ + RValueView::reads_from(RValue::borrowed(values@), 0),
    decreases RValueView::sizes_from(RValue::borrowed(values@), 0), 1int,
{
    let ghost views = RValue::borrowed(values@);
    let mut index: usize = 0;
    while index < values.len()
        invariant
            index <= values.len(),
            views == RValue::borrowed(values@),
            locals@ + RValueView::reads_from(views, index as int) =~= old(locals)@
                + RValueView::reads_from(views, 0),
        decreases values.len() - index,
    {
        proof {
            model::lemma_sizes_member(views, 0, index as int);
        }
        push_value_reads(values[index], locals);
        index += 1;
    }
}

fn push_value_reads(value: &RValue, locals: &mut Vec<RcLocal>)
    ensures
        final(locals)@ == old(locals)@ + value@.reads(),
    decreases value@.size(), 0int,
{
    proof {
        nodes::rvalue_node(*value);
        model::lemma_children_smaller(value@);
    }
    match value {
        RValue::Local(local) => {
            locals.push(*local);
            proof {
                assert(locals@ =~= old(locals)@ + value@.reads());
            }
        },
        RValue::Closure(closure) => push_captures(closure, locals),
        _ => {
            let operands = value.rvalues();
            push_reads(&operands, locals);
        },
    }
}

fn push_captures(closure: &Closure, locals: &mut Vec<RcLocal>)
    ensures
        final(locals)@ == old(locals)@ + closure.upvalues@.map_values(|u: Upvalue| u.captured()),
{
    let ghost captures = closure.upvalues@.map_values(|u: Upvalue| u.captured());
    let mut index: usize = 0;
    while index < closure.upvalues.len()
        invariant
            index <= closure.upvalues.len(),
            captures == closure.upvalues@.map_values(|u: Upvalue| u.captured()),
            locals@ =~= old(locals)@ + captures.take(index as int),
        decreases closure.upvalues.len() - index,
    {
        let local = match closure.upvalues[index] {
            Upvalue::Copy(local) => local,
            Upvalue::Ref(local) => local,
        };
        locals.push(local);
        index += 1;
    }
    proof {
        assert(captures.take(captures.len() as int) =~= captures);
    }
}

fn push_target_reads(targets: &Vec<LValue>, locals: &mut Vec<RcLocal>)
    ensures
        final(locals)@ == old(locals)@ + LValueView::reads_from(LValue::views(targets@), 0),
{
    let ghost views = LValue::views(targets@);
    let mut index: usize = 0;
    while index < targets.len()
        invariant
            index <= targets.len(),
            views == LValue::views(targets@),
            locals@ + LValueView::reads_from(views, index as int) =~= old(locals)@
                + LValueView::reads_from(views, 0),
        decreases targets.len() - index,
    {
        let mut read = targets[index].values_read();
        locals.append(&mut read);
        index += 1;
    }
}

fn push_target_writes(targets: &Vec<LValue>, locals: &mut Vec<RcLocal>)
    ensures
        final(locals)@ == old(locals)@ + LValueView::writes_from(LValue::views(targets@), 0),
{
    let ghost views = LValue::views(targets@);
    let mut index: usize = 0;
    while index < targets.len()
        invariant
            index <= targets.len(),
            views == LValue::views(targets@),
            locals@ + LValueView::writes_from(views, index as int) =~= old(locals)@
                + LValueView::writes_from(views, 0),
        decreases targets.len() - index,
    {
        let mut written = targets[index].values_written();
        locals.append(&mut written);
        index += 1;
    }
}

fn push_locals(list: &Vec<RcLocal>, locals: &mut Vec<RcLocal>)
    ensures
        final(locals)@ == old(locals)@ + list@,
{
    let mut copy = crate::ast::copy::copy_locals(list);
    locals.append(&mut copy);
}

impl LocalRw for RcLocal {
    open spec fn read_locals(&self) -> Seq<RcLocal> {
        seq![*self]
    }

    open spec fn written_locals(&self) -> Seq<RcLocal> {
        Seq::empty()
    }

    fn values_read(&self) -> (locals: Vec<RcLocal>) {
        let mut locals: Vec<RcLocal> = Vec::new();
        locals.push(*self);
        proof {
            assert(locals@ =~= seq![*self]);
        }
        locals
    }

    fn values_written(&self) -> (locals: Vec<RcLocal>) {
        Vec::new()
    }
}

impl LocalRw for RValue {
    open spec fn read_locals(&self) -> Seq<RcLocal> {
        self@.reads()
    }

    open spec fn written_locals(&self) -> Seq<RcLocal> {
        Seq::empty()
    }

    fn values_read(&self) -> (locals: Vec<RcLocal>) {
        let mut locals: Vec<RcLocal> = Vec::new();
        push_value_reads(self, &mut locals);
        proof {
            assert(locals@ =~= self@.reads());
        }
        locals
    }

    fn values_written(&self) -> (locals: Vec<RcLocal>) {
        Vec::new()
    }
}

impl LocalRw for LValue {
    open spec fn read_locals(&self) -> Seq<RcLocal> {
        self@.reads()
    }

    open spec fn written_locals(&self) -> Seq<RcLocal> {
        self@.writes()
    }

    fn values_read(&self) -> (locals: Vec<RcLocal>) {
        let mut locals: Vec<RcLocal> = Vec::new();
        proof {
            nodes::lvalue_node(*self);
            reveal_with_fuel(RValueView::reads_from, 3);
        }
        match self {
            LValue::Index(index) => {
                push_value_reads(&index.left, &mut locals);
                push_value_reads(&index.right, &mut locals);
            },
            _ => {},
        }
        proof {
            assert(locals@ =~= self@.reads());
        }
        locals
    }

    fn values_written(&self) -> (locals: Vec<RcLocal>) {
        let mut locals: Vec<RcLocal> = Vec::new();
        proof {
            nodes::lvalue_node(*self);
        }
        match self {
            LValue::Local(local) => locals.push(*local),
            _ => {},
        }
        proof {
            assert(locals@ =~= self@.writes());
        }
        locals
    }
}

impl LocalRw for Conditional {
    open spec fn read_locals(&self) -> Seq<RcLocal> {
        self.condition@.reads() + self.then_value@.reads() + self.else_value@.reads()
    }

    open spec fn written_locals(&self) -> Seq<RcLocal> {
        Seq::empty()
    }

    fn values_read(&self) -> (locals: Vec<RcLocal>) {
        let mut locals: Vec<RcLocal> = Vec::new();
        push_value_reads(&self.condition, &mut locals);
        push_value_reads(&self.then_value, &mut locals);
        push_value_reads(&self.else_value, &mut locals);
        proof {
            assert(locals@ =~= self.read_locals());
        }
        locals
    }

    fn values_written(&self) -> (locals: Vec<RcLocal>) {
        Vec::new()
    }
}

impl LocalRw for Assign {
    open spec fn read_locals(&self) -> Seq<RcLocal> {
        self@.reads()
    }

    open spec fn written_locals(&self) -> Seq<RcLocal> {
        self@.writes()
    }

    fn values_read(&self) -> (locals: Vec<RcLocal>) {
        let mut locals: Vec<RcLocal> = Vec::new();
        push_target_reads(&self.left, &mut locals);
        let right = crate::ast::shape::borrow_all(&self.right);
        push_reads(&right, &mut locals);
        proof {
            nodes::assign_node(*self);
            assert(locals@ =~= self@.reads());
        }
        locals
    }

    fn values_written(&self) -> (locals: Vec<RcLocal>) {
        let mut locals: Vec<RcLocal> = Vec::new();
        push_target_writes(&self.left, &mut locals);
        proof {
            nodes::assign_node(*self);
            assert(locals@ =~= self@.writes());
        }
        locals
    }
}

impl LocalRw for Statement {
    open spec fn read_locals(&self) -> Seq<RcLocal> {
        self@.reads()
    }

    open spec fn written_locals(&self) -> Seq<RcLocal> {
        self@.writes()
    }

    fn values_read(&self) -> (locals: Vec<RcLocal>) {
        proof {
            nodes::statement_node(*self);
        }
        match self {
            Statement::Assign(assign) => assign.values_read(),
            Statement::NumForInit(init) => init.0.values_read(),
            Statement::GenericForInit(init) => init.0.values_read(),
            _ => {
                let mut locals: Vec<RcLocal> = Vec::new();
                match self {
                    Statement::SetList(list) => locals.push(list.object_local),
                    _ => {},
                }
                let values = self.rvalues();
                push_reads(&values, &mut locals);
                proof {
                    assert(locals@ =~= self@.reads());
                }
                locals
            },
        }
    }

    fn values_written(&self) -> (locals: Vec<RcLocal>) {
        proof {
            nodes::statement_node(*self);
        }
        let mut locals: Vec<RcLocal> = Vec::new();
        match self {
            Statement::Assign(assign) => {
                return assign.values_written();
            },
            Statement::NumForInit(init) => {
                return init.0.values_written();
            },
            Statement::GenericForInit(init) => {
                return init.0.values_written();
            },
            Statement::NumericFor(each) => locals.push(each.counter),
            Statement::GenericFor(each) => push_locals(&each.res_locals, &mut locals),
            Statement::Class(class) => locals.push(class.target),
            Statement::NumForNext(next) => locals.push(next.counter),
            Statement::GenericForNext(next) => push_locals(&next.res_locals, &mut locals),
            _ => {},
        }
        proof {
            assert(locals@ =~= self@.writes());
        }
        locals
    }
}

fn any_effects(values: &Vec<&RValue>) -> (result: bool)
    ensures
        result == RValueView::effects_from(RValue::borrowed(values@), 0),
    decreases RValueView::sizes_from(RValue::borrowed(values@), 0), 1int,
{
    let ghost views = RValue::borrowed(values@);
    let mut index: usize = 0;
    while index < values.len()
        invariant
            index <= values.len(),
            views == RValue::borrowed(values@),
            RValueView::effects_from(views, index as int) == RValueView::effects_from(views, 0),
        decreases values.len() - index,
    {
        proof {
            model::lemma_sizes_member(views, 0, index as int);
        }
        if values[index].has_side_effects() {
            return true;
        }
        index += 1;
    }
    false
}

impl RValue {
    /// Whether evaluating this expression may be observed.
    pub fn has_side_effects(&self) -> (result: bool)
        ensures
            result == self@.has_side_effects(),
        decreases self@.size(), 0int,
    {
        proof {
            nodes::rvalue_node(*self);
            model::lemma_children_smaller(self@);
        }
        match self {
            RValue::Local(_) | RValue::VarArg(_) | RValue::Literal(_) | RValue::Closure(_)
            | RValue::Select(Select::VarArg(_)) => false,
            RValue::Global(_) | RValue::Call(_) | RValue::MethodCall(_) | RValue::Index(_)
            | RValue::Select(_) => true,
            RValue::Unary(unary) => {
                if unary.operation != UnaryOperation::Not {
                    return true;
                }
                let operands = self.rvalues();
                any_effects(&operands)
            },
            RValue::Binary(binary) => {
                if binary.operation != BinaryOperation::And && binary.operation
                    != BinaryOperation::Or {
                    return true;
                }
                let operands = self.rvalues();
                any_effects(&operands)
            },
            RValue::Table(_) | RValue::Conditional(_) => {
                let operands = self.rvalues();
                any_effects(&operands)
            },
        }
    }
}

impl Conditional {
    /// Whether evaluating this expression may be observed.
    pub fn has_side_effects(&self) -> (result: bool)
        ensures
            result == (self.condition@.has_side_effects() || self.then_value@.has_side_effects()
                || self.else_value@.has_side_effects()),
    {
        self.condition.has_side_effects() || self.then_value.has_side_effects()
            || self.else_value.has_side_effects()
    }
}

impl LValue {
    /// Whether storing to this target may be observed beyond the locals.
    pub fn has_side_effects(&self) -> (result: bool)
        ensures
            result == self@.has_side_effects(),
    {
        proof {
            nodes::lvalue_node(*self);
        }
        match self {
            LValue::Local(_) => false,
            _ => true,
        }
    }
}

impl Statement {
    /// Whether running this statement may be observed beyond the locals that
    /// it writes.
    pub fn has_side_effects(&self) -> (result: bool)
        ensures
            result == self@.has_side_effects(),
    {
        proof {
            nodes::statement_node(*self);
        }
        match self {
            Statement::Empty(_) | Statement::Comment(_) => false,
            Statement::Assign(assign) => {
                proof {
                    nodes::assign_node(*assign);
                }
                let ghost targets = LValue::views(assign.left@);
                let mut index: usize = 0;
                while index < assign.left.len()
                    invariant
                        index <= assign.left.len(),
                        targets == LValue::views(assign.left@),
                        StatementView::target_effects_from(targets, index as int)
                            == StatementView::target_effects_from(targets, 0),
                        self@ == StatementView::Assign(assign@),
                        assign@.left == targets,
                        assign@.right == RValue::views(assign.right@),
                    decreases assign.left.len() - index,
                {
                    if assign.left[index].has_side_effects() {
                        return true;
                    }
                    index += 1;
                }
                let right = crate::ast::shape::borrow_all(&assign.right);
                any_effects(&right)
            },
            _ => true,
        }
    }
}

impl RValueView {
    /// Whether two expressions agree in their own nodes, operands aside.
    pub open spec fn same_head(self, other: RValueView) -> bool {
        match (self, other) {
            (RValueView::Local(left), RValueView::Local(right)) => left == right,
            (RValueView::Global(left), RValueView::Global(right)) => left == right,
            (RValueView::Call(_), RValueView::Call(_)) => true,
            (RValueView::MethodCall(left), RValueView::MethodCall(right)) => left.method
                == right.method,
            (RValueView::VarArg, RValueView::VarArg) => true,
            (RValueView::Table(left), RValueView::Table(right)) => crate::ast::shape::same_keys(
                left,
                right,
            ),
            (RValueView::Literal(left), RValueView::Literal(right)) => left.equals(right),
            (RValueView::Index(_), RValueView::Index(_)) => true,
            (RValueView::Unary(_, left), RValueView::Unary(_, right)) => left == right,
            (RValueView::Binary(_, _, left), RValueView::Binary(_, _, right)) => left == right,
            (RValueView::Conditional(_, _, _), RValueView::Conditional(_, _, _)) => true,
            (RValueView::Closure(left), RValueView::Closure(right)) => left.function.id
                == right.function.id && left.upvalues == right.upvalues,
            (
                RValueView::Select(SelectView::VarArg),
                RValueView::Select(SelectView::VarArg),
            ) => true,
            (
                RValueView::Select(SelectView::Call(_)),
                RValueView::Select(SelectView::Call(_)),
            ) => true,
            (
                RValueView::Select(SelectView::MethodCall(left)),
                RValueView::Select(SelectView::MethodCall(right)),
            ) => left.method == right.method,
            _ => false,
        }
    }

    /// Equality of expressions: the same nodes all through. Closures are equal
    /// when they are closures of one prototype over the same captures.
    pub open spec fn equals(self, other: RValueView) -> bool
        decreases self.size(), 0int,
    {
        proof {
            model::lemma_children_smaller(self);
        }
        self.same_head(other) && Self::all_equal_from(self.children(), other.children(), 0)
    }

    /// Whether two lists of expressions are equal from position `from` on.
    pub open spec fn all_equal_from(
        left: Seq<RValueView>,
        right: Seq<RValueView>,
        from: int,
    ) -> bool
        decreases Self::sizes_from(left, from), 1int,
    {
        proof {
            model::lemma_sizes_step(left, from);
        }
        if 0 <= from < left.len() {
            from < right.len() && left[from].equals(right[from]) && Self::all_equal_from(
                left,
                right,
                from + 1,
            )
        } else {
            left.len() == right.len()
        }
    }
}

fn same_upvalues(left: &Vec<Upvalue>, right: &Vec<Upvalue>) -> (result: bool)
    ensures
        result == (left@ == right@),
{
    if left.len() != right.len() {
        return false;
    }
    let mut index: usize = 0;
    while index < left.len()
        invariant
            index <= left.len() == right.len(),
            forall|i: int| 0 <= i < index ==> left@[i] == right@[i],
        decreases left.len() - index,
    {
        if left[index] != right[index] {
            return false;
        }
        index += 1;
    }
    proof {
        assert(left@ =~= right@);
    }
    true
}

fn same_field_keys(left: &Table, right: &Table) -> (result: bool)
    ensures
        result == crate::ast::shape::same_keys(left@, right@),
{
    if left.0.len() != right.0.len() {
        return false;
    }
    let mut index: usize = 0;
    while index < left.0.len()
        invariant
            index <= left.0.len() == right.0.len(),
            forall|i: int|
                0 <= i < index ==> (left@[i].0 is Some) == (#[trigger] right@[i].0 is Some),
        decreases left.0.len() - index,
    {
        if left.0[index].0.is_some() != right.0[index].0.is_some() {
            proof {
                assert((left@[index as int].0 is Some) != (right@[index as int].0 is Some));
            }
            return false;
        }
        index += 1;
    }
    true
}

impl RValue {
    fn same_head(&self, other: &RValue) -> (result: bool)
        ensures
            result == self@.same_head(other@),
    {
        proof {
            nodes::rvalue_node(*self);
            nodes::rvalue_node(*other);
        }
        match (self, other) {
            (RValue::Local(left), RValue::Local(right)) => *left == *right,
            (RValue::Global(left), RValue::Global(right)) => left.eq(right),
            (RValue::Call(_), RValue::Call(_)) => true,
            (RValue::MethodCall(left), RValue::MethodCall(right)) => same_text(
                &left.method,
                right.method.as_str(),
            ),
            (RValue::VarArg(_), RValue::VarArg(_)) => true,
            (RValue::Table(left), RValue::Table(right)) => same_field_keys(left, right),
            (RValue::Literal(left), RValue::Literal(right)) => left.eq(right),
            (RValue::Index(_), RValue::Index(_)) => true,
            (RValue::Unary(left), RValue::Unary(right)) => left.operation == right.operation,
            (RValue::Binary(left), RValue::Binary(right)) => left.operation == right.operation,
            (RValue::Conditional(_), RValue::Conditional(_)) => true,
            (RValue::Closure(left), RValue::Closure(right)) => left.function.id
                == right.function.id && same_upvalues(&left.upvalues, &right.upvalues),
            (RValue::Select(Select::VarArg(_)), RValue::Select(Select::VarArg(_))) => true,
            (RValue::Select(Select::Call(_)), RValue::Select(Select::Call(_))) => true,
            (
                RValue::Select(Select::MethodCall(left)),
                RValue::Select(Select::MethodCall(right)),
            ) => same_text(&left.method, right.method.as_str()),
            _ => false,
        }
    }

    /// Whether this expression and another are the same.
    pub fn equals(&self, other: &RValue) -> (result: bool)
        ensures
            result == self@.equals(other@),
        decreases self@.size(),
    {
        if !self.same_head(other) {
            return false;
        }
        let left = self.rvalues();
        let right = other.rvalues();
        let ghost mine = RValue::borrowed(left@);
        let ghost theirs = RValue::borrowed(right@);
        if left.len() != right.len() {
            proof {
                lemma_equal_lengths(mine, theirs, 0);
            }
            return false;
        }
        let mut index: usize = 0;
        while index < left.len()
            invariant
                index <= left.len() == right.len(),
                mine == RValue::borrowed(left@),
                theirs == RValue::borrowed(right@),
                mine == self@.children(),
                theirs == other@.children(),
                self@.same_head(other@),
                RValueView::all_equal_from(mine, theirs, index as int)
                    == RValueView::all_equal_from(mine, theirs, 0),
            decreases left.len() - index,
        {
            proof {
                model::lemma_child_smaller(self@, index as int);
            }
            if !left[index].equals(right[index]) {
                return false;
            }
            index += 1;
        }
        true
    }
}

proof fn lemma_equal_lengths(left: Seq<RValueView>, right: Seq<RValueView>, from: int)
    requires
        left.len() != right.len(),
        0 <= from,
    ensures
        !RValueView::all_equal_from(left, right, from),
    decreases left.len() - from,
{
    if from < left.len() {
        lemma_equal_lengths(left, right, from + 1);
    }
}

impl PartialEq for RValue {
    fn eq(&self, other: &Self) -> (result: bool) {
        self.equals(other)
    }
}

impl vstd::std_specs::cmp::PartialEqSpecImpl for RValue {
    open spec fn obeys_eq_spec() -> bool {
        true
    }

    open spec fn eq_spec(&self, other: &Self) -> bool {
        self@.equals(other@)
    }
}

} // verus!
