//! What the tree means to the passes: the parts of a node, its size, the
//! locals it reads and writes, and whether evaluating it can be observed.

use vstd::prelude::*;

use crate::ast::local::RcLocal;
use crate::ast::nodes::{
    AssignView, BinaryOperation, CallView, ClassView, IndexView, LValueView, MethodCallView,
    RValueView, SelectView, StatementView, UnaryOperation, Upvalue,
};

verus! {

impl Upvalue {
    /// The captured local.
    pub open spec fn captured(self) -> RcLocal {
        match self {
            Upvalue::Copy(local) => local,
            Upvalue::Ref(local) => local,
        }
    }
}

impl RValueView {
    /// The size of an expression: the number of nodes in it, the statements of
    /// the closures in it included.
    #[verifier::opaque]
    pub open spec fn size(self) -> nat
        decreases self, 0int,
    {
        match self {
            RValueView::Local(_) | RValueView::Global(_) | RValueView::VarArg
            | RValueView::Literal(_) => 1,
            RValueView::Call(call) => 1 + call.value.size() + Self::sizes_from(call.arguments, 0),
            RValueView::MethodCall(call) => 1 + call.value.size() + Self::sizes_from(
                call.arguments,
                0,
            ),
            RValueView::Table(fields) => 1 + Self::field_sizes_from(fields, 0),
            RValueView::Index(index) => 1 + index.left.size() + index.right.size(),
            RValueView::Unary(value, _) => 1 + value.size(),
            RValueView::Binary(left, right, _) => 1 + left.size() + right.size(),
            RValueView::Conditional(condition, then_value, else_value) => 1 + condition.size()
                + then_value.size() + else_value.size(),
            RValueView::Closure(closure) => 1 + StatementView::sizes_from(closure.function.body, 0),
            RValueView::Select(SelectView::VarArg) => 1,
            RValueView::Select(SelectView::Call(call)) => 1 + call.value.size() + Self::sizes_from(
                call.arguments,
                0,
            ),
            RValueView::Select(SelectView::MethodCall(call)) => 1 + call.value.size()
                + Self::sizes_from(call.arguments, 0),
        }
    }

    /// The total size of the expressions from position `from` on.
    pub open spec fn sizes_from(values: Seq<RValueView>, from: int) -> nat
        decreases values, values.len() - from,
    {
        if 0 <= from < values.len() {
            values[from].size() + Self::sizes_from(values, from + 1)
        } else {
            0
        }
    }

    /// The total size of a table's fields from position `from` on.
    pub open spec fn field_sizes_from(
        fields: Seq<(Option<RValueView>, RValueView)>,
        from: int,
    ) -> nat
        decreases fields, fields.len() - from,
    {
        if 0 <= from < fields.len() {
            (match fields[from].0 {
                Some(key) => key.size(),
                None => 0,
            }) + fields[from].1.size() + Self::field_sizes_from(fields, from + 1)
        } else {
            0
        }
    }

    /// The total size of a class's methods from position `from` on.
    pub open spec fn method_sizes_from(methods: Seq<(Seq<char>, RValueView)>, from: int) -> nat
        decreases methods, methods.len() - from,
    {
        if 0 <= from < methods.len() {
            methods[from].1.size() + Self::method_sizes_from(methods, from + 1)
        } else {
            0
        }
    }

    /// The keys and values of a table's fields from position `from` on.
    pub open spec fn fields_from(fields: Seq<(Option<RValueView>, RValueView)>, from: int) -> Seq<
        RValueView,
    >
        decreases fields.len() - from,
    {
        if 0 <= from < fields.len() {
            (match fields[from].0 {
                Some(key) => seq![key, fields[from].1],
                None => seq![fields[from].1],
            }) + Self::fields_from(fields, from + 1)
        } else {
            Seq::empty()
        }
    }

    /// The operands of an expression, in the order of evaluation. The body of
    /// a closure is not an operand.
    pub open spec fn children(self) -> Seq<RValueView> {
        match self {
            RValueView::Local(_) | RValueView::Global(_) | RValueView::VarArg
            | RValueView::Literal(_) | RValueView::Closure(_) => Seq::empty(),
            RValueView::Call(call) => call.operands(),
            RValueView::MethodCall(call) => call.operands(),
            RValueView::Table(fields) => Self::fields_from(fields, 0),
            RValueView::Index(index) => seq![*index.left, *index.right],
            RValueView::Unary(value, _) => seq![*value],
            RValueView::Binary(left, right, _) => seq![*left, *right],
            RValueView::Conditional(condition, then_value, else_value) => seq![
                *condition,
                *then_value,
                *else_value,
            ],
            RValueView::Select(SelectView::VarArg) => Seq::empty(),
            RValueView::Select(SelectView::Call(call)) => call.operands(),
            RValueView::Select(SelectView::MethodCall(call)) => call.operands(),
        }
    }

    /// Whether `count` operands make an expression of this kind.
    pub open spec fn takes(self, count: int) -> bool {
        match self {
            RValueView::Local(_) | RValueView::Global(_) | RValueView::VarArg
            | RValueView::Literal(_) | RValueView::Closure(_) => count == 0,
            RValueView::Call(_) | RValueView::MethodCall(_) => count >= 1,
            RValueView::Table(fields) => count == Self::fields_from(fields, 0).len(),
            RValueView::Index(_) => count == 2,
            RValueView::Unary(_, _) => count == 1,
            RValueView::Binary(_, _, _) => count == 2,
            RValueView::Conditional(_, _, _) => count == 3,
            RValueView::Select(SelectView::VarArg) => count == 0,
            RValueView::Select(_) => count >= 1,
        }
    }

    /// A table's fields from `from` on, with the operands from `at` on in
    /// place of theirs.
    pub open spec fn refilled_from(
        fields: Seq<(Option<RValueView>, RValueView)>,
        from: int,
        operands: Seq<RValueView>,
        at: int,
    ) -> Seq<(Option<RValueView>, RValueView)>
        decreases fields.len() - from,
    {
        if 0 <= from < fields.len() {
            match fields[from].0 {
                Some(_) => seq![(Some(operands[at]), operands[at + 1])] + Self::refilled_from(
                    fields,
                    from + 1,
                    operands,
                    at + 2,
                ),
                None => seq![(None, operands[at])] + Self::refilled_from(
                    fields,
                    from + 1,
                    operands,
                    at + 1,
                ),
            }
        } else {
            Seq::empty()
        }
    }

    /// This expression with other operands.
    pub open spec fn with_children(self, operands: Seq<RValueView>) -> RValueView {
        match self {
            RValueView::Local(_) | RValueView::Global(_) | RValueView::VarArg
            | RValueView::Literal(_) | RValueView::Closure(_) => self,
            RValueView::Call(call) => RValueView::Call(call.with_operands(operands)),
            RValueView::MethodCall(call) => RValueView::MethodCall(call.with_operands(operands)),
            RValueView::Table(fields) => RValueView::Table(
                Self::refilled_from(fields, 0, operands, 0),
            ),
            RValueView::Index(_) => RValueView::Index(
                IndexView { left: Box::new(operands[0]), right: Box::new(operands[1]) },
            ),
            RValueView::Unary(_, operation) => RValueView::Unary(Box::new(operands[0]), operation),
            RValueView::Binary(_, _, operation) => RValueView::Binary(
                Box::new(operands[0]),
                Box::new(operands[1]),
                operation,
            ),
            RValueView::Conditional(_, _, _) => RValueView::Conditional(
                Box::new(operands[0]),
                Box::new(operands[1]),
                Box::new(operands[2]),
            ),
            RValueView::Select(SelectView::VarArg) => self,
            RValueView::Select(SelectView::Call(call)) => RValueView::Select(
                SelectView::Call(call.with_operands(operands)),
            ),
            RValueView::Select(SelectView::MethodCall(call)) => RValueView::Select(
                SelectView::MethodCall(call.with_operands(operands)),
            ),
        }
    }

    /// The statements of a closure's body.
    pub open spec fn body(self) -> Seq<StatementView> {
        match self {
            RValueView::Closure(closure) => closure.function.body,
            _ => Seq::empty(),
        }
    }

    /// The locals that evaluating the expression reads, in order; a closure
    /// reads what it captures.
    pub open spec fn reads(self) -> Seq<RcLocal>
        decreases self.size(), 0int,
    {
        proof {
            lemma_children_smaller(self);
        }
        match self {
            RValueView::Local(local) => seq![local],
            RValueView::Closure(closure) => closure.upvalues.map_values(|u: Upvalue| u.captured()),
            _ => Self::reads_from(self.children(), 0),
        }
    }

    /// The locals that the expressions from position `from` on read.
    pub open spec fn reads_from(values: Seq<RValueView>, from: int) -> Seq<RcLocal>
        decreases Self::sizes_from(values, from), 1int,
    {
        proof {
            lemma_sizes_step(values, from);
        }
        if 0 <= from < values.len() {
            values[from].reads() + Self::reads_from(values, from + 1)
        } else {
            Seq::empty()
        }
    }

    /// Whether evaluating the expression may be observed: it may call, or it
    /// may run a metamethod.
    pub open spec fn has_side_effects(self) -> bool
        decreases self.size(), 0int,
    {
        proof {
            lemma_children_smaller(self);
        }
        match self {
            RValueView::Local(_) | RValueView::VarArg | RValueView::Literal(_)
            | RValueView::Closure(_) | RValueView::Select(SelectView::VarArg) => false,
            RValueView::Global(_) | RValueView::Call(_) | RValueView::MethodCall(_)
            | RValueView::Index(_) | RValueView::Select(_) => true,
            RValueView::Unary(_, operation) => operation != UnaryOperation::Not
                || Self::effects_from(self.children(), 0),
            RValueView::Binary(_, _, operation) => (operation != BinaryOperation::And && operation
                != BinaryOperation::Or) || Self::effects_from(self.children(), 0),
            RValueView::Table(_) | RValueView::Conditional(_, _, _) => Self::effects_from(
                self.children(),
                0,
            ),
        }
    }

    /// Whether evaluating one of the expressions from position `from` on may
    /// be observed.
    pub open spec fn effects_from(values: Seq<RValueView>, from: int) -> bool
        decreases Self::sizes_from(values, from), 1int,
    {
        proof {
            lemma_sizes_step(values, from);
        }
        if 0 <= from < values.len() {
            values[from].has_side_effects() || Self::effects_from(values, from + 1)
        } else {
            false
        }
    }
}

impl CallView {
    /// The callee and the arguments.
    pub open spec fn operands(self) -> Seq<RValueView> {
        seq![*self.value] + self.arguments
    }

    pub open spec fn with_operands(self, operands: Seq<RValueView>) -> CallView {
        CallView { value: Box::new(operands[0]), arguments: operands.skip(1) }
    }
}

impl MethodCallView {
    /// The receiver and the arguments.
    pub open spec fn operands(self) -> Seq<RValueView> {
        seq![*self.value] + self.arguments
    }

    pub open spec fn with_operands(self, operands: Seq<RValueView>) -> MethodCallView {
        MethodCallView {
            value: Box::new(operands[0]),
            method: self.method,
            arguments: operands.skip(1),
        }
    }
}

pub proof fn lemma_sizes_step(values: Seq<RValueView>, from: int)
    ensures
        0 <= from < values.len() ==> {
            &&& values[from].size() >= 1
            &&& values[from].size() <= RValueView::sizes_from(values, from)
            &&& RValueView::sizes_from(values, from + 1) < RValueView::sizes_from(values, from)
        },
{
    reveal(RValueView::size);
}

pub proof fn lemma_sizes_shift(value: RValueView, values: Seq<RValueView>, from: int)
    requires
        0 <= from,
    ensures
        RValueView::sizes_from(seq![value] + values, from + 1) == RValueView::sizes_from(
            values,
            from,
        ),
    decreases values.len() - from,
{
    if from < values.len() {
        lemma_sizes_shift(value, values, from + 1);
        assert((seq![value] + values)[from + 1] == values[from]);
    }
}

/// The size of joined lists is the sum of their sizes.
pub proof fn lemma_sizes_join(left: Seq<RValueView>, right: Seq<RValueView>)
    ensures
        RValueView::sizes_from(left + right, 0) == RValueView::sizes_from(left, 0)
            + RValueView::sizes_from(right, 0),
    decreases left.len(),
{
    if left.len() == 0 {
        assert(left + right =~= right);
    } else {
        let rest = left.skip(1);
        lemma_sizes_join(rest, right);
        assert(left =~= seq![left[0]] + rest);
        assert(left + right =~= seq![left[0]] + (rest + right));
        lemma_sizes_shift(left[0], rest, 0);
        lemma_sizes_shift(left[0], rest + right, 0);
    }
}

pub proof fn lemma_sizes_member(values: Seq<RValueView>, from: int, i: int)
    requires
        0 <= from <= i < values.len(),
    ensures
        values[i].size() <= RValueView::sizes_from(values, from),
    decreases i - from,
{
    reveal(RValueView::size);
    if from < i {
        lemma_sizes_member(values, from + 1, i);
    }
}

proof fn lemma_field_sizes(fields: Seq<(Option<RValueView>, RValueView)>, from: int)
    requires
        0 <= from,
    ensures
        RValueView::sizes_from(RValueView::fields_from(fields, from), 0)
            == RValueView::field_sizes_from(fields, from),
    decreases fields.len() - from,
{
    if from < fields.len() {
        lemma_field_sizes(fields, from + 1);
        let rest = RValueView::fields_from(fields, from + 1);
        let value = fields[from].1;
        lemma_sizes_shift(value, rest, 0);
        match fields[from].0 {
            Some(key) => {
                assert(seq![key, value] + rest =~= seq![key] + (seq![value] + rest));
                lemma_sizes_shift(key, seq![value] + rest, 0);
            },
            None => {},
        }
    }
}

/// The size of an expression is its own node, its operands and, of a closure,
/// its body.
pub proof fn lemma_size_parts(value: RValueView)
    ensures
        value.size() == 1 + RValueView::sizes_from(value.children(), 0)
            + StatementView::sizes_from(value.body(), 0),
{
    reveal(RValueView::size);
    reveal_with_fuel(RValueView::sizes_from, 4);
    match value {
        RValueView::Call(call) => lemma_sizes_shift(*call.value, call.arguments, 0),
        RValueView::MethodCall(call) => lemma_sizes_shift(*call.value, call.arguments, 0),
        RValueView::Select(SelectView::Call(call)) => lemma_sizes_shift(
            *call.value,
            call.arguments,
            0,
        ),
        RValueView::Select(SelectView::MethodCall(call)) => lemma_sizes_shift(
            *call.value,
            call.arguments,
            0,
        ),
        RValueView::Table(fields) => lemma_field_sizes(fields, 0),
        _ => {},
    }
}

pub proof fn lemma_children_smaller(value: RValueView)
    ensures
        RValueView::sizes_from(value.children(), 0) < value.size(),
        StatementView::sizes_from(value.body(), 0) < value.size(),
{
    lemma_size_parts(value);
}

pub proof fn lemma_child_smaller(value: RValueView, i: int)
    requires
        0 <= i < value.children().len(),
    ensures
        value.children()[i].size() < value.size(),
{
    lemma_size_parts(value);
    lemma_sizes_member(value.children(), 0, i);
}

impl LValueView {
    /// The operands of a target.
    pub open spec fn children(self) -> Seq<RValueView> {
        match self {
            LValueView::Local(_) | LValueView::Global(_) => Seq::empty(),
            LValueView::Index(index) => seq![*index.left, *index.right],
        }
    }

    /// The number of operands of a target.
    pub open spec fn arity(self) -> int {
        if self is Index {
            2
        } else {
            0
        }
    }

    /// The operands of the targets from position `from` on.
    pub open spec fn children_from(targets: Seq<LValueView>, from: int) -> Seq<RValueView>
        decreases targets.len() - from,
    {
        if 0 <= from < targets.len() {
            targets[from].children() + Self::children_from(targets, from + 1)
        } else {
            Seq::empty()
        }
    }

    /// The number of operands of the targets from position `from` on.
    pub open spec fn arity_from(targets: Seq<LValueView>, from: int) -> nat
        decreases targets.len() - from,
    {
        if 0 <= from < targets.len() {
            (targets[from].arity() + Self::arity_from(targets, from + 1)) as nat
        } else {
            0
        }
    }

    /// The targets from `from` on, with the operands from `at` on in place of
    /// theirs.
    pub open spec fn refilled_from(
        targets: Seq<LValueView>,
        from: int,
        operands: Seq<RValueView>,
        at: int,
    ) -> Seq<LValueView>
        decreases targets.len() - from,
    {
        if 0 <= from < targets.len() {
            let target = if targets[from] is Index {
                LValueView::Index(
                    IndexView {
                        left: Box::new(operands[at]),
                        right: Box::new(operands[at + 1]),
                    },
                )
            } else {
                targets[from]
            };
            seq![target] + Self::refilled_from(
                targets,
                from + 1,
                operands,
                at + targets[from].arity(),
            )
        } else {
            Seq::empty()
        }
    }

    /// The size of a target.
    pub open spec fn size(self) -> nat {
        match self {
            LValueView::Local(_) | LValueView::Global(_) => 0,
            LValueView::Index(index) => index.left.size() + index.right.size(),
        }
    }

    /// The total size of the targets from position `from` on.
    pub open spec fn sizes_from(targets: Seq<LValueView>, from: int) -> nat
        decreases targets, targets.len() - from,
    {
        if 0 <= from < targets.len() {
            (match targets[from] {
                LValueView::Local(_) | LValueView::Global(_) => 0,
                LValueView::Index(index) => index.left.size() + index.right.size(),
            }) + Self::sizes_from(targets, from + 1)
        } else {
            0
        }
    }

    /// The locals that storing to the target reads.
    pub open spec fn reads(self) -> Seq<RcLocal> {
        RValueView::reads_from(self.children(), 0)
    }

    /// The locals that storing to the target writes.
    pub open spec fn writes(self) -> Seq<RcLocal> {
        match self {
            LValueView::Local(local) => seq![local],
            _ => Seq::empty(),
        }
    }

    /// The locals that the targets from position `from` on read.
    pub open spec fn reads_from(targets: Seq<LValueView>, from: int) -> Seq<RcLocal>
        decreases targets.len() - from,
    {
        if 0 <= from < targets.len() {
            targets[from].reads() + Self::reads_from(targets, from + 1)
        } else {
            Seq::empty()
        }
    }

    /// The locals that the targets from position `from` on write.
    pub open spec fn writes_from(targets: Seq<LValueView>, from: int) -> Seq<RcLocal>
        decreases targets.len() - from,
    {
        if 0 <= from < targets.len() {
            targets[from].writes() + Self::writes_from(targets, from + 1)
        } else {
            Seq::empty()
        }
    }

    /// Whether storing to the target may be observed beyond the locals.
    pub open spec fn has_side_effects(self) -> bool {
        !(self is Local)
    }
}

impl AssignView {
    /// The operands of the targets, then the assigned values.
    pub open spec fn roots(self) -> Seq<RValueView> {
        LValueView::children_from(self.left, 0) + self.right
    }

    pub open spec fn with_roots(self, roots: Seq<RValueView>) -> AssignView {
        AssignView {
            left: LValueView::refilled_from(self.left, 0, roots, 0),
            right: roots.skip(LValueView::arity_from(self.left, 0) as int),
            ..self
        }
    }

    pub open spec fn size(self) -> nat {
        LValueView::sizes_from(self.left, 0) + RValueView::sizes_from(self.right, 0)
    }

    pub open spec fn reads(self) -> Seq<RcLocal> {
        LValueView::reads_from(self.left, 0) + RValueView::reads_from(self.right, 0)
    }

    pub open spec fn writes(self) -> Seq<RcLocal> {
        LValueView::writes_from(self.left, 0)
    }
}

impl ClassView {
    /// The values of the methods.
    pub open spec fn values(self) -> Seq<RValueView> {
        self.methods.map_values(|method: (Seq<char>, RValueView)| method.1)
    }

    pub open spec fn with_values(self, values: Seq<RValueView>) -> ClassView {
        ClassView {
            methods: Seq::new(self.methods.len(), |i: int| (self.methods[i].0, values[i])),
            ..self
        }
    }
}

/// An expression that may be missing, as a list.
pub open spec fn optional(value: Option<RValueView>) -> Seq<RValueView> {
    match value {
        Some(value) => seq![value],
        None => Seq::empty(),
    }
}

impl StatementView {
    /// The size of a statement, nested blocks included.
    #[verifier::opaque]
    pub open spec fn size(self) -> nat
        decreases self, 0int,
    {
        match self {
            StatementView::Empty | StatementView::Break | StatementView::Continue
            | StatementView::Goto(_) | StatementView::Label(_) | StatementView::Comment(_)
            | StatementView::Close(_) => 1,
            StatementView::Call(call) => 1 + call.value.size() + RValueView::sizes_from(
                call.arguments,
                0,
            ),
            StatementView::MethodCall(call) => 1 + call.value.size() + RValueView::sizes_from(
                call.arguments,
                0,
            ),
            StatementView::Assign(assign) | StatementView::NumForInit(assign)
            | StatementView::GenericForInit(assign) => 1 + LValueView::sizes_from(assign.left, 0)
                + RValueView::sizes_from(assign.right, 0),
            StatementView::If { condition, then_block, else_block } => 1 + condition.size()
                + Self::sizes_from(then_block, 0) + Self::sizes_from(else_block, 0),
            StatementView::While { condition, block } => 1 + condition.size() + Self::sizes_from(
                block,
                0,
            ),
            StatementView::Repeat { condition, block } => 1 + condition.size() + Self::sizes_from(
                block,
                0,
            ),
            StatementView::NumericFor { initial, limit, step, counter, block } => 1
                + initial.size() + limit.size() + step.size() + Self::sizes_from(block, 0),
            StatementView::GenericFor { res_locals, right, block } => 1 + RValueView::sizes_from(
                right,
                0,
            ) + Self::sizes_from(block, 0),
            StatementView::Do(block) => 1 + Self::sizes_from(block, 0),
            StatementView::Return(values) => 1 + RValueView::sizes_from(values, 0),
            StatementView::SetList { object_local, index, values, tail } => 1
                + RValueView::sizes_from(values, 0) + (match tail {
                Some(tail) => tail.size(),
                None => 0,
            }),
            StatementView::Class(class) => 1 + RValueView::method_sizes_from(class.methods, 0),
            StatementView::NumForNext { counter, value, limit, step } => 1 + value.size()
                + limit.size() + step.size(),
            StatementView::GenericForNext { res_locals, generator, state } => 1 + generator.size()
                + state.size(),
        }
    }

    /// The total size of the statements from position `from` on.
    pub open spec fn sizes_from(statements: Seq<StatementView>, from: int) -> nat
        decreases statements, statements.len() - from,
    {
        if 0 <= from < statements.len() {
            statements[from].size() + Self::sizes_from(statements, from + 1)
        } else {
            0
        }
    }

    /// The values that a statement computes for itself: right sides,
    /// conditions, arguments. The operands of assignment targets are not among
    /// them.
    pub open spec fn rvalues(self) -> Seq<RValueView> {
        match self {
            StatementView::Empty | StatementView::Break | StatementView::Continue
            | StatementView::Goto(_) | StatementView::Label(_) | StatementView::Comment(_)
            | StatementView::Close(_) | StatementView::Do(_) => Seq::empty(),
            StatementView::Call(call) => call.operands(),
            StatementView::MethodCall(call) => call.operands(),
            StatementView::Assign(assign) | StatementView::NumForInit(assign)
            | StatementView::GenericForInit(assign) => assign.right,
            StatementView::If { condition, .. } => seq![condition],
            StatementView::While { condition, .. } => seq![condition],
            StatementView::Repeat { condition, .. } => seq![condition],
            StatementView::NumericFor { initial, limit, step, .. } => seq![initial, limit, step],
            StatementView::GenericFor { right, .. } => right,
            StatementView::Return(values) => values,
            StatementView::SetList { values, tail, .. } => values + optional(tail),
            StatementView::Class(class) => class.values(),
            StatementView::NumForNext { value, limit, step, .. } => seq![value, limit, step],
            StatementView::GenericForNext { generator, state, .. } => seq![generator, state],
        }
    }

    /// All the expressions that stand directly in a statement: the operands of
    /// its targets, then its values.
    pub open spec fn roots(self) -> Seq<RValueView> {
        match self {
            StatementView::Assign(assign) | StatementView::NumForInit(assign)
            | StatementView::GenericForInit(assign) => assign.roots(),
            _ => self.rvalues(),
        }
    }

    /// Whether `count` expressions make a statement of this kind.
    pub open spec fn takes(self, count: int) -> bool {
        match self {
            StatementView::Call(_) | StatementView::MethodCall(_) => count >= 1,
            StatementView::Assign(assign) | StatementView::NumForInit(assign)
            | StatementView::GenericForInit(assign) => count >= LValueView::arity_from(
                assign.left,
                0,
            ),
            StatementView::If { .. } | StatementView::While { .. } | StatementView::Repeat { .. }
                => count == 1,
            StatementView::NumericFor { .. } | StatementView::NumForNext { .. } => count == 3,
            StatementView::GenericFor { .. } | StatementView::Return(_) => count >= 0,
            StatementView::SetList { tail, .. } => count >= optional(tail).len(),
            StatementView::Class(class) => count == class.methods.len(),
            StatementView::GenericForNext { .. } => count == 2,
            _ => count == 0,
        }
    }

    /// This statement with other expressions standing directly in it.
    pub open spec fn with_roots(self, roots: Seq<RValueView>) -> StatementView {
        match self {
            StatementView::Call(call) => StatementView::Call(call.with_operands(roots)),
            StatementView::MethodCall(call) => StatementView::MethodCall(
                call.with_operands(roots),
            ),
            StatementView::Assign(assign) => StatementView::Assign(assign.with_roots(roots)),
            StatementView::NumForInit(assign) => StatementView::NumForInit(
                assign.with_roots(roots),
            ),
            StatementView::GenericForInit(assign) => StatementView::GenericForInit(
                assign.with_roots(roots),
            ),
            StatementView::If { condition, then_block, else_block } => StatementView::If {
                condition: roots[0],
                then_block,
                else_block,
            },
            StatementView::While { condition, block } => StatementView::While {
                condition: roots[0],
                block,
            },
            StatementView::Repeat { condition, block } => StatementView::Repeat {
                condition: roots[0],
                block,
            },
            StatementView::NumericFor { initial, limit, step, counter, block } =>
                StatementView::NumericFor {
                initial: roots[0],
                limit: roots[1],
                step: roots[2],
                counter,
                block,
            },
            StatementView::GenericFor { res_locals, right, block } => StatementView::GenericFor {
                res_locals,
                right: roots,
                block,
            },
            StatementView::Return(_) => StatementView::Return(roots),
            StatementView::SetList { object_local, index, values, tail } =>
                StatementView::SetList {
                object_local,
                index,
                values: roots.take(roots.len() - optional(tail).len()),
                tail: match tail {
                    Some(_) => Some(roots.last()),
                    None => None,
                },
            },
            StatementView::Class(class) => StatementView::Class(class.with_values(roots)),
            StatementView::NumForNext { counter, value, limit, step } => StatementView::NumForNext {
                counter,
                value: roots[0],
                limit: roots[1],
                step: roots[2],
            },
            StatementView::GenericForNext { res_locals, generator, state } =>
                StatementView::GenericForNext {
                res_locals,
                generator: roots[0],
                state: roots[1],
            },
            _ => self,
        }
    }

    /// The blocks nested in a statement. Those of closures are not among them.
    pub open spec fn blocks(self) -> Seq<Seq<StatementView>> {
        match self {
            StatementView::If { then_block, else_block, .. } => seq![then_block, else_block],
            StatementView::While { block, .. } => seq![block],
            StatementView::Repeat { block, .. } => seq![block],
            StatementView::NumericFor { block, .. } => seq![block],
            StatementView::GenericFor { block, .. } => seq![block],
            StatementView::Do(block) => seq![block],
            _ => Seq::empty(),
        }
    }

    /// This statement with other nested blocks.
    pub open spec fn with_blocks(self, blocks: Seq<Seq<StatementView>>) -> StatementView {
        match self {
            StatementView::If { condition, then_block, else_block } => StatementView::If {
                condition,
                then_block: blocks[0],
                else_block: blocks[1],
            },
            StatementView::While { condition, block } => StatementView::While {
                condition,
                block: blocks[0],
            },
            StatementView::Repeat { condition, block } => StatementView::Repeat {
                condition,
                block: blocks[0],
            },
            StatementView::NumericFor { initial, limit, step, counter, block } =>
                StatementView::NumericFor { initial, limit, step, counter, block: blocks[0] },
            StatementView::GenericFor { res_locals, right, block } => StatementView::GenericFor {
                res_locals,
                right,
                block: blocks[0],
            },
            StatementView::Do(_) => StatementView::Do(blocks[0]),
            _ => self,
        }
    }

    /// The total size of the blocks from position `from` on.
    pub open spec fn block_sizes_from(blocks: Seq<Seq<StatementView>>, from: int) -> nat
        decreases blocks.len() - from,
    {
        if 0 <= from < blocks.len() {
            Self::sizes_from(blocks[from], 0) + Self::block_sizes_from(blocks, from + 1)
        } else {
            0
        }
    }

    /// The locals that a statement reads by itself; nested blocks read on
    /// their own account.
    pub open spec fn reads(self) -> Seq<RcLocal> {
        match self {
            StatementView::Assign(assign) | StatementView::NumForInit(assign)
            | StatementView::GenericForInit(assign) => assign.reads(),
            StatementView::SetList { object_local, .. } => seq![object_local]
                + RValueView::reads_from(self.rvalues(), 0),
            _ => RValueView::reads_from(self.rvalues(), 0),
        }
    }

    /// The locals that a statement writes by itself.
    pub open spec fn writes(self) -> Seq<RcLocal> {
        match self {
            StatementView::Assign(assign) | StatementView::NumForInit(assign)
            | StatementView::GenericForInit(assign) => assign.writes(),
            StatementView::NumericFor { counter, .. } => seq![counter],
            StatementView::GenericFor { res_locals, .. } => res_locals,
            StatementView::Class(class) => seq![class.target],
            StatementView::NumForNext { counter, .. } => seq![counter],
            StatementView::GenericForNext { res_locals, .. } => res_locals,
            _ => Seq::empty(),
        }
    }

    /// The locals that a statement reads, then those that it writes.
    pub open spec fn locals(self) -> Seq<RcLocal> {
        self.reads() + self.writes()
    }

    /// Whether one of the targets from position `from` on is more than a
    /// local.
    pub open spec fn target_effects_from(targets: Seq<LValueView>, from: int) -> bool
        decreases targets.len() - from,
    {
        if 0 <= from < targets.len() {
            targets[from].has_side_effects() || Self::target_effects_from(targets, from + 1)
        } else {
            false
        }
    }

    /// Whether running the statement may be observed beyond the locals that it
    /// writes.
    pub open spec fn has_side_effects(self) -> bool {
        match self {
            StatementView::Empty | StatementView::Comment(_) => false,
            StatementView::Assign(assign) => Self::target_effects_from(assign.left, 0)
                || RValueView::effects_from(assign.right, 0),
            _ => true,
        }
    }
}

proof fn lemma_target_sizes(targets: Seq<LValueView>, from: int)
    requires
        0 <= from,
    ensures
        RValueView::sizes_from(LValueView::children_from(targets, from), 0)
            == LValueView::sizes_from(targets, from),
        LValueView::children_from(targets, from).len() == LValueView::arity_from(targets, from),
    decreases targets.len() - from,
{
    if from < targets.len() {
        lemma_target_sizes(targets, from + 1);
        lemma_sizes_join(
            targets[from].children(),
            LValueView::children_from(targets, from + 1),
        );
        reveal_with_fuel(RValueView::sizes_from, 3);
    }
}

proof fn lemma_method_sizes(class: ClassView, from: int)
    requires
        0 <= from,
    ensures
        RValueView::sizes_from(class.values(), from) == RValueView::method_sizes_from(
            class.methods,
            from,
        ),
    decreases class.methods.len() - from,
{
    if from < class.methods.len() {
        lemma_method_sizes(class, from + 1);
    }
}

/// The number of operands of the targets is the number of places for them.
pub proof fn lemma_target_arity(targets: Seq<LValueView>, from: int)
    requires
        0 <= from,
    ensures
        LValueView::children_from(targets, from).len() == LValueView::arity_from(targets, from),
{
    lemma_target_sizes(targets, from);
}

/// The size of a statement is its own node, the expressions that stand in it
/// and its nested blocks.
pub proof fn lemma_statement_parts(statement: StatementView)
    ensures
        statement.size() == 1 + RValueView::sizes_from(statement.roots(), 0)
            + StatementView::block_sizes_from(statement.blocks(), 0),
        statement.takes(statement.roots().len() as int),
{
    reveal_with_fuel(RValueView::sizes_from, 4);
    reveal_with_fuel(StatementView::block_sizes_from, 3);
    reveal(StatementView::size);
    match statement {
        StatementView::Call(call) => lemma_sizes_shift(*call.value, call.arguments, 0),
        StatementView::MethodCall(call) => lemma_sizes_shift(*call.value, call.arguments, 0),
        StatementView::Assign(assign) | StatementView::NumForInit(assign)
        | StatementView::GenericForInit(assign) => {
            lemma_target_sizes(assign.left, 0);
            lemma_sizes_join(LValueView::children_from(assign.left, 0), assign.right);
        },
        StatementView::SetList { values, tail, .. } => {
            lemma_sizes_join(values, optional(tail));
        },
        StatementView::Class(class) => lemma_method_sizes(class, 0),
        _ => {},
    }
}

pub proof fn lemma_statement_sizes_member(statements: Seq<StatementView>, from: int, i: int)
    requires
        0 <= from <= i < statements.len(),
    ensures
        statements[i].size() <= StatementView::sizes_from(statements, from),
    decreases i - from,
{
    reveal(StatementView::size);
    if from < i {
        lemma_statement_sizes_member(statements, from + 1, i);
    }
}

pub proof fn lemma_block_sizes_member(blocks: Seq<Seq<StatementView>>, from: int, i: int)
    requires
        0 <= from <= i < blocks.len(),
    ensures
        StatementView::sizes_from(blocks[i], 0) <= StatementView::block_sizes_from(blocks, from),
    decreases i - from,
{
    if from < i {
        lemma_block_sizes_member(blocks, from + 1, i);
    }
}

pub proof fn lemma_statement_sizes_step(statements: Seq<StatementView>, from: int)
    ensures
        0 <= from < statements.len() ==> {
            &&& statements[from].size() >= 1
            &&& statements[from].size() <= StatementView::sizes_from(statements, from)
            &&& StatementView::sizes_from(statements, from + 1) < StatementView::sizes_from(
                statements,
                from,
            )
        },
{
    reveal(StatementView::size);
}

/// The blocks of a statement are smaller than it.
pub proof fn lemma_nested_smaller(statement: StatementView)
    ensures
        forall|i: int|
            0 <= i < statement.blocks().len() ==> StatementView::sizes_from(
                #[trigger] statement.blocks()[i],
                0,
            ) < statement.size(),
        RValueView::sizes_from(statement.roots(), 0) < statement.size(),
{
    lemma_statement_parts(statement);
    assert forall|i: int| 0 <= i < statement.blocks().len() implies StatementView::sizes_from(
        #[trigger] statement.blocks()[i],
        0,
    ) < statement.size() by {
        lemma_block_sizes_member(statement.blocks(), 0, i);
    }
}

/// The size of two lists of statements together.
pub proof fn lemma_statement_sizes_join(left: Seq<StatementView>, right: Seq<StatementView>)
    ensures
        StatementView::sizes_from(left + right, 0) == StatementView::sizes_from(left, 0)
            + StatementView::sizes_from(right, 0),
    decreases left.len(),
{
    if left.len() == 0 {
        assert(left + right =~= right);
    } else {
        let rest = left.skip(1);
        lemma_statement_sizes_join(rest, right);
        lemma_statement_sizes_skip(left, 0);
        lemma_statement_sizes_skip(left + right, 0);
        assert((left + right).skip(1) =~= rest + right);
        assert((left + right)[0] == left[0]);
    }
}

proof fn lemma_statement_sizes_shift(statements: Seq<StatementView>, by: int, from: int)
    requires
        0 <= by <= statements.len(),
        0 <= from,
    ensures
        StatementView::sizes_from(statements, by + from) == StatementView::sizes_from(
            statements.skip(by),
            from,
        ),
    decreases statements.len() - from,
{
    lemma_statement_sizes_step(statements, by + from);
    lemma_statement_sizes_step(statements.skip(by), from);
    if by + from < statements.len() {
        lemma_statement_sizes_shift(statements, by, from + 1);
        assert(statements.skip(by)[from] == statements[by + from]);
    }
}

/// The size of a list of statements is that of its first and of the rest.
pub proof fn lemma_statement_sizes_skip(statements: Seq<StatementView>, from: int)
    requires
        0 <= from < statements.len(),
    ensures
        StatementView::sizes_from(statements, from) == statements[from].size()
            + StatementView::sizes_from(statements.skip(from + 1), 0),
{
    reveal(StatementView::size);
    lemma_statement_sizes_shift(statements, from + 1, 0);
    assert(StatementView::sizes_from(statements, from) == statements[from].size()
        + StatementView::sizes_from(statements, from + 1));
}

/// The values that a statement computes for itself are smaller than it.
pub proof fn lemma_rvalues_smaller(statement: StatementView)
    ensures
        RValueView::sizes_from(statement.rvalues(), 0) < statement.size(),
{
    lemma_statement_parts(statement);
    match statement {
        StatementView::Assign(assign) | StatementView::NumForInit(assign)
        | StatementView::GenericForInit(assign) => {
            lemma_sizes_join(LValueView::children_from(assign.left, 0), assign.right);
        },
        _ => {},
    }
}

} // verus!
