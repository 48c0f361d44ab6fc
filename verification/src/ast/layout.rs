//! How a tree is written as source text.

use vstd::prelude::*;

use crate::ast::literal::{LiteralView, NumberView};
use crate::ast::local::{IdentifierContext, Locals, RcLocal};
use crate::ast::model;
use crate::ast::nodes::{
    AssignView, BinaryOperation, CallView, ClosureView, IndexView, LValueView, MethodCallView,
    RValueView, SelectView, StatementView, UnaryOperation,
};
use crate::ast::global::GlobalOrigin;
use crate::ast::tally;
use crate::text;

verus! {

/// Line width at which an argument list is wrapped to one argument per
/// line instead of staying on a single line. Folding merges statements
/// together, which can push an argument list that was short on its own past a
/// readable width; this is the only place that budget is enforced.
pub const COLUMN_BUDGET: usize = 120;

/// Line width at which a table constructor is broken up into one field per
/// line even though its contents would all fit on one.
///
/// A safety valve, not a layout rule. Hand-written descriptor tables really
/// are one long element per line — several hundred columns is normal for them
/// — so the width a constructor reaches is not what decides its layout. This
/// only catches a constructor no reader could follow on one line whatever it
/// holds.
pub const TABLE_COLUMN_BUDGET: usize = 500;

/// Number of consecutive declarations that have to precede a statement
/// before the run is set off from it.
///
/// Hand-written Lua keeps its declarations next to the code that uses
/// them; a blank line reads as a deliberate break, so it takes a run long
/// enough to be a preamble in its own right to earn one.
pub const DECLARATION_RUN_BREAK: usize = 3;

/// What a level of indentation is written with.
#[derive(Clone, Copy, Debug, PartialEq, Eq, Structural)]
pub enum IndentationMode {
    Spaces(u8),
    Tab,
}

impl IndentationMode {
    /// One level of indentation.
    pub open spec fn unit(self) -> Seq<char> {
        match self {
            IndentationMode::Spaces(spaces) => text::repeated(seq![' '], spaces as nat),
            IndentationMode::Tab => seq!['\t'],
        }
    }
}

/// The number of bytes of a text.
pub open spec fn byte_length(written: Seq<char>) -> nat {
    vstd::utf8::encode_utf8(written).len()
}

/// Whether a text has more than one line.
pub open spec fn breaks_line(written: Seq<char>) -> bool {
    vstd::utf8::encode_utf8(written).contains(10u8)
}

impl UnaryOperation {
    pub open spec fn text(self) -> Seq<char> {
        match self {
            UnaryOperation::Not => "not "@,
            UnaryOperation::Negate => "-"@,
            UnaryOperation::Length => "#"@,
        }
    }
}

impl RValueView {
    /// Whether this needs parentheses to be called or indexed.
    pub open spec fn wraps_left(self) -> bool {
        !(self is Local || self is Global || self is Index
            || self matches RValueView::Select(SelectView::Call(_))
            || self matches RValueView::Select(SelectView::MethodCall(_)))
    }

    /// Whether this starts with a parenthesis where it is called or indexed.
    pub open spec fn starts_with_parenthesis(self) -> bool
        decreases self,
    {
        self.wraps_left() || match self {
            RValueView::Index(index) => index.left.starts_with_parenthesis(),
            _ => false,
        }
    }

    /// Whether a parenthesis that follows this would be read as its call.
    pub open spec fn is_ambiguous(self) -> bool
        decreases self,
    {
        match self {
            RValueView::Local(_) | RValueView::Global(_) | RValueView::Index(_)
            | RValueView::Call(_) | RValueView::MethodCall(_)
            | RValueView::Select(SelectView::Call(_))
            | RValueView::Select(SelectView::MethodCall(_)) => true,
            RValueView::Binary(_, right, _) => right.is_ambiguous(),
            RValueView::Conditional(_, _, else_value) => else_value.is_ambiguous(),
            _ => false,
        }
    }

    /// Whether the operand of a unary operation needs parentheses.
    pub open spec fn unary_grouped(value: RValueView, operation: UnaryOperation) -> bool {
        value.precedence() < 7 || (operation == UnaryOperation::Negate
            && value matches RValueView::Unary(_, UnaryOperation::Negate))
    }

    /// Whether a value can share a line with the table field holding it.
    ///
    /// A closure with a body is a block of statements and brings a layout of
    /// its own; nothing else in this tree does.
    pub open spec fn stays_inline(self) -> bool
        decreases self.size(), 0int,
    {
        proof {
            model::lemma_children_smaller(self);
        }
        match self {
            RValueView::Closure(closure) => closure.function.body.len() == 0,
            _ => Self::stay_inline_from(self.children(), 0),
        }
    }

    /// Whether all the values from position `from` on can.
    pub open spec fn stay_inline_from(values: Seq<RValueView>, from: int) -> bool
        decreases Self::sizes_from(values, from), 1int,
    {
        proof {
            model::lemma_sizes_step(values, from);
        }
        if 0 <= from < values.len() {
            values[from].stays_inline() && Self::stay_inline_from(values, from + 1)
        } else {
            true
        }
    }

    /// Whether a later field of a table has the same constant key, and the
    /// value can be left out without being missed.
    pub open spec fn is_shadowed(fields: Seq<(Option<RValueView>, RValueView)>, i: int) -> bool {
        match fields[i].0 {
            Some(RValueView::Literal(literal)) => !fields[i].1.has_side_effects() && exists|j: int|
                i < j < fields.len() && Self::has_literal_key(#[trigger] fields[j], literal),
            _ => false,
        }
    }

    /// Whether a field has a constant key.
    pub open spec fn has_literal_key(
        field: (Option<RValueView>, RValueView),
        literal: LiteralView,
    ) -> bool {
        match field.0 {
            Some(RValueView::Literal(key)) => key.equals(literal),
            _ => false,
        }
    }

    /// The fields from position `from` on that no later field shadows.
    pub open spec fn unshadowed_from(
        fields: Seq<(Option<RValueView>, RValueView)>,
        from: int,
    ) -> Seq<(Option<RValueView>, RValueView)>
        decreases fields.len() - from,
    {
        if 0 <= from < fields.len() {
            if Self::is_shadowed(fields, from) {
                Self::unshadowed_from(fields, from + 1)
            } else {
                seq![fields[from]] + Self::unshadowed_from(fields, from + 1)
            }
        } else {
            Seq::empty()
        }
    }

    /// The fields that no later field shadows.
    pub open spec fn unshadowed(fields: Seq<(Option<RValueView>, RValueView)>) -> Seq<
        (Option<RValueView>, RValueView),
    > {
        Self::unshadowed_from(fields, 0)
    }

    /// Whether later fields shadow some of a table.
    pub open spec fn is_shadowing(fields: Seq<(Option<RValueView>, RValueView)>) -> bool {
        Self::unshadowed(fields).len() < fields.len()
    }

    /// Whether a key is the one that its position has without it.
    pub open spec fn is_own_key(fields: Seq<(Option<RValueView>, RValueView)>, i: int) -> bool {
        match fields[i].0 {
            None => forall|j: int| 0 <= j < i ==> (#[trigger] fields[j]).0 is None,
            Some(RValueView::Literal(LiteralView::Number(key))) => key.equals(
                NumberView::Integer(i + 1),
            ),
            Some(RValueView::Literal(LiteralView::Integer(key))) => key == i + 1,
            _ => false,
        }
    }

    /// Whether the keys of a table are exactly those of a list.
    pub open spec fn is_sequential(fields: Seq<(Option<RValueView>, RValueView)>) -> bool {
        forall|i: int| 0 <= i < fields.len() ==> #[trigger] Self::is_own_key(fields, i)
    }

    /// Whether all fields can share a line.
    pub open spec fn fields_stay_inline(fields: Seq<(Option<RValueView>, RValueView)>) -> bool {
        forall|i: int|
            0 <= i < fields.len() ==> (#[trigger] fields[i]).1.stays_inline() && match fields[i].0 {
                Some(key) => key.stays_inline(),
                None => true,
            }
    }
}

/// Fields that are left out make a table smaller.
pub proof fn lemma_unshadowed_smaller(
    fields: Seq<(Option<RValueView>, RValueView)>,
    from: int,
)
    requires
        0 <= from,
    ensures
        RValueView::field_sizes_from(RValueView::unshadowed_from(fields, from), 0)
            <= RValueView::field_sizes_from(fields, from),
    decreases fields.len() - from,
{
    if from < fields.len() {
        lemma_unshadowed_smaller(fields, from + 1);
        let rest = RValueView::unshadowed_from(fields, from + 1);
        if !RValueView::is_shadowed(fields, from) {
            lemma_field_sizes_shift(fields[from], rest, 0);
            assert((seq![fields[from]] + rest)[0] == fields[from]);
        }
    }
}

proof fn lemma_field_sizes_shift(
    field: (Option<RValueView>, RValueView),
    fields: Seq<(Option<RValueView>, RValueView)>,
    from: int,
)
    requires
        0 <= from,
    ensures
        RValueView::field_sizes_from(seq![field] + fields, from + 1)
            == RValueView::field_sizes_from(fields, from),
    decreases fields.len() - from,
{
    if from < fields.len() {
        assert((seq![field] + fields)[from + 1] == fields[from]);
        lemma_field_sizes_shift(field, fields, from + 1);
    }
}

/// A field is no larger than the fields from it on.
pub proof fn lemma_field_parts(fields: Seq<(Option<RValueView>, RValueView)>, i: int)
    ensures
        0 <= i < fields.len() ==> {
            &&& fields[i].1.size() <= RValueView::field_sizes_from(fields, i)
            &&& (match fields[i].0 {
                Some(key) => key.size() <= RValueView::field_sizes_from(fields, i),
                None => true,
            })
            &&& RValueView::field_sizes_from(fields, i + 1) < RValueView::field_sizes_from(
                fields,
                i,
            )
        },
{
    reveal(RValueView::size);
    if 0 <= i < fields.len() {
        model::lemma_sizes_step(seq![fields[i].1], 0);
        assert(RValueView::field_sizes_from(fields, i) == (match fields[i].0 {
            Some(key) => key.size(),
            None => 0,
        }) + fields[i].1.size() + RValueView::field_sizes_from(fields, i + 1));
    }
}

/// A target is no larger than the targets from it on.
pub proof fn lemma_target_parts(targets: Seq<LValueView>, i: int)
    ensures
        0 <= i < targets.len() ==> {
            &&& targets[i].size() <= LValueView::sizes_from(targets, i)
            &&& LValueView::sizes_from(targets, i + 1) <= LValueView::sizes_from(targets, i)
        },
{
    reveal(RValueView::size);
    if 0 <= i < targets.len() {
        assert(LValueView::sizes_from(targets, i) == targets[i].size() + LValueView::sizes_from(
            targets,
            i + 1,
        ));
    }
}

/// A method is no larger than the methods from it on.
pub proof fn lemma_method_parts(methods: Seq<(Seq<char>, RValueView)>, i: int)
    ensures
        0 <= i < methods.len() ==> {
            &&& methods[i].1.size() <= RValueView::method_sizes_from(methods, i)
            &&& RValueView::method_sizes_from(methods, i + 1) < RValueView::method_sizes_from(
                methods,
                i,
            )
        },
{
    if 0 <= i < methods.len() {
        model::lemma_sizes_step(seq![methods[i].1], 0);
    }
}

/// The parts of an assignment are no larger than it.
pub proof fn lemma_assign_parts(assign: AssignView)
    ensures
        assign.left.len() >= 1 ==> assign.left[0].size() <= assign.size(),
        match assign.named_closure() {
            Some(closure) => assign.left[0].size() + StatementView::sizes_from(
                closure.function.body,
                0,
            ) < assign.size(),
            None => true,
        },
        match assign.update() {
            Some((_, operand)) => assign.left[0].size() + operand.size() < assign.size(),
            None => true,
        },
{
    reveal(RValueView::size);
    lemma_target_parts(assign.left, 0);
    if assign.right.len() >= 1 {
        model::lemma_sizes_member(assign.right, 0, 0);
        match assign.right[0] {
            RValueView::Closure(closure) => {
                assert(assign.right[0].size() == 1 + StatementView::sizes_from(
                    closure.function.body,
                    0,
                ));
            },
            RValueView::Binary(left, right, _) => {
                assert(assign.right[0].size() == 1 + left.size() + right.size());
            },
            _ => {},
        }
    }
}

/// The parts of a statement are smaller than it.
pub proof fn lemma_written_parts(statement: StatementView)
    ensures
        match statement {
            StatementView::Call(call) => call.value.size() + RValueView::sizes_from(
                call.arguments,
                0,
            ) < statement.size(),
            StatementView::MethodCall(call) => call.value.size() + RValueView::sizes_from(
                call.arguments,
                0,
            ) < statement.size(),
            StatementView::Assign(assign) => assign.size() < statement.size(),
            StatementView::NumForInit(assign) => assign.size() < statement.size(),
            StatementView::GenericForInit(assign) => assign.size() < statement.size(),
            StatementView::If { condition, then_block, else_block } => condition.size()
                < statement.size() && StatementView::sizes_from(then_block, 0) < statement.size()
                && StatementView::sizes_from(else_block, 0) < statement.size(),
            StatementView::While { condition, block } => condition.size() < statement.size()
                && StatementView::sizes_from(block, 0) < statement.size(),
            StatementView::Repeat { condition, block } => condition.size() < statement.size()
                && StatementView::sizes_from(block, 0) < statement.size(),
            StatementView::NumericFor { initial, limit, step, block, .. } => initial.size()
                < statement.size() && limit.size() < statement.size() && step.size()
                < statement.size() && StatementView::sizes_from(block, 0) < statement.size(),
            StatementView::GenericFor { right, block, .. } => RValueView::sizes_from(right, 0)
                < statement.size() && StatementView::sizes_from(block, 0) < statement.size(),
            StatementView::Do(block) => StatementView::sizes_from(block, 0) < statement.size(),
            StatementView::Return(values) => RValueView::sizes_from(values, 0) < statement.size(),
            StatementView::SetList { values, tail, .. } => RValueView::sizes_from(values, 0)
                < statement.size() && match tail {
                Some(tail) => tail.size() < statement.size(),
                None => true,
            },
            StatementView::Class(class) => RValueView::method_sizes_from(class.methods, 0)
                < statement.size(),
            StatementView::NumForNext { value, limit, step, .. } => value.size() < statement.size()
                && limit.size() < statement.size() && step.size() < statement.size(),
            StatementView::GenericForNext { generator, state, .. } => generator.size()
                < statement.size() && state.size() < statement.size(),
            _ => true,
        },
{
    reveal(StatementView::size);
    reveal(RValueView::size);
    assert(statement.size() >= 1);
}

impl StatementView {
    pub open spec fn is_declaration(self) -> bool {
        self matches StatementView::Assign(assign) && assign.prefix
    }

    /// Whether a statement is a function definition with a body, i.e. renders
    /// as a `function ... end` block rather than as an expression.
    pub open spec fn defines_function(self) -> bool {
        match self {
            StatementView::Assign(assign) => assign.right.len() == 1 && (
            assign.right[0] matches RValueView::Closure(closure) && closure.function.body.len()
                > 0),
            StatementView::Class(_) => true,
            _ => false,
        }
    }

    /// Whether this declares a local without a value, and the next statement
    /// assigns a closure to it.
    pub open spec fn is_defined_by(self, next: StatementView) -> bool {
        match (self, next) {
            (StatementView::Assign(declared), StatementView::Assign(assign)) => declared.prefix
                && !assign.prefix && declared.left.len() == 1 && declared.right.len() == 1
                && assign.left.len() == 1 && assign.right.len() == 1
                && declared.left[0] is Local && declared.left[0] == assign.left[0]
                && declared.right[0] == RValueView::Literal(LiteralView::Nil)
                && assign.right[0] is Closure,
            _ => false,
        }
    }

    /// Whether a blank line belongs between two adjacent statements.
    ///
    /// Blocks and loops are *not* set off on their own. They are the most
    /// common multi-line constructs, and separating each one from its
    /// neighbours pushes blank lines to several times the density hand-written
    /// Lua uses, which reads as padding rather than as structure. A function
    /// definition is the exception: it is a top-level unit of its own
    /// wherever it appears, and source does reliably give it room. It stays with
    /// the declaration of the local that it is assigned to.
    ///
    /// `declaration_run` is the number of declarations immediately preceding
    /// `next`, so a preamble of locals can be separated from the work that
    /// uses them without splitting the preamble itself.
    pub open spec fn needs_blank(
        previous: StatementView,
        next: StatementView,
        declaration_run: nat,
    ) -> bool {
        if previous is Comment || previous is Empty || next is Comment || next is Empty {
            false
        } else if (previous.defines_function() || next.defines_function())
            && !previous.is_defined_by(next) {
            true
        } else {
            declaration_run >= DECLARATION_RUN_BREAK && !next.is_declaration()
        }
    }

    /// Whether a parenthesis that follows this would be read as its call.
    pub open spec fn ends_ambiguously(self) -> bool {
        match self {
            StatementView::Call(_) | StatementView::MethodCall(_) | StatementView::Goto(_)
            | StatementView::Continue | StatementView::Break => true,
            StatementView::Repeat { condition, .. } => condition.is_ambiguous(),
            StatementView::Assign(assign) => assign.right.len() > 0
                && assign.right.last().is_ambiguous(),
            StatementView::Return(values) => values.len() > 0 && values.last().is_ambiguous(),
            _ => false,
        }
    }

    /// Whether this starts with a parenthesis.
    pub open spec fn starts_ambiguously(self) -> bool {
        match self {
            StatementView::Assign(assign) => !assign.prefix && assign.left.len() > 0 && (
            assign.left[0] matches LValueView::Index(index)
                && index.left.starts_with_parenthesis()),
            StatementView::Call(call) => call.value.starts_with_parenthesis(),
            StatementView::MethodCall(call) => call.value.starts_with_parenthesis(),
            _ => false,
        }
    }

    /// Whether the first statement from position `from` on that is more than a
    /// comment starts with a parenthesis.
    pub open spec fn next_starts_ambiguously(block: Seq<StatementView>, from: int) -> bool
        decreases block.len() - from,
    {
        if 0 <= from < block.len() {
            if block[from] is Comment {
                Self::next_starts_ambiguously(block, from + 1)
            } else {
                block[from].starts_ambiguously()
            }
        } else {
            false
        }
    }
}

impl AssignView {
    /// Whether the closure that is assigned captures the local it is assigned
    /// to.
    pub open spec fn captures_target(self, closure: ClosureView) -> bool {
        self.prefix && (self.left[0] matches LValueView::Local(local) && exists|i: int|
            0 <= i < closure.upvalues.len() && (#[trigger] closure.upvalues[i]).captured() == local)
    }

    /// The closure that this assignment defines as a named function, where it
    /// does.
    pub open spec fn named_closure(self) -> Option<ClosureView> {
        if self.left.len() == 1 && self.right.len() == 1 {
            match self.right[0] {
                RValueView::Closure(closure) => if (closure.function.name is Some
                    || self.captures_target(closure)) && (self.prefix || self.left[0] is Global || (
                self.left[0] matches LValueView::Index(index) && index.is_path())) {
                    Some(closure)
                } else {
                    None
                },
                _ => None,
            }
        } else {
            None
        }
    }

    /// The operation and operand of an update of the one target, where this is
    /// one.
    pub open spec fn update(self) -> Option<(BinaryOperation, RValueView)> {
        if self.prefix || self.parallel || self.left.len() != 1 || self.right.len() != 1 {
            None
        } else {
            match self.right[0] {
                RValueView::Binary(left, right, operation) => if operation.updates()
                    && self.left[0].is_stable_read(*left) {
                    Some((operation, *right))
                } else {
                    None
                },
                _ => None,
            }
        }
    }
}

impl BinaryOperation {
    /// Whether there is an update assignment of this operation.
    pub open spec fn updates(self) -> bool {
        match self {
            BinaryOperation::Add | BinaryOperation::Sub | BinaryOperation::Mul
            | BinaryOperation::Div | BinaryOperation::IDiv | BinaryOperation::Mod
            | BinaryOperation::Pow | BinaryOperation::Concat => true,
            _ => false,
        }
    }
}

impl RValueView {
    /// Whether reading this twice gives the same value as reading it once.
    pub open spec fn is_stable(self) -> bool {
        self is Local || self is Literal || (self matches RValueView::Global(global)
            && global.origin == GlobalOrigin::CompilerImport)
    }
}

impl LValueView {
    /// Whether an expression reads what this target writes, and the target can
    /// be computed once for both.
    pub open spec fn is_stable_read(self, read: RValueView) -> bool {
        match (self, read) {
            (LValueView::Local(target), RValueView::Local(local)) => target == local,
            (LValueView::Index(target), RValueView::Index(index)) => target.left.equals(*index.left)
                && target.right.equals(*index.right) && target.left.is_stable()
                && target.right.is_stable(),
            _ => false,
        }
    }
}

impl IndexView {
    /// Whether this is a name, followed by names of members.
    pub open spec fn is_path(self) -> bool
        decreases self,
    {
        *self.right matches RValueView::Literal(LiteralView::String(key))
            && IdentifierContext::is_identifier(key) && match *self.left {
            RValueView::Index(index) => index.is_path(),
            RValueView::Global(_) | RValueView::Local(_) => true,
            _ => false,
        }
    }
}

/// How many of the first `count` values a generic loop is written with:
/// trailing nils are left out, the first value never.
pub open spec fn kept_values(values: Seq<RValueView>, count: int) -> int
    decreases count,
{
    if 1 < count <= values.len() && values[count - 1] == RValueView::Literal(LiteralView::Nil) {
        kept_values(values, count - 1)
    } else {
        count
    }
}

/// How code is written: with which names, and how deep it is indented.
pub struct Layout {
    pub names: Seq<Option<Seq<char>>>,
    pub mode: IndentationMode,
    pub level: usize,
}

impl Layout {
    /// One level deeper.
    pub open spec fn deeper(self) -> Layout {
        Layout { level: tally::bumped(self.level), ..self }
    }

    /// Not indented, with tabs.
    pub open spec fn plain(self) -> Layout {
        Layout { names: self.names, mode: IndentationMode::Tab, level: 0 }
    }

    /// As many tabs deep as this is columns deep.
    pub open spec fn flat(self) -> Layout {
        Layout { names: self.names, mode: IndentationMode::Tab, level: self.width() }
    }

    /// What a line starts with.
    pub open spec fn margin(self) -> Seq<char> {
        text::repeated(self.mode.unit(), self.level as nat)
    }

    /// How many columns a line is indented by, as far as that fits.
    pub open spec fn width(self) -> usize {
        match self.mode {
            IndentationMode::Tab => self.level,
            IndentationMode::Spaces(spaces) => if spaces * self.level <= usize::MAX {
                (spaces * self.level) as usize
            } else {
                usize::MAX
            },
        }
    }

    /// The names of the locals from position `from` on, with commas between.
    pub open spec fn locals_from(self, locals: Seq<RcLocal>, from: int) -> Seq<char>
        decreases locals.len() - from,
    {
        if 0 <= from < locals.len() {
            (if from > 0 {
                ", "@
            } else {
                Seq::empty()
            }) + Locals::spelling(self.names, locals[from]) + self.locals_from(locals, from + 1)
        } else {
            Seq::empty()
        }
    }

    /// The parameters of a function.
    pub open spec fn parameters(self, locals: Seq<RcLocal>, variadic: bool) -> Seq<char> {
        self.locals_from(locals, 0) + (if !variadic {
            Seq::empty()
        } else if locals.len() > 0 {
            ", ..."@
        } else {
            "..."@
        })
    }

    /// An expression.
    pub open spec fn value(self, value: RValueView) -> Seq<char>
        decreases value.size(), 0int,
    {
        proof {
            reveal(RValueView::size);
        }
        match value {
            RValueView::Local(local) => Locals::spelling(self.names, local),
            RValueView::Global(global) => global.text(),
            RValueView::VarArg | RValueView::Select(SelectView::VarArg) => "..."@,
            RValueView::Call(call) | RValueView::Select(SelectView::Call(call)) => self.call(call),
            RValueView::MethodCall(call) | RValueView::Select(SelectView::MethodCall(call)) =>
                self.method_call(call),
            RValueView::Table(fields) => {
                proof {
                    lemma_unshadowed_smaller(fields, 0);
                }
                self.table(RValueView::unshadowed(fields), RValueView::is_shadowing(fields))
            },
            RValueView::Literal(LiteralView::Number(NumberView::Infinity)) => "(1 / 0)"@,
            RValueView::Literal(LiteralView::Number(NumberView::NegativeInfinity)) => "(-1 / 0)"@,
            RValueView::Literal(LiteralView::Number(NumberView::NotANumber)) => "(0 / 0)"@,
            RValueView::Literal(literal) => literal.text(),
            RValueView::Index(index) => self.index(index),
            RValueView::Unary(operand, operation) => operation.text() + self.grouped(
                *operand,
                RValueView::unary_grouped(*operand, operation),
            ),
            RValueView::Binary(left, right, operation) => self.grouped(
                *left,
                RValueView::left_grouped(*left, operation),
            ) + " "@ + operation.text() + " "@ + self.grouped(
                *right,
                RValueView::right_grouped(*right, operation),
            ),
            RValueView::Conditional(condition, then_value, else_value) => "if "@ + self.value(
                *condition,
            ) + " then "@ + self.value(*then_value) + (if *else_value is Conditional {
                " else"@
            } else {
                " else "@
            }) + self.value(*else_value),
            RValueView::Closure(closure) => self.closure(closure),
        }
    }

    /// An expression, in parentheses where it needs them.
    pub open spec fn grouped(self, value: RValueView, group: bool) -> Seq<char>
        decreases value.size(), 1int,
    {
        if group {
            "("@ + self.value(value) + ")"@
        } else {
            self.value(value)
        }
    }

    pub open spec fn index(self, index: IndexView) -> Seq<char>
        decreases index.left.size() + index.right.size(), 2int,
    {
        self.grouped(*index.left, index.left.wraps_left()) + match *index.right {
            RValueView::Literal(LiteralView::String(field)) => if IdentifierContext::is_identifier(
                field,
            ) {
                "."@ + text::ascii_text(field)
            } else {
                "["@ + self.value(*index.right) + "]"@
            },
            _ => "["@ + self.value(*index.right) + "]"@,
        }
    }

    pub open spec fn call(self, call: CallView) -> Seq<char>
        decreases call.value.size() + RValueView::sizes_from(call.arguments, 0), 6int,
    {
        self.grouped(*call.value, call.value.wraps_left()) + "("@ + self.arguments(call.arguments)
            + ")"@
    }

    pub open spec fn method_call(self, call: MethodCallView) -> Seq<char>
        decreases call.value.size() + RValueView::sizes_from(call.arguments, 0), 6int,
    {
        self.grouped(*call.value, call.value.wraps_left()) + ":"@ + call.method + "("@
            + self.arguments(call.arguments) + ")"@
    }

    /// Whether a value takes more than one line.
    pub open spec fn takes_lines(self, value: RValueView) -> bool
        decreases value.size(), 1int,
    {
        proof {
            reveal(RValueView::size);
        }
        match value {
            RValueView::Closure(closure) => closure.function.body.len() > 0,
            RValueView::Table(fields) => {
                proof {
                    lemma_unshadowed_smaller(fields, 0);
                }
                self.breaks_up(RValueView::unshadowed(fields), RValueView::is_shadowing(fields))
            },
            _ => false,
        }
    }

    /// Whether one of the values from position `from` on takes more than one
    /// line.
    pub open spec fn take_lines_from(self, values: Seq<RValueView>, from: int) -> bool
        decreases RValueView::sizes_from(values, from), 2int,
    {
        proof {
            model::lemma_sizes_step(values, from);
        }
        if 0 <= from < values.len() {
            self.takes_lines(values[from]) || self.take_lines_from(values, from + 1)
        } else {
            false
        }
    }

    /// The bytes that the values from position `from` on take by themselves.
    pub open spec fn lengths_from(self, values: Seq<RValueView>, from: int) -> nat
        decreases RValueView::sizes_from(values, from), 2int,
    {
        proof {
            model::lemma_sizes_step(values, from);
        }
        if 0 <= from < values.len() {
            byte_length(self.plain().value(values[from])) + self.lengths_from(values, from + 1)
        } else {
            0
        }
    }

    /// The values from position `from` on, on one line with commas between.
    /// The last is closed where it could have more than one result.
    pub open spec fn inline_from(self, values: Seq<RValueView>, from: int) -> Seq<char>
        decreases RValueView::sizes_from(values, from), 2int,
    {
        proof {
            model::lemma_sizes_step(values, from);
        }
        if 0 <= from < values.len() {
            if from + 1 == values.len() {
                self.grouped(values[from], values[from] is Select)
            } else {
                self.value(values[from]) + ", "@ + self.inline_from(values, from + 1)
            }
        } else {
            Seq::empty()
        }
    }

    /// The values from position `from` on, each on a line of its own.
    pub open spec fn lines_from(self, values: Seq<RValueView>, from: int) -> Seq<char>
        decreases RValueView::sizes_from(values, from), 2int,
    {
        proof {
            model::lemma_sizes_step(values, from);
        }
        if 0 <= from < values.len() {
            let last = from + 1 == values.len();
            self.margin() + self.grouped(values[from], last && values[from] is Select) + (if last {
                "\n"@
            } else {
                ",\n"@
            }) + self.lines_from(values, from + 1)
        } else {
            Seq::empty()
        }
    }

    /// Whether arguments are written one per line.
    ///
    /// A single argument has no sibling to move off its line, and one that
    /// takes more than one line anyway is not helped by a line of its own.
    pub open spec fn wraps(self, values: Seq<RValueView>) -> bool
        decreases RValueView::sizes_from(values, 0), 3int,
    {
        &&& values.len() > 1
        &&& !self.take_lines_from(values, 0)
        &&& self.width() + self.lengths_from(values, 0) + 2 * (values.len() - 1) > COLUMN_BUDGET
        &&& self.width() + byte_length(self.inline_from(values, 0)) > COLUMN_BUDGET
    }

    pub open spec fn arguments(self, values: Seq<RValueView>) -> Seq<char>
        decreases RValueView::sizes_from(values, 0), 4int,
    {
        if self.wraps(values) {
            "\n"@ + self.deeper().lines_from(values, 0) + self.margin()
        } else {
            self.inline_from(values, 0)
        }
    }

    /// The key of a field, if it needs one written.
    ///
    /// A table whose keys are exactly `1..n` is written as an array, so its
    /// keys are left implicit.
    pub open spec fn key(self, key: Option<RValueView>, sequential: bool) -> Seq<char>
        decreases
            (match key {
                Some(key) => key.size(),
                None => 0,
            }),
            1int,
    {
        match key {
            Some(key) => if sequential {
                Seq::empty()
            } else {
                match key {
                    RValueView::Literal(LiteralView::String(field)) =>
                        if IdentifierContext::is_identifier(field) {
                        text::ascii_text(field) + " = "@
                    } else {
                        "["@ + self.value(key) + "] = "@
                    },
                    _ => "["@ + self.value(key) + "] = "@,
                }
            },
            None => Seq::empty(),
        }
    }

    /// A field of a table. The last array element is closed where it could
    /// fill the table with more than one result.
    pub open spec fn field(
        self,
        fields: Seq<(Option<RValueView>, RValueView)>,
        i: int,
        sequential: bool,
    ) -> Seq<char>
        decreases RValueView::field_sizes_from(fields, i), 2int,
    {
        proof {
            lemma_field_parts(fields, i);
        }
        if 0 <= i < fields.len() {
            let fills = i + 1 == fields.len() && (fields[i].0 is None || sequential);
            self.key(fields[i].0, sequential) + self.grouped(
                fields[i].1,
                fills && fields[i].1 is Select,
            )
        } else {
            Seq::empty()
        }
    }

    /// The fields from position `from` on, on one line.
    pub open spec fn inline_fields_from(
        self,
        fields: Seq<(Option<RValueView>, RValueView)>,
        from: int,
        sequential: bool,
    ) -> Seq<char>
        decreases RValueView::field_sizes_from(fields, from), 3int,
    {
        proof {
            lemma_field_parts(fields, from);
        }
        if 0 <= from < fields.len() {
            (if from > 0 {
                ", "@
            } else {
                Seq::empty()
            }) + self.field(fields, from, sequential) + self.inline_fields_from(
                fields,
                from + 1,
                sequential,
            )
        } else {
            Seq::empty()
        }
    }

    /// The fields from position `from` on, each on a line of its own.
    pub open spec fn field_lines_from(
        self,
        fields: Seq<(Option<RValueView>, RValueView)>,
        from: int,
        sequential: bool,
    ) -> Seq<char>
        decreases RValueView::field_sizes_from(fields, from), 3int,
    {
        proof {
            lemma_field_parts(fields, from);
        }
        if 0 <= from < fields.len() {
            self.margin() + self.field(fields, from, sequential) + (if from + 1 == fields.len() {
                "\n"@
            } else {
                ",\n"@
            }) + self.field_lines_from(fields, from + 1, sequential)
        } else {
            Seq::empty()
        }
    }

    /// A table on one line.
    pub open spec fn inline_table(self, fields: Seq<(Option<RValueView>, RValueView)>) -> Seq<char>
        decreases RValueView::field_sizes_from(fields, 0), 4int,
    {
        if fields.len() == 0 {
            "{}"@
        } else {
            "{ "@ + self.inline_fields_from(fields, 0, RValueView::is_sequential(fields)) + " }"@
        }
    }

    /// Whether a table is written with each field on a line of its own.
    ///
    /// A table earns its own lines by holding something that cannot share a
    /// line — not by having named keys, more than a handful of fields, or a
    /// nested constructor. Source writes record and descriptor literals as
    /// one element per line however wide and however deeply nested they are.
    /// A template whose fields were replaced later keeps a line for each field.
    ///
    /// What is left is decided by the inline form: whether an argument list
    /// inside it is wrapped, and how wide it is.
    pub open spec fn breaks_up(
        self,
        fields: Seq<(Option<RValueView>, RValueView)>,
        replaced: bool,
    ) -> bool
        decreases RValueView::field_sizes_from(fields, 0), 5int,
    {
        let written = self.flat().inline_table(fields);
        fields.len() > 0 && (replaced || !RValueView::fields_stay_inline(fields) || breaks_line(
            written,
        ) || self.width() + byte_length(written) > TABLE_COLUMN_BUDGET)
    }

    /// A table, without fields that are shadowed.
    pub open spec fn table(
        self,
        fields: Seq<(Option<RValueView>, RValueView)>,
        replaced: bool,
    ) -> Seq<char>
        decreases RValueView::field_sizes_from(fields, 0), 6int,
    {
        if self.breaks_up(fields, replaced) {
            "{\n"@ + self.deeper().field_lines_from(
                fields,
                0,
                RValueView::is_sequential(fields),
            ) + self.margin() + "}"@
        } else {
            self.inline_table(fields)
        }
    }

    /// The body of a function, up to its end.
    pub open spec fn body(self, body: Seq<StatementView>) -> Seq<char>
        decreases StatementView::sizes_from(body, 0), 4int,
    {
        if body.len() > 0 {
            "\n"@ + self.deeper().block(body) + "\n"@ + self.margin()
        } else {
            " "@
        }
    }

    /// The parameters and the body of a function, past the first of the
    /// parameters.
    pub open spec fn signature(self, closure: ClosureView, skip: int) -> Seq<char>
        decreases StatementView::sizes_from(closure.function.body, 0), 5int,
    {
        "("@ + self.parameters(
            if skip <= closure.function.parameters.len() {
                closure.function.parameters.skip(skip)
            } else {
                Seq::empty()
            },
            closure.function.is_variadic,
        ) + ")"@ + self.body(closure.function.body) + "end"@
    }

    pub open spec fn closure(self, closure: ClosureView) -> Seq<char>
        decreases StatementView::sizes_from(closure.function.body, 0), 6int,
    {
        "function"@ + self.signature(closure, 0)
    }

    /// The statements of a block from position `from` on, `run` declarations
    /// being right before.
    pub open spec fn block_from(self, block: Seq<StatementView>, from: int, run: nat) -> Seq<char>
        decreases StatementView::sizes_from(block, from), 2int,
    {
        proof {
            model::lemma_statement_sizes_step(block, from);
        }
        if 0 <= from < block.len() {
            (if from == 0 {
                Seq::empty()
            } else if StatementView::needs_blank(block[from - 1], block[from], run) {
                "\n\n"@
            } else {
                "\n"@
            }) + self.margin() + self.statement(block[from]) + (if block[from].ends_ambiguously()
                && StatementView::next_starts_ambiguously(block, from + 1) {
                ";"@
            } else {
                Seq::empty()
            }) + self.block_from(
                block,
                from + 1,
                if block[from].is_declaration() {
                    run + 1
                } else {
                    0
                },
            )
        } else {
            Seq::empty()
        }
    }

    pub open spec fn block(self, block: Seq<StatementView>) -> Seq<char>
        decreases StatementView::sizes_from(block, 0), 3int,
    {
        self.block_from(block, 0, 0)
    }

    /// A nested block and the line it ends with.
    pub open spec fn nested(self, block: Seq<StatementView>) -> Seq<char>
        decreases StatementView::sizes_from(block, 0), 4int,
    {
        self.deeper().block(block) + "\n"@ + self.margin()
    }

    /// The target of an assignment.
    pub open spec fn target(self, target: LValueView) -> Seq<char>
        decreases target.size(), 3int,
    {
        match target {
            LValueView::Local(local) => Locals::spelling(self.names, local),
            LValueView::Global(global) => global.text(),
            LValueView::Index(index) => self.index(index),
        }
    }

    /// The targets from position `from` on, with commas between.
    pub open spec fn targets_from(self, targets: Seq<LValueView>, from: int) -> Seq<char>
        decreases LValueView::sizes_from(targets, from), 4 + targets.len() - from,
    {
        proof {
            lemma_target_parts(targets, from);
        }
        if 0 <= from < targets.len() {
            (if from > 0 {
                ", "@
            } else {
                Seq::empty()
            }) + self.target(targets[from]) + self.targets_from(targets, from + 1)
        } else {
            Seq::empty()
        }
    }

    /// The values of an assignment from position `from` on, with commas
    /// between. The last is closed where it could give more than one of
    /// `count` targets a value.
    pub open spec fn assigned_from(self, values: Seq<RValueView>, from: int, count: int) -> Seq<
        char,
    >
        decreases RValueView::sizes_from(values, from), 2int,
    {
        proof {
            model::lemma_sizes_step(values, from);
        }
        if 0 <= from < values.len() {
            (if from > 0 {
                ", "@
            } else {
                Seq::empty()
            }) + self.grouped(
                values[from],
                from + 1 == values.len() && count - from > 1 && values[from] is Select,
            ) + self.assigned_from(values, from + 1, count)
        } else {
            Seq::empty()
        }
    }

    /// The first `count` values from position `from` on, with commas between.
    pub open spec fn values_from(self, values: Seq<RValueView>, from: int, count: int) -> Seq<char>
        decreases RValueView::sizes_from(values, from), 2int,
    {
        proof {
            model::lemma_sizes_step(values, from);
        }
        if 0 <= from < count && from < values.len() {
            (if from > 0 {
                ", "@
            } else {
                Seq::empty()
            }) + self.value(values[from]) + self.values_from(values, from + 1, count)
        } else {
            Seq::empty()
        }
    }

    /// The definition of a named function.
    pub open spec fn named_function(self, name: LValueView, closure: ClosureView) -> Seq<char>
        decreases name.size() + StatementView::sizes_from(closure.function.body, 0), 6int,
    {
        match name {
            LValueView::Index(index) => match *index.right {
                RValueView::Literal(LiteralView::String(method)) => if closure.function.is_method
                    && IdentifierContext::is_identifier(method) {
                    "function "@ + self.value(*index.left) + ":"@ + text::ascii_text(method)
                        + self.signature(closure, 1)
                } else {
                    "function "@ + self.plain().target(name) + self.signature(closure, 0)
                },
                _ => "function "@ + self.plain().target(name) + self.signature(closure, 0),
            },
            _ => "function "@ + self.plain().target(name) + self.signature(closure, 0),
        }
    }

    /// An assignment of a list of values to a list of targets.
    pub open spec fn list_assign(self, assign: AssignView) -> Seq<char>
        decreases assign.size(), 5 + assign.left.len(),
    {
        self.targets_from(assign.left, 0) + (if assign.right.len() > 0 {
            " = "@
        } else {
            Seq::empty()
        }) + self.assigned_from(assign.right, 0, assign.left.len() as int) + (if assign.parallel {
            " -- parallel"@
        } else {
            Seq::empty()
        })
    }

    /// An update of a target.
    pub open spec fn update(
        self,
        target: LValueView,
        operation: BinaryOperation,
        operand: RValueView,
    ) -> Seq<char>
        decreases target.size() + operand.size(), 4int,
    {
        self.target(target) + " "@ + operation.text() + "= "@ + self.value(operand)
    }

    /// An assignment, past the word that makes it a declaration.
    pub open spec fn bare_assign(self, assign: AssignView) -> Seq<char>
        decreases assign.size(), 9 + assign.left.len(),
    {
        proof {
            lemma_assign_parts(assign);
        }
        match assign.named_closure() {
            Some(closure) => self.named_function(assign.left[0], closure),
            None => match assign.update() {
                Some((operation, operand)) => self.update(assign.left[0], operation, operand),
                None => self.list_assign(assign),
            },
        }
    }

    pub open spec fn assign(self, assign: AssignView) -> Seq<char>
        decreases assign.size(), 10 + assign.left.len(),
    {
        if assign.prefix {
            "local "@ + self.bare_assign(assign)
        } else {
            self.bare_assign(assign)
        }
    }

    /// The properties of a class from position `from` on.
    pub open spec fn properties_from(self, properties: Seq<Seq<char>>, from: int) -> Seq<char>
        decreases properties.len() - from,
    {
        if 0 <= from < properties.len() {
            self.margin() + "public "@ + properties[from] + "\n"@ + self.properties_from(
                properties,
                from + 1,
            )
        } else {
            Seq::empty()
        }
    }

    /// A method of a class.
    pub open spec fn method(self, name: Seq<char>, value: RValueView) -> Seq<char>
        decreases value.size(), 1int,
    {
        proof {
            reveal(RValueView::size);
        }
        self.margin() + "function "@ + name + match value {
            RValueView::Closure(closure) => self.signature(closure, 0) + "\n"@,
            _ => "(...)\n"@ + self.deeper().margin() + "return "@ + self.deeper().value(value)
                + "(...)\n"@ + self.margin() + "end\n"@,
        }
    }

    /// The methods of a class from position `from` on.
    pub open spec fn methods_from(self, methods: Seq<(Seq<char>, RValueView)>, from: int) -> Seq<
        char,
    >
        decreases RValueView::method_sizes_from(methods, from), 2int,
    {
        proof {
            lemma_method_parts(methods, from);
        }
        if 0 <= from < methods.len() {
            self.method(methods[from].0, methods[from].1) + self.methods_from(methods, from + 1)
        } else {
            Seq::empty()
        }
    }

    /// What a branch is written with past its first arm.
    pub open spec fn otherwise(self, block: Seq<StatementView>) -> Seq<char>
        decreases StatementView::sizes_from(block, 0), 5int,
    {
        if block.len() == 0 {
            self.margin() + "end"@
        } else if block.len() == 1 && block[0] is If {
            proof {
                model::lemma_statement_sizes_member(block, 0, 0);
            }
            self.margin() + "else"@ + self.statement(block[0])
        } else {
            self.margin() + "else\n"@ + self.nested(block) + "end"@
        }
    }

    /// A statement, past its margin.
    pub open spec fn statement(self, statement: StatementView) -> Seq<char>
        decreases statement.size(), 1int,
    {
        proof {
            lemma_written_parts(statement);
        }
        match statement {
            StatementView::Empty => Seq::empty(),
            StatementView::Call(call) => self.call(call),
            StatementView::MethodCall(call) => self.method_call(call),
            StatementView::Assign(assign) => self.assign(assign),
            StatementView::If { condition, then_block, else_block } => "if "@ + self.value(
                condition,
            ) + " then\n"@ + (if then_block.len() > 0 {
                self.deeper().block(then_block) + "\n"@
            } else {
                Seq::empty()
            }) + self.otherwise(else_block),
            StatementView::While { condition, block } => "while "@ + self.value(condition)
                + " do\n"@ + self.nested(block) + "end"@,
            StatementView::Repeat { condition, block } => "repeat\n"@ + self.nested(block)
                + "until "@ + self.value(condition),
            StatementView::NumericFor { initial, limit, step, counter, block } => "for "@
                + Locals::spelling(self.names, counter) + " = "@ + self.value(initial) + ", "@
                + self.value(limit) + (if is_one(step) {
                Seq::empty()
            } else {
                ", "@ + self.value(step)
            }) + " do\n"@ + self.nested(block) + "end"@,
            StatementView::GenericFor { res_locals, right, block } => "for "@ + self.locals_from(
                res_locals,
                0,
            ) + " in "@ + self.values_from(right, 0, kept_values(right, right.len() as int))
                + " do\n"@ + self.nested(block) + "end"@,
            StatementView::Do(block) => "do\n"@ + self.nested(block) + "end"@,
            StatementView::Break => "break"@,
            StatementView::Continue => "continue"@,
            StatementView::Return(values) => if values.len() > 0 {
                "return "@ + self.inline_from(values, 0)
            } else {
                "return"@
            },
            StatementView::Goto(label) => "goto "@ + label,
            StatementView::Label(label) => "::"@ + label + "::"@,
            StatementView::Comment(comment) => "-- "@ + comment,
            StatementView::SetList { object_local, index, values, tail } => "__set_list("@
                + Locals::spelling(self.names, object_local) + ", "@ + text::decimal(index)
                + ", {"@ + self.values_from(values, 0, values.len() as int) + (match tail {
                Some(tail) => (if values.len() > 0 {
                    ", "@
                } else {
                    Seq::empty()
                }) + self.value(tail),
                None => Seq::empty(),
            }) + "})"@,
            StatementView::Close(locals) => "__close("@ + self.locals_from(locals, 0) + ")"@,
            StatementView::Class(class) => "class "@ + Locals::spelling(self.names, class.target)
                + "\n"@ + self.deeper().properties_from(class.properties, 0)
                + self.deeper().methods_from(class.methods, 0) + self.margin() + "end"@,
            StatementView::NumForInit(assign) => self.assign(assign),
            StatementView::NumForNext { counter, value, limit, step } => "__num_for_next("@
                + Locals::spelling(self.names, counter) + "; "@ + self.value(value) + ", "@
                + self.value(limit) + ", "@ + self.value(step) + ")"@,
            StatementView::GenericForInit(assign) => self.assign(assign),
            StatementView::GenericForNext { res_locals, generator, state } =>
                "__generic_for_next("@ + self.locals_from(res_locals, 0) + "; "@ + self.value(
                generator,
            ) + ", "@ + self.value(state) + ")"@,
        }
    }
}

/// Whether an expression is the number one.
pub open spec fn is_one(value: RValueView) -> bool {
    value matches RValueView::Literal(LiteralView::Number(number)) && number.equals(
        NumberView::Integer(1),
    )
}

} // verus!
