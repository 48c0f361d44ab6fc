//! What the code around a local says about a fitting name for it.

use vstd::prelude::*;

use rustc_hash::{FxHashMap, FxHashSet};

use crate::ast::global::GlobalOrigin;
use crate::ast::literal::{Literal, LiteralView};
use crate::ast::local::{is_valid_identifier, IdentifierContext, RcLocal};
use crate::ast::local_rw::LocalRw;
use crate::ast::nodes::{
    Assign, AssignView, BinaryOperation, Block, Call, CallView, GenericFor, LValue, LValueView,
    RValue, RValueView, Select, SelectView, Statement, StatementView, UnaryOperation,
};
use crate::ast::tally::bump;
use crate::ast::{model, nodes, tally};
use crate::collections::{empty_map, has_member, insert_entry, remove_entry};
use crate::text::{push_ascii, same_text, spells};

verus! {

broadcast use nodes::group_views;

/// What a local is for, as far as its uses tell.
#[derive(Debug, Clone, Copy, PartialEq, Eq, Structural)]
pub enum Role {
    Callback,
    Callbacks,
    Entry,
    Index,
    Key,
    Outcome,
    Value,
}

impl Role {
    /// The name a role gives.
    pub open spec fn text(self) -> Seq<char> {
        match self {
            Role::Callback => "callback"@,
            Role::Callbacks => "callbacks"@,
            Role::Entry => "entry"@,
            Role::Index => "index"@,
            Role::Key => "key"@,
            Role::Outcome => "result"@,
            Role::Value => "value"@,
        }
    }

    pub fn label(self) -> (label: &'static str)
        ensures
            label@ == self.text(),
    {
        match self {
            Role::Callback => "callback",
            Role::Callbacks => "callbacks",
            Role::Entry => "entry",
            Role::Index => "index",
            Role::Key => "key",
            Role::Outcome => "result",
            Role::Value => "value",
        }
    }
}

/// What a local holds, as far as its initializer tells.
#[derive(Debug, Clone, Copy, PartialEq, Eq, Structural)]
pub enum Shape {
    Count,
    Handler,
    Object,
    Outcome,
    Packed,
    Record,
    Registers,
    Slots,
    Success,
    Text,
    Thread,
    Timestamp,
    Value,
}

impl Shape {
    /// The name a shape gives.
    pub open spec fn text(self) -> Seq<char> {
        match self {
            Shape::Count => "count"@,
            Shape::Handler => "handler"@,
            Shape::Object => "object"@,
            Shape::Outcome => "result"@,
            Shape::Packed => "packed"@,
            Shape::Record => "record"@,
            Shape::Registers => "registers"@,
            Shape::Slots => "slots"@,
            Shape::Success => "ok"@,
            Shape::Text => "text"@,
            Shape::Thread => "thread"@,
            Shape::Timestamp => "timestamp"@,
            Shape::Value => "value"@,
        }
    }

    pub fn label(self) -> (label: &'static str)
        ensures
            label@ == self.text(),
    {
        match self {
            Shape::Count => "count",
            Shape::Handler => "handler",
            Shape::Object => "object",
            Shape::Outcome => "result",
            Shape::Packed => "packed",
            Shape::Record => "record",
            Shape::Registers => "registers",
            Shape::Slots => "slots",
            Shape::Success => "ok",
            Shape::Text => "text",
            Shape::Thread => "thread",
            Shape::Timestamp => "timestamp",
            Shape::Value => "value",
        }
    }
}

/// What the members of a library namespace return, where the call alone fixes
/// the meaning of the result. A name that asserts something false about the
/// code is worse than a generic one, so only certain ones are here:
/// `table.create` makes slots and no buffer, since `buffer` is a type of its
/// own, and `os.clock` gives a timestamp and no start, since it is read at the
/// end of a measurement just as often.
pub open spec fn library_result(space: Seq<char>, member: Seq<char>) -> Option<Shape> {
    if space == "table"@ && member == "pack"@ {
        Some(Shape::Packed)
    } else if space == "table"@ && member == "create"@ {
        Some(Shape::Slots)
    } else if space == "table"@ && member == "concat"@ {
        Some(Shape::Text)
    } else if space == "string"@ && member == "format"@ {
        Some(Shape::Text)
    } else if space == "string"@ && member == "rep"@ {
        Some(Shape::Text)
    } else if space == "coroutine"@ && member == "create"@ {
        Some(Shape::Thread)
    } else if space == "os"@ && member == "clock"@ {
        Some(Shape::Timestamp)
    } else {
        None
    }
}

/// What a call returns, where the library function that it calls by name tells.
/// The global's name alone decides, not its origin.
pub open spec fn call_result(call: CallView) -> Option<Shape> {
    match *call.value {
        RValueView::Index(index) => match (*index.left, *index.right) {
            (
                RValueView::Global(namespace),
                RValueView::Literal(LiteralView::String(member)),
            ) => library_result(
                crate::text::ascii_text(namespace.name),
                crate::text::ascii_text(member),
            ),
            _ => None,
        },
        RValueView::Global(global) => if crate::text::ascii_text(global.name) == "setmetatable"@ {
            Some(Shape::Object)
        } else if crate::text::ascii_text(global.name) == "pcall"@ {
            Some(Shape::Success)
        } else {
            None
        },
        _ => None,
    }
}

/// Arithmetic operators plain enough that, on their own with no length
/// operand, they say no more than the counter they would otherwise be named
/// with.
pub open spec fn is_plain_arithmetic(operation: BinaryOperation) -> bool {
    operation is Add || operation is Sub || operation is Mul || operation is Div || operation is Mod
        || operation is Pow || operation is IDiv
}

/// Whether a value is a bare `#x`, or arithmetic combining one, such as
/// `#offsets - 1`.
pub open spec fn is_count(value: RValueView) -> bool
    decreases value,
{
    match value {
        RValueView::Unary(_, operation) => operation is Length,
        RValueView::Binary(left, right, operation) => is_plain_arithmetic(operation) && (is_count(
            *left,
        ) || is_count(*right)),
        _ => false,
    }
}

/// Whether a table key is a string literal.
pub open spec fn is_named_key(key: Option<RValueView>) -> bool {
    match key {
        Some(RValueView::Literal(LiteralView::String(_))) => true,
        _ => false,
    }
}

/// The shape of an initializer. A number, a boolean or nil says no more than
/// its own text does, and arithmetic without a length is neither a count nor
/// just any value, so these have none.
pub open spec fn initializer_shape(value: RValueView) -> Option<Shape> {
    match value {
        RValueView::Closure(_) => Some(Shape::Handler),
        RValueView::Literal(LiteralView::String(_)) => Some(Shape::Text),
        RValueView::Literal(_) => None,
        RValueView::Unary(_, operation) => if operation is Length {
            Some(Shape::Count)
        } else {
            Some(Shape::Value)
        },
        RValueView::Binary(_, _, operation) => if operation is Concat {
            Some(Shape::Text)
        } else if is_count(value) {
            Some(Shape::Count)
        } else if is_plain_arithmetic(operation) {
            None
        } else {
            Some(Shape::Value)
        },
        RValueView::Table(fields) => if fields.len() > 0 && (forall|i: int|
            0 <= i < fields.len() ==> is_named_key((#[trigger] fields[i]).0)) {
            Some(Shape::Record)
        } else {
            Some(Shape::Slots)
        },
        RValueView::Call(call) => match call_result(call) {
            Some(shape) => Some(shape),
            None => Some(Shape::Outcome),
        },
        RValueView::Select(SelectView::Call(call)) => match call_result(call) {
            Some(shape) => Some(shape),
            None => Some(Shape::Outcome),
        },
        RValueView::MethodCall(_) => Some(Shape::Outcome),
        _ => Some(Shape::Value),
    }
}

/// Whether a value is looked up in a table, on one of its branches.
pub open spec fn is_callback_source(value: RValueView) -> bool
    decreases value,
{
    match value {
        RValueView::Index(_) => true,
        RValueView::Binary(left, right, operation) => (operation is And || operation is Or) && (
        is_callback_source(*left) || is_callback_source(*right)),
        RValueView::Conditional(_, then_value, else_value) => is_callback_source(*then_value)
            || is_callback_source(*else_value),
        _ => false,
    }
}

/// One thing that the code says about a local.
#[derive(Debug)]
pub enum Clue {
    /// The local is read.
    Read,
    /// The local is called.
    Called,
    /// The local plays a role.
    Plays(Role),
    /// The local starts as a table.
    StartsAsTable,
    /// The local starts as something looked up in a table.
    StartsLookedUp,
    /// The local starts as a value of a shape.
    StartsShaped(Shape),
    /// The local is returned.
    Returned,
    /// The local is written through a computed index, in a loop or not.
    ComputedWrite(bool),
    /// The local is written through a string literal.
    ConstantWrite,
    /// The local is given a closure under a key that is no string literal.
    CallbackField,
    /// The local is a result of a generic loop.
    LoopResult,
    /// The local is stored in a field of that name.
    Field(String),
    /// The definition of the local gives its name.
    Defined(String),
}

/// The model of a `Clue`.
pub enum ClueView {
    Read,
    Called,
    Plays(Role),
    StartsAsTable,
    StartsLookedUp,
    StartsShaped(Shape),
    Returned,
    ComputedWrite(bool),
    ConstantWrite,
    CallbackField,
    LoopResult,
    Field(Seq<char>),
    Defined(Seq<char>),
}

impl Clue {
    pub open spec fn view(&self) -> ClueView {
        match self {
            Clue::Read => ClueView::Read,
            Clue::Called => ClueView::Called,
            Clue::Plays(role) => ClueView::Plays(*role),
            Clue::StartsAsTable => ClueView::StartsAsTable,
            Clue::StartsLookedUp => ClueView::StartsLookedUp,
            Clue::StartsShaped(shape) => ClueView::StartsShaped(*shape),
            Clue::Returned => ClueView::Returned,
            Clue::ComputedWrite(looped) => ClueView::ComputedWrite(*looped),
            Clue::ConstantWrite => ClueView::ConstantWrite,
            Clue::CallbackField => ClueView::CallbackField,
            Clue::LoopResult => ClueView::LoopResult,
            Clue::Field(name) => ClueView::Field(name@),
            Clue::Defined(name) => ClueView::Defined(name@),
        }
    }

    /// The models of a list of clues.
    pub open spec fn views(clues: Seq<(RcLocal, Clue)>) -> Seq<(RcLocal, ClueView)> {
        Seq::new(clues.len(), |i: int| (clues[i].0, clues[i].1@))
    }
}

/// That each of some locals is read.
pub open spec fn read_clues(locals: Seq<RcLocal>) -> Seq<(RcLocal, ClueView)> {
    Seq::new(locals.len(), |i: int| (locals[i], ClueView::Read))
}

/// That each of some locals is a result of a generic loop.
pub open spec fn result_clues(locals: Seq<RcLocal>) -> Seq<(RcLocal, ClueView)> {
    Seq::new(locals.len(), |i: int| (locals[i], ClueView::LoopResult))
}

/// What a call says about what it calls.
pub open spec fn call_clues(call: CallView, parameters: Set<u64>) -> Seq<(RcLocal, ClueView)> {
    match *call.value {
        RValueView::Local(local) => if parameters.contains(local.id) {
            seq![(local, ClueView::Called), (local, ClueView::Plays(Role::Callback))]
        } else {
            seq![(local, ClueView::Called)]
        },
        _ => Seq::empty(),
    }
}

/// What the fields of a table from position `from` on say about the locals in
/// them.
pub open spec fn field_clues_from(
    fields: Seq<(Option<RValueView>, RValueView)>,
    from: int,
) -> Seq<(RcLocal, ClueView)>
    decreases fields.len() - from,
{
    if 0 <= from < fields.len() {
        field_clues(fields[from]) + field_clues_from(fields, from + 1)
    } else {
        Seq::empty()
    }
}

/// What a field of a table says about the local in it.
pub open spec fn field_clues(field: (Option<RValueView>, RValueView)) -> Seq<(RcLocal, ClueView)> {
    match field {
        (
            Some(RValueView::Literal(LiteralView::String(name))),
            RValueView::Local(local),
        ) => if IdentifierContext::is_identifier(name) {
            seq![(local, ClueView::Field(crate::text::ascii_text(name)))]
        } else {
            Seq::empty()
        },
        _ => Seq::empty(),
    }
}

/// What the values from position `from` on say about the locals returned.
pub open spec fn return_clues_from(values: Seq<RValueView>, from: int) -> Seq<(RcLocal, ClueView)>
    decreases values.len() - from,
{
    if 0 <= from < values.len() {
        let first: Seq<(RcLocal, ClueView)> = match values[from] {
            RValueView::Local(local) => seq![(local, ClueView::Returned)],
            _ => Seq::empty(),
        };
        first + return_clues_from(values, from + 1)
    } else {
        Seq::empty()
    }
}

/// What its initializer says about a local.
pub open spec fn initializer_clues(local: RcLocal, value: RValueView) -> Seq<(RcLocal, ClueView)> {
    let table: Seq<(RcLocal, ClueView)> = if value is Table {
        seq![(local, ClueView::StartsAsTable)]
    } else {
        Seq::empty()
    };
    let source: Seq<(RcLocal, ClueView)> = if is_callback_source(value) {
        seq![(local, ClueView::StartsLookedUp)]
    } else {
        Seq::empty()
    };
    let name: Seq<(RcLocal, ClueView)> = match function_name(value) {
        Some(name) => seq![(local, ClueView::Defined(name))],
        None => Seq::empty(),
    };
    let shape: Seq<(RcLocal, ClueView)> = match initializer_shape(value) {
        Some(shape) => seq![(local, ClueView::StartsShaped(shape))],
        None => Seq::empty(),
    };
    table + source + name + shape
}

/// The name that a function was defined under, where a local can have it.
pub open spec fn function_name(value: RValueView) -> Option<Seq<char>> {
    match value {
        RValueView::Closure(closure) => match closure.function.name {
            Some(name) => if IdentifierContext::is_identifier(vstd::utf8::encode_utf8(name)) {
                Some(name)
            } else {
                None
            },
            None => None,
        },
        _ => None,
    }
}

/// What a write through an index says about the container. A positional
/// literal key asserts neither an array nor fixed fields.
pub open spec fn container_clues(
    container: RcLocal,
    key: RValueView,
    value: Option<RValueView>,
    looped: bool,
) -> Seq<(RcLocal, ClueView)> {
    let write: Seq<(RcLocal, ClueView)> = match key {
        RValueView::Literal(LiteralView::String(_)) => seq![(container, ClueView::ConstantWrite)],
        RValueView::Literal(_) => Seq::empty(),
        _ => seq![(container, ClueView::ComputedWrite(looped))],
    };
    if !is_named_key(Some(key)) && value is Some && value->0 is Closure {
        write.push((container, ClueView::CallbackField))
    } else {
        write
    }
}

/// What an assignment says about its target.
pub open spec fn assign_clues(assign: AssignView, looped: bool) -> Seq<(RcLocal, ClueView)> {
    if assign.left.len() == 1 {
        match assign.left[0] {
            LValueView::Local(local) => if assign.prefix && assign.right.len() == 1 {
                initializer_clues(local, assign.right[0])
            } else {
                Seq::empty()
            },
            LValueView::Index(index) => match *index.left {
                RValueView::Local(container) => container_clues(
                    container,
                    *index.right,
                    if assign.right.len() == 1 {
                        Some(assign.right[0])
                    } else {
                        None
                    },
                    looped,
                ),
                _ => Seq::empty(),
            },
            _ => Seq::empty(),
        }
    } else {
        Seq::empty()
    }
}

/// The name of the compiler-resolved global that makes the iterator of a
/// generic loop.
pub open spec fn iterator_name(right: Seq<RValueView>) -> Option<Seq<char>> {
    if right.len() > 0 {
        match right[0] {
            RValueView::Call(call) => imported_name(*call.value),
            RValueView::Select(SelectView::Call(call)) => imported_name(*call.value),
            _ => None,
        }
    } else {
        None
    }
}

/// The name of a compiler-resolved global.
pub open spec fn imported_name(value: RValueView) -> Option<Seq<char>> {
    match value {
        RValueView::Global(global) => if global.origin is CompilerImport {
            Some(crate::text::ascii_text(global.name))
        } else {
            None
        },
        _ => None,
    }
}

/// What a generic loop says about its results.
pub open spec fn loop_clues(res_locals: Seq<RcLocal>, right: Seq<RValueView>) -> Seq<
    (RcLocal, ClueView),
> {
    if res_locals.len() >= 2 && iterator_name(right) == Some("pairs"@) {
        seq![
            (res_locals[0], ClueView::Plays(Role::Key)),
            (res_locals[1], ClueView::Plays(Role::Value)),
            (res_locals[1], ClueView::LoopResult),
        ]
    } else if res_locals.len() >= 2 && iterator_name(right) == Some("ipairs"@) {
        seq![
            (res_locals[0], ClueView::Plays(Role::Index)),
            (res_locals[1], ClueView::Plays(Role::Entry)),
            (res_locals[1], ClueView::LoopResult),
        ]
    } else {
        result_clues(res_locals)
    }
}

impl RValueView {
    /// What the head of an expression says about locals.
    pub open spec fn own_clues(self, parameters: Set<u64>) -> Seq<(RcLocal, ClueView)> {
        match self {
            RValueView::Call(call) => call_clues(call, parameters),
            RValueView::Select(SelectView::Call(call)) => call_clues(call, parameters),
            RValueView::Table(fields) => field_clues_from(fields, 0),
            _ => Seq::empty(),
        }
    }

    /// What an expression says about locals.
    pub open spec fn clues(self, parameters: Set<u64>) -> Seq<(RcLocal, ClueView)>
        decreases self.size(), 0int,
    {
        proof {
            model::lemma_children_smaller(self);
        }
        self.own_clues(parameters) + Self::clues_from(self.children(), 0, parameters)
    }

    /// What the expressions from position `from` on say about locals.
    pub open spec fn clues_from(values: Seq<RValueView>, from: int, parameters: Set<u64>) -> Seq<
        (RcLocal, ClueView),
    >
        decreases Self::sizes_from(values, from), 1int,
    {
        proof {
            model::lemma_sizes_step(values, from);
        }
        if 0 <= from < values.len() {
            values[from].clues(parameters) + Self::clues_from(values, from + 1, parameters)
        } else {
            Seq::empty()
        }
    }
}

impl StatementView {
    /// What the head of a statement says about locals.
    pub open spec fn own_clues(self, parameters: Set<u64>, looped: bool) -> Seq<
        (RcLocal, ClueView),
    > {
        match self {
            StatementView::Call(call) => call_clues(call, parameters),
            StatementView::Assign(assign) => assign_clues(assign, looped),
            StatementView::Class(class) => if IdentifierContext::is_identifier(
                vstd::utf8::encode_utf8(class.source_name),
            ) {
                seq![(class.target, ClueView::Defined(class.source_name))]
            } else {
                Seq::empty()
            },
            StatementView::Return(values) => return_clues_from(values, 0),
            StatementView::NumericFor { counter, .. } => seq![
                (counter, ClueView::Plays(Role::Index)),
            ],
            StatementView::GenericFor { res_locals, right, .. } => loop_clues(res_locals, right),
            _ => Seq::empty(),
        }
    }

    /// What a statement says about locals, outside of the blocks nested in it.
    pub open spec fn line_clues(self, parameters: Set<u64>, looped: bool) -> Seq<
        (RcLocal, ClueView),
    > {
        read_clues(self.reads()) + RValueView::clues_from(self.rvalues(), 0, parameters)
            + self.own_clues(parameters, looped)
    }

    /// What a statement says about locals. `looped` tells whether it stands in
    /// a loop.
    pub open spec fn clues(self, parameters: Set<u64>, looped: bool) -> Seq<(RcLocal, ClueView)>
        decreases self.size(), 0int, 0int,
    {
        proof {
            model::lemma_statement_parts(self);
        }
        if self is Do {
            self.line_clues(parameters, looped)
        } else {
            self.line_clues(parameters, looped) + Self::block_clues(
                self.blocks(),
                0,
                parameters,
                looped || self.is_loop(),
            )
        }
    }

    /// What the blocks from position `from` on say about locals.
    pub open spec fn block_clues(
        blocks: Seq<Seq<StatementView>>,
        from: int,
        parameters: Set<u64>,
        looped: bool,
    ) -> Seq<(RcLocal, ClueView)>
        decreases Self::block_sizes_from(blocks, from), 2int, blocks.len() - from,
    {
        if 0 <= from < blocks.len() {
            Self::clues_from(blocks[from], 0, parameters, looped) + Self::block_clues(
                blocks,
                from + 1,
                parameters,
                looped,
            )
        } else {
            Seq::empty()
        }
    }

    /// What the statements from position `from` on say about locals.
    pub open spec fn clues_from(
        statements: Seq<StatementView>,
        from: int,
        parameters: Set<u64>,
        looped: bool,
    ) -> Seq<(RcLocal, ClueView)>
        decreases Self::sizes_from(statements, from), 1int, 0int,
    {
        proof {
            model::lemma_statement_sizes_step(statements, from);
        }
        if 0 <= from < statements.len() {
            statements[from].clues(parameters, looped) + Self::clues_from(
                statements,
                from + 1,
                parameters,
                looped,
            )
        } else {
            Seq::empty()
        }
    }
}

/// What clues of one kind agree on.
#[derive(Debug)]
pub enum Agreement<T> {
    Nothing,
    Single(T),
    Several,
}

impl<T> Agreement<T> {
    /// What they agree on when `item` is added.
    pub open spec fn with(self, item: T) -> Agreement<T> {
        match self {
            Agreement::Nothing => Agreement::Single(item),
            Agreement::Single(other) => if other == item {
                self
            } else {
                Agreement::Several
            },
            Agreement::Several => self,
        }
    }

    pub open spec fn only(self) -> Option<T> {
        match self {
            Agreement::Single(item) => Some(item),
            _ => None,
        }
    }
}

/// What the clues on a local come to.
#[derive(Debug)]
pub struct Evidence {
    pub read: bool,
    pub called: bool,
    pub roles: Agreement<Role>,
    pub starts_as_table: bool,
    pub starts_looked_up: bool,
    pub shape: Option<Shape>,
    pub returned: bool,
    pub computed_write: bool,
    pub computed_write_in_loop: bool,
    pub constant_write: bool,
    pub callback_fields: usize,
    pub loop_result: bool,
    pub fields: Agreement<String>,
    pub defined: Option<String>,
}

/// The model of `Evidence`.
pub struct EvidenceView {
    pub read: bool,
    pub called: bool,
    pub roles: Agreement<Role>,
    pub starts_as_table: bool,
    pub starts_looked_up: bool,
    pub shape: Option<Shape>,
    pub returned: bool,
    pub computed_write: bool,
    pub computed_write_in_loop: bool,
    pub constant_write: bool,
    pub callback_fields: usize,
    pub loop_result: bool,
    pub fields: Agreement<Seq<char>>,
    pub defined: Option<Seq<char>>,
}

impl EvidenceView {
    /// What no clues come to.
    pub open spec fn none() -> EvidenceView {
        EvidenceView {
            read: false,
            called: false,
            roles: Agreement::Nothing,
            starts_as_table: false,
            starts_looked_up: false,
            shape: None,
            returned: false,
            computed_write: false,
            computed_write_in_loop: false,
            constant_write: false,
            callback_fields: 0,
            loop_result: false,
            fields: Agreement::Nothing,
            defined: None,
        }
    }

    /// What it comes to with one more clue: the last shape stands, the first
    /// definition stands, and roles and fields stand while they agree.
    pub open spec fn with(self, clue: ClueView) -> EvidenceView {
        match clue {
            ClueView::Read => EvidenceView { read: true, ..self },
            ClueView::Called => EvidenceView { called: true, ..self },
            ClueView::Plays(role) => EvidenceView { roles: self.roles.with(role), ..self },
            ClueView::StartsAsTable => EvidenceView { starts_as_table: true, ..self },
            ClueView::StartsLookedUp => EvidenceView { starts_looked_up: true, ..self },
            ClueView::StartsShaped(shape) => EvidenceView { shape: Some(shape), ..self },
            ClueView::Returned => EvidenceView { returned: true, ..self },
            ClueView::ComputedWrite(looped) => EvidenceView {
                computed_write: true,
                computed_write_in_loop: self.computed_write_in_loop || looped,
                ..self
            },
            ClueView::ConstantWrite => EvidenceView { constant_write: true, ..self },
            ClueView::CallbackField => EvidenceView {
                callback_fields: tally::bumped(self.callback_fields),
                ..self
            },
            ClueView::LoopResult => EvidenceView { loop_result: true, ..self },
            ClueView::Field(name) => EvidenceView { fields: self.fields.with(name), ..self },
            ClueView::Defined(name) => EvidenceView {
                defined: if self.defined is Some {
                    self.defined
                } else {
                    Some(name)
                },
                ..self
            },
        }
    }

    /// The role that the evidence leaves: also a table that is only filled on
    /// the spot and returned is a result, what holds several closures under
    /// computed keys holds callbacks, and what was looked up and is called is
    /// a callback, as is any loop result that is called.
    pub open spec fn role(self) -> Option<Role> {
        let filled = if self.starts_as_table && self.returned && !self.computed_write
            && !self.constant_write {
            self.roles.with(Role::Outcome)
        } else {
            self.roles
        };
        let holding = if self.callback_fields >= 2 {
            filled.with(Role::Callbacks)
        } else {
            filled
        };
        let called = if self.starts_looked_up && self.called {
            holding.with(Role::Callback)
        } else {
            holding
        };
        if self.loop_result && self.called {
            Some(Role::Callback)
        } else {
            called.only()
        }
    }

    /// The shape that the evidence leaves: slots with fixed fields are a
    /// record, and slots filled in a loop through computed keys are registers.
    /// A lone write through a computed key is a cache just as well.
    pub open spec fn final_shape(self) -> Option<Shape> {
        if self.shape == Some(Shape::Slots) {
            if self.constant_write {
                Some(Shape::Record)
            } else if self.computed_write_in_loop {
                Some(Shape::Registers)
            } else {
                self.shape
            }
        } else {
            self.shape
        }
    }
}

/// What the first `count` clues on a local come to.
pub open spec fn weighed(clues: Seq<(RcLocal, ClueView)>, count: int, local: RcLocal) -> EvidenceView
    decreases count,
{
    if count <= 0 {
        EvidenceView::none()
    } else if clues[count - 1].0 == local {
        weighed(clues, count - 1, local).with(clues[count - 1].1)
    } else {
        weighed(clues, count - 1, local)
    }
}

/// What a block says about a local.
pub open spec fn block_evidence(
    block: Seq<StatementView>,
    parameters: Set<u64>,
    local: RcLocal,
) -> EvidenceView {
    let clues = StatementView::clues_from(block, 0, parameters, false);
    weighed(clues, clues.len() as int, local)
}

fn library_return_shape(space: &[u8], member: &[u8]) -> (shape: Option<Shape>)
    ensures
        shape == library_result(
            crate::text::ascii_text(space@),
            crate::text::ascii_text(member@),
        ),
{
    if spells(space, "table") && spells(member, "pack") {
        Some(Shape::Packed)
    } else if spells(space, "table") && spells(member, "create") {
        Some(Shape::Slots)
    } else if spells(space, "table") && spells(member, "concat") {
        Some(Shape::Text)
    } else if spells(space, "string") && spells(member, "format") {
        Some(Shape::Text)
    } else if spells(space, "string") && spells(member, "rep") {
        Some(Shape::Text)
    } else if spells(space, "coroutine") && spells(member, "create") {
        Some(Shape::Thread)
    } else if spells(space, "os") && spells(member, "clock") {
        Some(Shape::Timestamp)
    } else {
        None
    }
}

fn call_shape(call: &Call) -> (shape: Option<Shape>)
    ensures
        shape == call_result(call@),
{
    proof {
        nodes::rvalue_node(*call.value);
    }
    match &*call.value {
        RValue::Index(index) => {
            proof {
                nodes::rvalue_node(*index.left);
                nodes::rvalue_node(*index.right);
            }
            match (&*index.left, &*index.right) {
                (
                    RValue::Global(namespace),
                    RValue::Literal(Literal::String(member)),
                ) => library_return_shape(namespace.name(), member.as_slice()),
                _ => None,
            }
        },
        RValue::Global(global) => if spells(global.name(), "setmetatable") {
            Some(Shape::Object)
        } else if spells(global.name(), "pcall") {
            Some(Shape::Success)
        } else {
            None
        },
        _ => None,
    }
}

fn plain_arithmetic(operation: BinaryOperation) -> (result: bool)
    ensures
        result == is_plain_arithmetic(operation),
{
    matches!(
        operation,
        BinaryOperation::Add | BinaryOperation::Sub | BinaryOperation::Mul | BinaryOperation::Div
        | BinaryOperation::Mod | BinaryOperation::Pow | BinaryOperation::IDiv
    )
}

fn is_count_expression(value: &RValue) -> (result: bool)
    ensures
        result == is_count(value@),
    decreases value,
{
    proof {
        nodes::rvalue_node(*value);
    }
    match value {
        RValue::Unary(unary) => matches!(unary.operation, UnaryOperation::Length),
        RValue::Binary(binary) => plain_arithmetic(binary.operation) && (is_count_expression(
            &binary.left,
        ) || is_count_expression(&binary.right)),
        _ => false,
    }
}

fn all_named_keys(fields: &Vec<(Option<RValue>, RValue)>) -> (result: bool)
    ensures
        result == forall|i: int|
            0 <= i < fields@.len() ==> is_named_key((#[trigger] RValue::field_views(fields@)[i]).0),
{
    let mut index: usize = 0;
    while index < fields.len()
        invariant
            index <= fields@.len(),
            forall|i: int|
                0 <= i < index ==> is_named_key((#[trigger] RValue::field_views(fields@)[i]).0),
        decreases fields.len() - index,
    {
        let ghost key = RValue::field_views(fields@)[index as int].0;
        let named = match &fields[index].0 {
            Some(key) => {
                proof {
                    nodes::rvalue_node(*key);
                }
                matches!(key, RValue::Literal(Literal::String(_)))
            },
            None => false,
        };
        proof {
            assert(key == RValue::option_view(fields@[index as int].0));
            assert(named == is_named_key(key));
        }
        if !named {
            return false;
        }
        index += 1;
    }
    true
}

fn find_shape(value: &RValue) -> (shape: Option<Shape>)
    ensures
        shape == initializer_shape(value@),
{
    proof {
        nodes::rvalue_node(*value);
    }
    match value {
        RValue::Closure(_) => Some(Shape::Handler),
        RValue::Literal(Literal::String(_)) => Some(Shape::Text),
        RValue::Literal(_) => None,
        RValue::Unary(unary) => if matches!(unary.operation, UnaryOperation::Length) {
            Some(Shape::Count)
        } else {
            Some(Shape::Value)
        },
        RValue::Binary(binary) => if matches!(binary.operation, BinaryOperation::Concat) {
            Some(Shape::Text)
        } else if is_count_expression(value) {
            Some(Shape::Count)
        } else if plain_arithmetic(binary.operation) {
            None
        } else {
            Some(Shape::Value)
        },
        RValue::Table(table) => if table.0.len() > 0 && all_named_keys(&table.0) {
            Some(Shape::Record)
        } else {
            Some(Shape::Slots)
        },
        RValue::Call(call) => match call_shape(call) {
            Some(shape) => Some(shape),
            None => Some(Shape::Outcome),
        },
        RValue::Select(Select::Call(call)) => match call_shape(call) {
            Some(shape) => Some(shape),
            None => Some(Shape::Outcome),
        },
        RValue::MethodCall(_) => Some(Shape::Outcome),
        _ => Some(Shape::Value),
    }
}

fn looked_up(value: &RValue) -> (result: bool)
    ensures
        result == is_callback_source(value@),
    decreases value,
{
    proof {
        nodes::rvalue_node(*value);
    }
    match value {
        RValue::Index(_) => true,
        RValue::Binary(binary) => matches!(
            binary.operation,
            BinaryOperation::And | BinaryOperation::Or
        ) && (looked_up(&binary.left) || looked_up(&binary.right)),
        RValue::Conditional(conditional) => looked_up(&conditional.then_value) || looked_up(
            &conditional.else_value,
        ),
        _ => false,
    }
}

fn add_clue(clues: &mut Vec<(RcLocal, Clue)>, local: RcLocal, clue: Clue)
    ensures
        Clue::views(final(clues)@) == Clue::views(old(clues)@).push((local, clue@)),
{
    let ghost added = clue@;
    clues.push((local, clue));
    proof {
        assert(Clue::views(clues@) =~= Clue::views(old(clues)@).push((local, added)));
    }
}

fn record_reads(locals: &Vec<RcLocal>, clues: &mut Vec<(RcLocal, Clue)>)
    ensures
        Clue::views(final(clues)@) == Clue::views(old(clues)@) + read_clues(locals@),
{
    let mut index: usize = 0;
    while index < locals.len()
        invariant
            index <= locals@.len(),
            Clue::views(clues@) =~= Clue::views(old(clues)@) + read_clues(
                locals@.take(index as int),
            ),
        decreases locals.len() - index,
    {
        add_clue(clues, locals[index], Clue::Read);
        index += 1;
    }
    proof {
        assert(locals@.take(locals@.len() as int) =~= locals@);
    }
}

fn record_results(locals: &Vec<RcLocal>, clues: &mut Vec<(RcLocal, Clue)>)
    ensures
        Clue::views(final(clues)@) == Clue::views(old(clues)@) + result_clues(locals@),
{
    let mut index: usize = 0;
    while index < locals.len()
        invariant
            index <= locals@.len(),
            Clue::views(clues@) =~= Clue::views(old(clues)@) + result_clues(
                locals@.take(index as int),
            ),
        decreases locals.len() - index,
    {
        add_clue(clues, locals[index], Clue::LoopResult);
        index += 1;
    }
    proof {
        assert(locals@.take(locals@.len() as int) =~= locals@);
    }
}

fn record_call(call: &Call, parameters: &FxHashSet<u64>, clues: &mut Vec<(RcLocal, Clue)>)
    ensures
        Clue::views(final(clues)@) == Clue::views(old(clues)@) + call_clues(call@, parameters@),
{
    proof {
        nodes::rvalue_node(*call.value);
    }
    if let RValue::Local(local) = &*call.value {
        add_clue(clues, *local, Clue::Called);
        if has_member(parameters, local.id) {
            add_clue(clues, *local, Clue::Plays(Role::Callback));
        }
    }
    proof {
        assert(Clue::views(clues@) =~= Clue::views(old(clues)@) + call_clues(call@, parameters@));
    }
}

fn record_fields(fields: &Vec<(Option<RValue>, RValue)>, clues: &mut Vec<(RcLocal, Clue)>)
    ensures
        Clue::views(final(clues)@) == Clue::views(old(clues)@) + field_clues_from(
            RValue::field_views(fields@),
            0,
        ),
{
    let ghost views = RValue::field_views(fields@);
    let ghost whole = Clue::views(clues@) + field_clues_from(views, 0);
    let mut index: usize = 0;
    while index < fields.len()
        invariant
            index <= fields@.len() == views.len(),
            views == RValue::field_views(fields@),
            Clue::views(clues@) + field_clues_from(views, index as int) =~= whole,
        decreases fields.len() - index,
    {
        let ghost before = Clue::views(clues@);
        proof {
            assert(views[index as int].0 == RValue::option_view(fields@[index as int].0));
            assert(views[index as int].1 == fields@[index as int].1@);
            nodes::rvalue_node(fields@[index as int].1);
        }
        if let (Some(key), RValue::Local(local)) = (&fields[index].0, &fields[index].1) {
            proof {
                nodes::rvalue_node(*key);
            }
            if let RValue::Literal(Literal::String(name)) = key {
                if is_valid_identifier(name.as_slice()) {
                    let mut text = String::new();
                    push_ascii(&mut text, name.as_slice());
                    proof {
                        assert(text@ =~= crate::text::ascii_text(name@));
                    }
                    add_clue(clues, *local, Clue::Field(text));
                }
            }
        }
        proof {
            assert(Clue::views(clues@) =~= before + field_clues(views[index as int]));
        }
        index += 1;
    }
}

fn record_rvalue(value: &RValue, parameters: &FxHashSet<u64>, clues: &mut Vec<(RcLocal, Clue)>)
    ensures
        Clue::views(final(clues)@) == Clue::views(old(clues)@) + value@.clues(parameters@),
    decreases value@.size(), 0int,
{
    let ghost whole = value@;
    proof {
        nodes::rvalue_node(*value);
        model::lemma_children_smaller(whole);
    }
    match value {
        RValue::Call(call) => record_call(call, parameters, clues),
        RValue::Select(Select::Call(call)) => record_call(call, parameters, clues),
        RValue::Table(table) => record_fields(&table.0, clues),
        _ => {},
    }
    proof {
        assert(Clue::views(clues@) =~= Clue::views(old(clues)@) + whole.own_clues(parameters@));
    }
    record_rvalues(value.rvalues(), parameters, clues);
    proof {
        assert(Clue::views(clues@) =~= Clue::views(old(clues)@) + whole.clues(parameters@));
    }
}

fn record_rvalues(
    values: Vec<&RValue>,
    parameters: &FxHashSet<u64>,
    clues: &mut Vec<(RcLocal, Clue)>,
)
    ensures
        Clue::views(final(clues)@) == Clue::views(old(clues)@) + RValueView::clues_from(
            RValue::borrowed(values@),
            0,
            parameters@,
        ),
    decreases RValueView::sizes_from(RValue::borrowed(values@), 0), 1int,
{
    let ghost views = RValue::borrowed(values@);
    let ghost whole = Clue::views(clues@) + RValueView::clues_from(views, 0, parameters@);
    let mut index: usize = 0;
    while index < values.len()
        invariant
            index <= values@.len() == views.len(),
            views == RValue::borrowed(values@),
            Clue::views(clues@) + RValueView::clues_from(views, index as int, parameters@)
                =~= whole,
        decreases values.len() - index,
    {
        proof {
            model::lemma_sizes_member(views, 0, index as int);
        }
        record_rvalue(values[index], parameters, clues);
        index += 1;
    }
}

fn record_returns(values: &Vec<RValue>, clues: &mut Vec<(RcLocal, Clue)>)
    ensures
        Clue::views(final(clues)@) == Clue::views(old(clues)@) + return_clues_from(
            RValue::views(values@),
            0,
        ),
{
    let ghost views = RValue::views(values@);
    let ghost whole = Clue::views(clues@) + return_clues_from(views, 0);
    let mut index: usize = 0;
    while index < values.len()
        invariant
            index <= values@.len() == views.len(),
            views == RValue::views(values@),
            Clue::views(clues@) + return_clues_from(views, index as int) =~= whole,
        decreases values.len() - index,
    {
        proof {
            assert(views[index as int] == values@[index as int]@);
        }
        if let Some(local) = values[index].as_local() {
            add_clue(clues, local, Clue::Returned);
        }
        index += 1;
    }
}

fn find_function_name(value: &RValue) -> (name: Option<String>)
    ensures
        crate::ast::local::text_of(name) == function_name(value@),
{
    proof {
        nodes::rvalue_node(*value);
    }
    match value {
        RValue::Closure(closure) => match &closure.function.name {
            Some(name) => if is_valid_identifier(name.as_str().as_bytes()) {
                Some(name.clone())
            } else {
                None
            },
            None => None,
        },
        _ => None,
    }
}

fn record_initializer(local: RcLocal, value: &RValue, clues: &mut Vec<(RcLocal, Clue)>)
    ensures
        Clue::views(final(clues)@) == Clue::views(old(clues)@) + initializer_clues(local, value@),
{
    proof {
        nodes::rvalue_node(*value);
    }
    if let RValue::Table(_) = value {
        add_clue(clues, local, Clue::StartsAsTable);
    }
    if looked_up(value) {
        add_clue(clues, local, Clue::StartsLookedUp);
    }
    if let Some(name) = find_function_name(value) {
        add_clue(clues, local, Clue::Defined(name));
    }
    if let Some(shape) = find_shape(value) {
        add_clue(clues, local, Clue::StartsShaped(shape));
    }
    proof {
        assert(Clue::views(clues@) =~= Clue::views(old(clues)@) + initializer_clues(local, value@));
    }
}

fn record_container(
    container: RcLocal,
    key: &RValue,
    value: Option<&RValue>,
    looped: bool,
    clues: &mut Vec<(RcLocal, Clue)>,
)
    ensures
        Clue::views(final(clues)@) == Clue::views(old(clues)@) + container_clues(
            container,
            key@,
            match value {
                Some(value) => Some(value@),
                None => None,
            },
            looped,
        ),
{
    proof {
        nodes::rvalue_node(*key);
    }
    let mut named = false;
    match key {
        RValue::Literal(Literal::String(_)) => {
            named = true;
            add_clue(clues, container, Clue::ConstantWrite);
        },
        RValue::Literal(_) => {},
        _ => {
            add_clue(clues, container, Clue::ComputedWrite(looped));
        },
    }
    let closure = match value {
        Some(value) => {
            proof {
                nodes::rvalue_node(*value);
            }
            matches!(value, RValue::Closure(_))
        },
        None => false,
    };
    if !named && closure {
        add_clue(clues, container, Clue::CallbackField);
    }
    proof {
        assert(Clue::views(clues@) =~= Clue::views(old(clues)@) + container_clues(
            container,
            key@,
            match value {
                Some(value) => Some(value@),
                None => None,
            },
            looped,
        ));
    }
}

fn record_assign(assign: &Assign, looped: bool, clues: &mut Vec<(RcLocal, Clue)>)
    ensures
        Clue::views(final(clues)@) == Clue::views(old(clues)@) + assign_clues(assign@, looped),
{
    proof {
        nodes::assign_node(*assign);
        assert(Clue::views(clues@) + Seq::<(RcLocal, ClueView)>::empty() =~= Clue::views(clues@));
    }
    if assign.left.len() != 1 {
        return;
    }
    proof {
        assert(assign@.left[0] == assign.left@[0]@);
        nodes::lvalue_node(assign.left@[0]);
        if assign.right@.len() == 1 {
            assert(assign@.right[0] == assign.right@[0]@);
        }
    }
    match &assign.left[0] {
        LValue::Local(local) => {
            if assign.prefix && assign.right.len() == 1 {
                record_initializer(*local, &assign.right[0], clues);
            }
        },
        LValue::Index(index) => {
            proof {
                nodes::rvalue_node(*index.left);
            }
            if let RValue::Local(container) = &*index.left {
                let value = if assign.right.len() == 1 { Some(&assign.right[0]) } else { None };
                record_container(*container, &*index.right, value, looped, clues);
            }
        },
        _ => {},
    }
}

fn find_imported_name<'a>(value: &'a RValue) -> (name: Option<&'a [u8]>)
    ensures
        match name {
            Some(name) => imported_name(value@) == Some(crate::text::ascii_text(name@)),
            None => imported_name(value@) is None,
        },
{
    proof {
        nodes::rvalue_node(*value);
    }
    match value {
        RValue::Global(global) => if matches!(global.origin(), GlobalOrigin::CompilerImport) {
            Some(global.name())
        } else {
            None
        },
        _ => None,
    }
}

fn find_iterator_name<'a>(right: &'a Vec<RValue>) -> (name: Option<&'a [u8]>)
    ensures
        match name {
            Some(name) => iterator_name(RValue::views(right@)) == Some(
                crate::text::ascii_text(name@),
            ),
            None => iterator_name(RValue::views(right@)) is None,
        },
{
    if right.len() == 0 {
        return None;
    }
    proof {
        assert(RValue::views(right@)[0] == right@[0]@);
        nodes::rvalue_node(right@[0]);
    }
    match &right[0] {
        RValue::Call(call) => find_imported_name(&call.value),
        RValue::Select(Select::Call(call)) => find_imported_name(&call.value),
        _ => None,
    }
}

fn record_loop(generic_for: &GenericFor, clues: &mut Vec<(RcLocal, Clue)>)
    ensures
        Clue::views(final(clues)@) == Clue::views(old(clues)@) + loop_clues(
            generic_for.res_locals@,
            RValue::views(generic_for.right@),
        ),
{
    let locals = &generic_for.res_locals;
    let (pairs, ipairs) = match find_iterator_name(&generic_for.right) {
        Some(name) => (spells(name, "pairs"), spells(name, "ipairs")),
        None => (false, false),
    };
    if locals.len() >= 2 && pairs {
        add_clue(clues, locals[0], Clue::Plays(Role::Key));
        add_clue(clues, locals[1], Clue::Plays(Role::Value));
        add_clue(clues, locals[1], Clue::LoopResult);
    } else if locals.len() >= 2 && ipairs {
        add_clue(clues, locals[0], Clue::Plays(Role::Index));
        add_clue(clues, locals[1], Clue::Plays(Role::Entry));
        add_clue(clues, locals[1], Clue::LoopResult);
    } else {
        record_results(locals, clues);
    }
    proof {
        assert(Clue::views(clues@) =~= Clue::views(old(clues)@) + loop_clues(
            generic_for.res_locals@,
            RValue::views(generic_for.right@),
        ));
    }
}

fn record_head(
    statement: &Statement,
    parameters: &FxHashSet<u64>,
    looped: bool,
    clues: &mut Vec<(RcLocal, Clue)>,
)
    ensures
        Clue::views(final(clues)@) == Clue::views(old(clues)@) + statement@.own_clues(
            parameters@,
            looped,
        ),
{
    proof {
        nodes::statement_node(*statement);
        assert(Clue::views(clues@) + Seq::<(RcLocal, ClueView)>::empty() =~= Clue::views(clues@));
    }
    match statement {
        Statement::Call(call) => record_call(call, parameters, clues),
        Statement::Assign(assign) => record_assign(assign, looped, clues),
        Statement::Class(class) => {
            if is_valid_identifier(class.source_name.as_str().as_bytes()) {
                add_clue(clues, class.target, Clue::Defined(class.source_name.clone()));
                proof {
                    assert(Clue::views(clues@) =~= Clue::views(old(clues)@)
                        + statement@.own_clues(parameters@, looped));
                }
            }
        },
        Statement::Return(values) => record_returns(&values.values, clues),
        Statement::NumericFor(numeric_for) => {
            add_clue(clues, numeric_for.counter, Clue::Plays(Role::Index));
            proof {
                assert(Clue::views(clues@) =~= Clue::views(old(clues)@) + statement@.own_clues(
                    parameters@,
                    looped,
                ));
            }
        },
        Statement::GenericFor(generic_for) => record_loop(generic_for, clues),
        _ => {},
    }
}

fn collect_statement(
    statement: &Statement,
    parameters: &FxHashSet<u64>,
    looped: bool,
    clues: &mut Vec<(RcLocal, Clue)>,
)
    ensures
        Clue::views(final(clues)@) == Clue::views(old(clues)@) + statement@.clues(
            parameters@,
            looped,
        ),
    decreases statement@.size(), 0int, 0int,
{
    let ghost whole = statement@;
    let ghost start = Clue::views(clues@);
    proof {
        nodes::statement_node(*statement);
        model::lemma_statement_parts(whole);
    }
    record_reads(&statement.values_read(), clues);
    record_rvalues(statement.rvalues(), parameters, clues);
    record_head(statement, parameters, looped, clues);
    proof {
        assert(Clue::views(clues@) =~= start + whole.line_clues(parameters@, looped));
    }
    if matches!(statement, Statement::Do(_)) {
        return;
    }
    let inside = looped || matches!(
        statement,
        Statement::While(_) | Statement::Repeat(_) | Statement::NumericFor(_)
        | Statement::GenericFor(_)
    );
    let blocks = statement.blocks();
    let ghost views = Block::borrowed(blocks@);
    let mut index: usize = 0;
    while index < blocks.len()
        invariant
            index <= blocks@.len() == views.len(),
            views == Block::borrowed(blocks@),
            whole == statement@,
            StatementView::block_sizes_from(views, 0) < whole.size(),
            Clue::views(clues@) + StatementView::block_clues(
                views,
                index as int,
                parameters@,
                inside,
            ) =~= start + whole.clues(parameters@, looped),
        decreases blocks.len() - index,
    {
        proof {
            model::lemma_block_sizes_member(views, 0, index as int);
        }
        collect_evidence(blocks[index], parameters, inside, clues);
        index += 1;
    }
}

/// Adds what a block says about locals.
pub fn collect_evidence(
    block: &Block,
    parameters: &FxHashSet<u64>,
    looped: bool,
    clues: &mut Vec<(RcLocal, Clue)>,
)
    ensures
        Clue::views(final(clues)@) == Clue::views(old(clues)@) + StatementView::clues_from(
            block@,
            0,
            parameters@,
            looped,
        ),
    decreases StatementView::sizes_from(block@, 0), 1int, 0int,
{
    let ghost views = block@;
    let ghost whole = Clue::views(clues@) + StatementView::clues_from(
        views,
        0,
        parameters@,
        looped,
    );
    let mut index: usize = 0;
    while index < block.0.len()
        invariant
            index <= block.0@.len() == views.len(),
            views == block@,
            Clue::views(clues@) + StatementView::clues_from(
                views,
                index as int,
                parameters@,
                looped,
            ) =~= whole,
        decreases block.0.len() - index,
    {
        proof {
            model::lemma_statement_sizes_member(views, 0, index as int);
            assert(views[index as int] == block.0@[index as int]@);
        }
        collect_statement(&block.0[index], parameters, looped, clues);
        index += 1;
    }
}

/// The roles with one more.
fn add_role(roles: Agreement<Role>, role: Role) -> (more: Agreement<Role>)
    ensures
        more == roles.with(role),
{
    match roles {
        Agreement::Nothing => Agreement::Single(role),
        Agreement::Single(other) => if other == role {
            Agreement::Single(other)
        } else {
            Agreement::Several
        },
        Agreement::Several => Agreement::Several,
    }
}

impl Agreement<String> {
    /// What texts agree on.
    pub open spec fn view(&self) -> Agreement<Seq<char>> {
        match self {
            Agreement::Nothing => Agreement::Nothing,
            Agreement::Single(text) => Agreement::Single(text@),
            Agreement::Several => Agreement::Several,
        }
    }
}

/// The texts with one more.
pub fn add_text(texts: Agreement<String>, text: String) -> (more: Agreement<String>)
    ensures
        more@ == texts@.with(text@),
{
    match texts {
        Agreement::Nothing => Agreement::Single(text),
        Agreement::Single(other) => if same_text(&other, text.as_str()) {
            Agreement::Single(other)
        } else {
            Agreement::Several
        },
        Agreement::Several => Agreement::Several,
    }
}

impl Evidence {
    pub open spec fn view(&self) -> EvidenceView {
        EvidenceView {
            read: self.read,
            called: self.called,
            roles: self.roles,
            starts_as_table: self.starts_as_table,
            starts_looked_up: self.starts_looked_up,
            shape: self.shape,
            returned: self.returned,
            computed_write: self.computed_write,
            computed_write_in_loop: self.computed_write_in_loop,
            constant_write: self.constant_write,
            callback_fields: self.callback_fields,
            loop_result: self.loop_result,
            fields: self.fields@,
            defined: crate::ast::local::text_of(self.defined),
        }
    }

    /// Weighs one more clue.
    fn add(self, clue: Clue) -> (more: Self)
        ensures
            more@ == self@.with(clue@),
    {
        let mut more = self;
        match clue {
            Clue::Read => {
                more.read = true;
            },
            Clue::Called => {
                more.called = true;
            },
            Clue::Plays(role) => {
                let mut roles = Agreement::Nothing;
                std::mem::swap(&mut roles, &mut more.roles);
                more.roles = add_role(roles, role);
            },
            Clue::StartsAsTable => {
                more.starts_as_table = true;
            },
            Clue::StartsLookedUp => {
                more.starts_looked_up = true;
            },
            Clue::StartsShaped(shape) => {
                more.shape = Some(shape);
            },
            Clue::Returned => {
                more.returned = true;
            },
            Clue::ComputedWrite(looped) => {
                more.computed_write = true;
                if looped {
                    more.computed_write_in_loop = true;
                }
            },
            Clue::ConstantWrite => {
                more.constant_write = true;
            },
            Clue::CallbackField => {
                more.callback_fields = bump(more.callback_fields);
            },
            Clue::LoopResult => {
                more.loop_result = true;
            },
            Clue::Field(name) => {
                let mut fields = Agreement::Nothing;
                std::mem::swap(&mut fields, &mut more.fields);
                more.fields = add_text(fields, name);
            },
            Clue::Defined(name) => {
                if more.defined.is_none() {
                    more.defined = Some(name);
                }
            },
        }
        more
    }

    /// The role that the evidence leaves.
    pub fn find_role(&self) -> (role: Option<Role>)
        ensures
            role == self@.role(),
    {
        if self.loop_result && self.called {
            return Some(Role::Callback);
        }
        let mut roles = match &self.roles {
            Agreement::Nothing => Agreement::Nothing,
            Agreement::Single(role) => Agreement::Single(*role),
            Agreement::Several => Agreement::Several,
        };
        if self.starts_as_table && self.returned && !self.computed_write && !self.constant_write {
            roles = add_role(roles, Role::Outcome);
        }
        if self.callback_fields >= 2 {
            roles = add_role(roles, Role::Callbacks);
        }
        if self.starts_looked_up && self.called {
            roles = add_role(roles, Role::Callback);
        }
        match roles {
            Agreement::Single(role) => Some(role),
            _ => None,
        }
    }

    /// The shape that the evidence leaves.
    pub fn find_final_shape(&self) -> (shape: Option<Shape>)
        ensures
            shape == self@.final_shape(),
    {
        match self.shape {
            Some(Shape::Slots) => if self.constant_write {
                Some(Shape::Record)
            } else if self.computed_write_in_loop {
                Some(Shape::Registers)
            } else {
                self.shape
            },
            _ => self.shape,
        }
    }
}

impl Default for Evidence {
    fn default() -> (evidence: Self)
        ensures
            evidence@ == EvidenceView::none(),
    {
        Evidence {
            read: false,
            called: false,
            roles: Agreement::Nothing,
            starts_as_table: false,
            starts_looked_up: false,
            shape: None,
            returned: false,
            computed_write: false,
            computed_write_in_loop: false,
            constant_write: false,
            callback_fields: 0,
            loop_result: false,
            fields: Agreement::Nothing,
            defined: None,
        }
    }
}

/// The evidence on a local in a map of it.
pub open spec fn evidence_in(map: Map<u64, Evidence>, local: RcLocal) -> EvidenceView {
    if map.dom().contains(local.id) {
        map[local.id]@
    } else {
        EvidenceView::none()
    }
}

/// Weighs the clues on every local.
pub fn weigh_clues(clues: Vec<(RcLocal, Clue)>) -> (evidence: FxHashMap<u64, Evidence>)
    ensures
        forall|local: RcLocal| #[trigger]
            evidence_in(evidence@, local) == weighed(
                Clue::views(clues@),
                clues@.len() as int,
                local,
            ),
{
    let ghost views = Clue::views(clues@);
    let count: usize = clues.len();
    let mut rest = clues;
    let mut evidence = empty_map::<Evidence>();
    let mut index: usize = 0;
    while index < count
        invariant
            index <= count == views.len(),
            rest@.len() == count - index,
            Clue::views(rest@) =~= views.skip(index as int),
            forall|local: RcLocal| #[trigger]
                evidence_in(evidence@, local) == weighed(views, index as int, local),
        decreases count - index,
    {
        let ghost listed = Clue::views(rest@);
        let ghost before = evidence@;
        let (local, clue) = rest.remove(0);
        proof {
            assert(listed[0] == views[index as int]);
            assert(listed[0] == (local, clue@));
            assert(Clue::views(rest@) =~= listed.skip(1));
            assert(listed.skip(1) =~= views.skip(index + 1));
            assert(evidence_in(before, local) == weighed(views, index as int, local));
        }
        let held = match remove_entry(&mut evidence, local.id) {
            Some(held) => held,
            None => Evidence::default(),
        };
        let held = held.add(clue);
        insert_entry(&mut evidence, local.id, held);
        proof {
            assert forall|other: RcLocal| #[trigger]
                evidence_in(evidence@, other) == weighed(views, index + 1, other) by {
                assert(evidence_in(before, other) == weighed(views, index as int, other));
                if other.id == local.id {
                    assert(other == local);
                }
            }
        }
        index += 1;
    }
    evidence
}

} // verus!
