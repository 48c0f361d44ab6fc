//! The nodes of the syntax tree, and the model of each.

use vstd::prelude::*;

use crate::ast::global::{Global, GlobalView};
use crate::ast::literal::{Literal, LiteralView};
use crate::ast::local::RcLocal;

verus! {

/// The values that a vararg function was called with beyond its parameters.
#[derive(Debug, Clone, Copy, PartialEq, Eq, Structural)]
pub struct VarArg;

#[derive(Debug, Clone, Copy, PartialEq, Eq, Structural)]
pub enum UnaryOperation {
    Not,
    Negate,
    Length,
}

#[derive(Debug, Clone, Copy, PartialEq, Eq, Structural)]
pub enum BinaryOperation {
    Add,
    Sub,
    Mul,
    Div,
    Mod,
    Pow,
    Concat,
    Equal,
    NotEqual,
    LessThanOrEqual,
    GreaterThanOrEqual,
    LessThan,
    GreaterThan,
    And,
    Or,
    IDiv,
}

#[derive(Debug)]
pub struct Unary {
    pub value: Box<RValue>,
    pub operation: UnaryOperation,
}

#[derive(Debug)]
pub struct Binary {
    pub left: Box<RValue>,
    pub right: Box<RValue>,
    pub operation: BinaryOperation,
}

/// `if condition then then_value else else_value`, as an expression.
#[derive(Debug)]
pub struct Conditional {
    pub condition: Box<RValue>,
    pub then_value: Box<RValue>,
    pub else_value: Box<RValue>,
}

#[derive(Debug)]
pub struct Index {
    pub left: Box<RValue>,
    pub right: Box<RValue>,
}

#[derive(Debug)]
pub struct Call {
    pub value: Box<RValue>,
    pub arguments: Vec<RValue>,
}

#[derive(Debug)]
pub struct MethodCall {
    pub value: Box<RValue>,
    pub method: String,
    pub arguments: Vec<RValue>,
}

/// The first result of an expression that can have many.
#[derive(Debug)]
pub enum Select {
    VarArg(VarArg),
    Call(Call),
    MethodCall(MethodCall),
}

/// A table constructor: its fields in order, with their keys where written.
#[derive(Debug)]
pub struct Table(pub Vec<(Option<RValue>, RValue)>);

/// How a closure captures a local.
#[derive(Debug, Clone, Copy, PartialEq, Eq, Structural)]
pub enum Upvalue {
    Copy(RcLocal),
    Ref(RcLocal),
}

/// A function prototype. `id` tells prototypes apart: two closures are the
/// same value only if they are closures of one prototype.
#[derive(Debug)]
pub struct Function {
    pub id: u64,
    pub name: Option<String>,
    pub parameters: Vec<RcLocal>,
    pub is_variadic: bool,
    pub is_method: bool,
    pub body: Block,
}

#[derive(Debug)]
pub struct Closure {
    pub function: Box<Function>,
    pub upvalues: Vec<Upvalue>,
}

/// An expression.
#[derive(Debug)]
pub enum RValue {
    Local(RcLocal),
    Global(Global),
    Call(Call),
    MethodCall(MethodCall),
    VarArg(VarArg),
    Table(Table),
    Literal(Literal),
    Index(Index),
    Unary(Unary),
    Binary(Binary),
    Conditional(Conditional),
    Closure(Closure),
    Select(Select),
}

/// The target of an assignment.
#[derive(Debug)]
pub enum LValue {
    Local(RcLocal),
    Global(Global),
    Index(Index),
}

#[derive(Debug)]
pub struct Assign {
    pub left: Vec<LValue>,
    pub right: Vec<RValue>,
    pub prefix: bool,
    pub parallel: bool,
}

#[derive(Debug)]
pub struct If {
    pub condition: RValue,
    pub then_block: Block,
    pub else_block: Block,
}

#[derive(Debug)]
pub struct While {
    pub condition: RValue,
    pub block: Block,
}

#[derive(Debug)]
pub struct Repeat {
    pub condition: RValue,
    pub block: Block,
}

#[derive(Debug)]
pub struct NumericFor {
    pub initial: RValue,
    pub limit: RValue,
    pub step: RValue,
    pub counter: RcLocal,
    pub block: Block,
}

#[derive(Debug)]
pub struct GenericFor {
    pub res_locals: Vec<RcLocal>,
    pub right: Vec<RValue>,
    pub block: Block,
}

/// A bare `do ... end` block. It introduces a lexical scope without any
/// control flow, so locals declared inside it release their registers at
/// `end`.
#[derive(Debug)]
pub struct Do {
    pub block: Block,
}

#[derive(Debug, Clone, Copy, PartialEq, Eq, Structural)]
pub struct Break {}

#[derive(Debug, Clone, Copy, PartialEq, Eq, Structural)]
pub struct Continue {}

#[derive(Debug, Clone, Copy, PartialEq, Eq, Structural)]
pub struct Empty {}

#[derive(Debug)]
pub struct Return {
    pub values: Vec<RValue>,
}

#[derive(Debug)]
pub struct Goto(pub String);

#[derive(Debug)]
pub struct Label(pub String);

#[derive(Debug)]
pub struct Comment {
    pub text: String,
}

/// Stores a batch of values at consecutive indices of a table.
#[derive(Debug)]
pub struct SetList {
    pub object_local: RcLocal,
    pub index: usize,
    pub values: Vec<RValue>,
    pub tail: Option<RValue>,
}

/// Closes the captures of locals.
#[derive(Debug)]
pub struct Close {
    pub locals: Vec<RcLocal>,
}

#[derive(Debug)]
pub struct Class {
    pub target: RcLocal,
    pub source_name: String,
    pub properties: Vec<String>,
    pub methods: Vec<(String, RValue)>,
}

/// The start of a numeric loop, before its loop statement is recovered.
#[derive(Debug)]
pub struct NumForInit(pub Assign);

#[derive(Debug)]
pub struct NumForNext {
    pub counter: RcLocal,
    pub value: RValue,
    pub limit: RValue,
    pub step: RValue,
}

/// The start of a generic loop, before its loop statement is recovered.
#[derive(Debug)]
pub struct GenericForInit(pub Assign);

#[derive(Debug)]
pub struct GenericForNext {
    pub res_locals: Vec<RcLocal>,
    pub generator: RValue,
    pub state: RValue,
}

/// A statement.
#[derive(Debug)]
pub enum Statement {
    Empty(Empty),
    Call(Call),
    MethodCall(MethodCall),
    Assign(Assign),
    If(If),
    While(While),
    Repeat(Repeat),
    NumericFor(NumericFor),
    GenericFor(GenericFor),
    Do(Do),
    Break(Break),
    Continue(Continue),
    Return(Return),
    Goto(Goto),
    Label(Label),
    Comment(Comment),
    SetList(SetList),
    Close(Close),
    Class(Class),
    NumForInit(NumForInit),
    NumForNext(NumForNext),
    GenericForInit(GenericForInit),
    GenericForNext(GenericForNext),
}

/// A list of statements that share a scope.
#[derive(Debug)]
pub struct Block(pub Vec<Statement>);

#[verifier::ext_equal]
pub struct CallView {
    pub value: Box<RValueView>,
    pub arguments: Seq<RValueView>,
}

#[verifier::ext_equal]
pub struct MethodCallView {
    pub value: Box<RValueView>,
    pub method: Seq<char>,
    pub arguments: Seq<RValueView>,
}

#[verifier::ext_equal]
pub enum SelectView {
    VarArg,
    Call(CallView),
    MethodCall(MethodCallView),
}

#[verifier::ext_equal]
pub struct FunctionView {
    pub id: u64,
    pub name: Option<Seq<char>>,
    pub parameters: Seq<RcLocal>,
    pub is_variadic: bool,
    pub is_method: bool,
    pub body: Seq<StatementView>,
}

#[verifier::ext_equal]
pub struct ClosureView {
    pub function: Box<FunctionView>,
    pub upvalues: Seq<Upvalue>,
}

#[verifier::ext_equal]
pub struct IndexView {
    pub left: Box<RValueView>,
    pub right: Box<RValueView>,
}

/// The model of an expression.
#[verifier::ext_equal]
pub enum RValueView {
    Local(RcLocal),
    Global(GlobalView),
    Call(CallView),
    MethodCall(MethodCallView),
    VarArg,
    Table(Seq<(Option<RValueView>, RValueView)>),
    Literal(LiteralView),
    Index(IndexView),
    Unary(Box<RValueView>, UnaryOperation),
    Binary(Box<RValueView>, Box<RValueView>, BinaryOperation),
    Conditional(Box<RValueView>, Box<RValueView>, Box<RValueView>),
    Closure(ClosureView),
    Select(SelectView),
}

/// The model of an assignment target.
#[verifier::ext_equal]
pub enum LValueView {
    Local(RcLocal),
    Global(GlobalView),
    Index(IndexView),
}

#[verifier::ext_equal]
pub struct AssignView {
    pub left: Seq<LValueView>,
    pub right: Seq<RValueView>,
    pub prefix: bool,
    pub parallel: bool,
}

#[verifier::ext_equal]
pub struct ClassView {
    pub target: RcLocal,
    pub source_name: Seq<char>,
    pub properties: Seq<Seq<char>>,
    pub methods: Seq<(Seq<char>, RValueView)>,
}

/// The model of a statement.
#[verifier::ext_equal]
pub enum StatementView {
    Empty,
    Call(CallView),
    MethodCall(MethodCallView),
    Assign(AssignView),
    If { condition: RValueView, then_block: Seq<StatementView>, else_block: Seq<StatementView> },
    While { condition: RValueView, block: Seq<StatementView> },
    Repeat { condition: RValueView, block: Seq<StatementView> },
    NumericFor {
        initial: RValueView,
        limit: RValueView,
        step: RValueView,
        counter: RcLocal,
        block: Seq<StatementView>,
    },
    GenericFor { res_locals: Seq<RcLocal>, right: Seq<RValueView>, block: Seq<StatementView> },
    Do(Seq<StatementView>),
    Break,
    Continue,
    Return(Seq<RValueView>),
    Goto(Seq<char>),
    Label(Seq<char>),
    Comment(Seq<char>),
    SetList { object_local: RcLocal, index: nat, values: Seq<RValueView>, tail: Option<RValueView> },
    Close(Seq<RcLocal>),
    Class(ClassView),
    NumForInit(AssignView),
    NumForNext { counter: RcLocal, value: RValueView, limit: RValueView, step: RValueView },
    GenericForInit(AssignView),
    GenericForNext { res_locals: Seq<RcLocal>, generator: RValueView, state: RValueView },
}

impl RValue {
    #[verifier::opaque]
    pub open spec fn view(&self) -> RValueView
        decreases self, 0int,
    {
        match self {
            RValue::Local(local) => RValueView::Local(*local),
            RValue::Global(global) => RValueView::Global(global@),
            RValue::Call(call) => RValueView::Call(
                CallView {
                    value: Box::new(call.value.view()),
                    arguments: RValue::views(call.arguments@),
                },
            ),
            RValue::MethodCall(call) => RValueView::MethodCall(
                MethodCallView {
                    value: Box::new(call.value.view()),
                    method: call.method@,
                    arguments: RValue::views(call.arguments@),
                },
            ),
            RValue::VarArg(_) => RValueView::VarArg,
            RValue::Table(table) => RValueView::Table(RValue::field_views(table.0@)),
            RValue::Literal(literal) => RValueView::Literal(literal@),
            RValue::Index(index) => RValueView::Index(
                IndexView {
                    left: Box::new(index.left.view()),
                    right: Box::new(index.right.view()),
                },
            ),
            RValue::Unary(unary) => RValueView::Unary(Box::new(unary.value.view()), unary.operation),
            RValue::Binary(binary) => RValueView::Binary(
                Box::new(binary.left.view()),
                Box::new(binary.right.view()),
                binary.operation,
            ),
            RValue::Conditional(conditional) => RValueView::Conditional(
                Box::new(conditional.condition.view()),
                Box::new(conditional.then_value.view()),
                Box::new(conditional.else_value.view()),
            ),
            RValue::Closure(closure) => RValueView::Closure(
                ClosureView {
                    function: Box::new(
                        FunctionView {
                            id: closure.function.id,
                            name: crate::ast::local::text_of(closure.function.name),
                            parameters: closure.function.parameters@,
                            is_variadic: closure.function.is_variadic,
                            is_method: closure.function.is_method,
                            body: Statement::views(closure.function.body.0@),
                        },
                    ),
                    upvalues: closure.upvalues@,
                },
            ),
            RValue::Select(Select::VarArg(_)) => RValueView::Select(SelectView::VarArg),
            RValue::Select(Select::Call(call)) => RValueView::Select(
                SelectView::Call(
                    CallView {
                        value: Box::new(call.value.view()),
                        arguments: RValue::views(call.arguments@),
                    },
                ),
            ),
            RValue::Select(Select::MethodCall(call)) => RValueView::Select(
                SelectView::MethodCall(
                    MethodCallView {
                        value: Box::new(call.value.view()),
                        method: call.method@,
                        arguments: RValue::views(call.arguments@),
                    },
                ),
            ),
        }
    }

    /// The models of a list of expressions.
    #[verifier::opaque]
    pub open spec fn views(values: Seq<RValue>) -> Seq<RValueView>
        decreases values, 0int,
    {
        Seq::new(
            values.len(),
            |i: int|
                if 0 <= i < values.len() {
                    values[i].view()
                } else {
                    arbitrary()
                },
        )
    }

    /// The models of a table's fields.
    #[verifier::opaque]
    pub open spec fn field_views(fields: Seq<(Option<RValue>, RValue)>) -> Seq<
        (Option<RValueView>, RValueView),
    >
        decreases fields, 0int,
    {
        Seq::new(
            fields.len(),
            |i: int|
                if 0 <= i < fields.len() {
                    (
                        match fields[i].0 {
                            Some(key) => Some(key.view()),
                            None => None,
                        },
                        fields[i].1.view(),
                    )
                } else {
                    arbitrary()
                },
        )
    }

    /// The models of a class's methods.
    #[verifier::opaque]
    pub open spec fn method_views(methods: Seq<(String, RValue)>) -> Seq<(Seq<char>, RValueView)>
        decreases methods, 0int,
    {
        Seq::new(
            methods.len(),
            |i: int|
                if 0 <= i < methods.len() {
                    (methods[i].0@, methods[i].1.view())
                } else {
                    arbitrary()
                },
        )
    }

    /// The model of an expression that may be missing.
    pub open spec fn option_view(value: Option<RValue>) -> Option<RValueView> {
        match value {
            Some(value) => Some(value.view()),
            None => None,
        }
    }
}

impl LValue {
    #[verifier::opaque]
    pub open spec fn view(&self) -> LValueView
        decreases self, 0int,
    {
        match self {
            LValue::Local(local) => LValueView::Local(*local),
            LValue::Global(global) => LValueView::Global(global@),
            LValue::Index(index) => LValueView::Index(
                IndexView {
                    left: Box::new(index.left.view()),
                    right: Box::new(index.right.view()),
                },
            ),
        }
    }

    /// The models of a list of targets.
    #[verifier::opaque]
    pub open spec fn views(values: Seq<LValue>) -> Seq<LValueView>
        decreases values, 0int,
    {
        Seq::new(
            values.len(),
            |i: int|
                if 0 <= i < values.len() {
                    values[i].view()
                } else {
                    arbitrary()
                },
        )
    }
}

impl Assign {
    #[verifier::opaque]
    pub open spec fn view(&self) -> AssignView
        decreases self, 0int,
    {
        AssignView {
            left: LValue::views(self.left@),
            right: RValue::views(self.right@),
            prefix: self.prefix,
            parallel: self.parallel,
        }
    }
}

impl Statement {
    #[verifier::opaque]
    pub open spec fn view(&self) -> StatementView
        decreases self, 0int,
    {
        match self {
            Statement::Empty(_) => StatementView::Empty,
            Statement::Call(call) => StatementView::Call(
                CallView {
                    value: Box::new(call.value.view()),
                    arguments: RValue::views(call.arguments@),
                },
            ),
            Statement::MethodCall(call) => StatementView::MethodCall(
                MethodCallView {
                    value: Box::new(call.value.view()),
                    method: call.method@,
                    arguments: RValue::views(call.arguments@),
                },
            ),
            Statement::Assign(assign) => StatementView::Assign(assign.view()),
            Statement::If(branch) => StatementView::If {
                condition: branch.condition.view(),
                then_block: Statement::views(branch.then_block.0@),
                else_block: Statement::views(branch.else_block.0@),
            },
            Statement::While(each) => StatementView::While {
                condition: each.condition.view(),
                block: Statement::views(each.block.0@),
            },
            Statement::Repeat(repeat) => StatementView::Repeat {
                condition: repeat.condition.view(),
                block: Statement::views(repeat.block.0@),
            },
            Statement::NumericFor(each) => StatementView::NumericFor {
                initial: each.initial.view(),
                limit: each.limit.view(),
                step: each.step.view(),
                counter: each.counter,
                block: Statement::views(each.block.0@),
            },
            Statement::GenericFor(each) => StatementView::GenericFor {
                res_locals: each.res_locals@,
                right: RValue::views(each.right@),
                block: Statement::views(each.block.0@),
            },
            Statement::Do(scope) => StatementView::Do(Statement::views(scope.block.0@)),
            Statement::Break(_) => StatementView::Break,
            Statement::Continue(_) => StatementView::Continue,
            Statement::Return(returned) => StatementView::Return(RValue::views(returned.values@)),
            Statement::Goto(goto) => StatementView::Goto(goto.0@),
            Statement::Label(label) => StatementView::Label(label.0@),
            Statement::Comment(comment) => StatementView::Comment(comment.text@),
            Statement::SetList(list) => StatementView::SetList {
                object_local: list.object_local,
                index: list.index as nat,
                values: RValue::views(list.values@),
                tail: match list.tail {
                    Some(tail) => Some(tail.view()),
                    None => None,
                },
            },
            Statement::Close(close) => StatementView::Close(close.locals@),
            Statement::Class(class) => StatementView::Class(
                ClassView {
                    target: class.target,
                    source_name: class.source_name@,
                    properties: Seq::new(class.properties@.len(), |i: int| class.properties@[i]@),
                    methods: RValue::method_views(class.methods@),
                },
            ),
            Statement::NumForInit(init) => StatementView::NumForInit(init.0.view()),
            Statement::NumForNext(next) => StatementView::NumForNext {
                counter: next.counter,
                value: next.value.view(),
                limit: next.limit.view(),
                step: next.step.view(),
            },
            Statement::GenericForInit(init) => StatementView::GenericForInit(init.0.view()),
            Statement::GenericForNext(next) => StatementView::GenericForNext {
                res_locals: next.res_locals@,
                generator: next.generator.view(),
                state: next.state.view(),
            },
        }
    }

    /// The models of a list of statements.
    #[verifier::opaque]
    pub open spec fn views(statements: Seq<Statement>) -> Seq<StatementView>
        decreases statements, 0int,
    {
        Seq::new(
            statements.len(),
            |i: int|
                if 0 <= i < statements.len() {
                    statements[i].view()
                } else {
                    arbitrary()
                },
        )
    }
}

impl Block {
    /// The model of a block: the models of its statements.
    pub open spec fn view(&self) -> Seq<StatementView> {
        Statement::views(self.0@)
    }
}

impl Call {
    pub open spec fn view(&self) -> CallView {
        CallView { value: Box::new(self.value.view()), arguments: RValue::views(self.arguments@) }
    }
}

impl MethodCall {
    pub open spec fn view(&self) -> MethodCallView {
        MethodCallView {
            value: Box::new(self.value.view()),
            method: self.method@,
            arguments: RValue::views(self.arguments@),
        }
    }
}

impl Select {
    pub open spec fn view(&self) -> SelectView {
        match self {
            Select::VarArg(_) => SelectView::VarArg,
            Select::Call(call) => SelectView::Call(call@),
            Select::MethodCall(call) => SelectView::MethodCall(call@),
        }
    }
}

impl Table {
    pub open spec fn view(&self) -> Seq<(Option<RValueView>, RValueView)> {
        RValue::field_views(self.0@)
    }
}

impl Index {
    pub open spec fn view(&self) -> IndexView {
        IndexView { left: Box::new(self.left.view()), right: Box::new(self.right.view()) }
    }
}

impl Function {
    pub open spec fn view(&self) -> FunctionView {
        FunctionView {
            id: self.id,
            name: crate::ast::local::text_of(self.name),
            parameters: self.parameters@,
            is_variadic: self.is_variadic,
            is_method: self.is_method,
            body: self.body@,
        }
    }
}

impl Closure {
    pub open spec fn view(&self) -> ClosureView {
        ClosureView { function: Box::new(self.function@), upvalues: self.upvalues@ }
    }
}

impl Class {
    pub open spec fn view(&self) -> ClassView {
        ClassView {
            target: self.target,
            source_name: self.source_name@,
            properties: Seq::new(self.properties@.len(), |i: int| self.properties@[i]@),
            methods: RValue::method_views(self.methods@),
        }
    }
}

impl RValue {
    /// The model of an expression, in terms of the models of its parts.
    pub open spec fn node(&self) -> RValueView {
        match self {
            RValue::Local(local) => RValueView::Local(*local),
            RValue::Global(global) => RValueView::Global(global@),
            RValue::Call(call) => RValueView::Call(call@),
            RValue::MethodCall(call) => RValueView::MethodCall(call@),
            RValue::VarArg(_) => RValueView::VarArg,
            RValue::Table(table) => RValueView::Table(table@),
            RValue::Literal(literal) => RValueView::Literal(literal@),
            RValue::Index(index) => RValueView::Index(index@),
            RValue::Unary(unary) => RValueView::Unary(Box::new(unary.value@), unary.operation),
            RValue::Binary(binary) => RValueView::Binary(
                Box::new(binary.left@),
                Box::new(binary.right@),
                binary.operation,
            ),
            RValue::Conditional(conditional) => RValueView::Conditional(
                Box::new(conditional.condition@),
                Box::new(conditional.then_value@),
                Box::new(conditional.else_value@),
            ),
            RValue::Closure(closure) => RValueView::Closure(closure@),
            RValue::Select(select) => RValueView::Select(select@),
        }
    }
}

impl LValue {
    /// The model of a target, in terms of the models of its parts.
    pub open spec fn node(&self) -> LValueView {
        match self {
            LValue::Local(local) => LValueView::Local(*local),
            LValue::Global(global) => LValueView::Global(global@),
            LValue::Index(index) => LValueView::Index(index@),
        }
    }
}

impl Statement {
    /// The model of a statement, in terms of the models of its parts.
    pub open spec fn node(&self) -> StatementView {
        match self {
            Statement::Empty(_) => StatementView::Empty,
            Statement::Call(call) => StatementView::Call(call@),
            Statement::MethodCall(call) => StatementView::MethodCall(call@),
            Statement::Assign(assign) => StatementView::Assign(assign@),
            Statement::If(branch) => StatementView::If {
                condition: branch.condition@,
                then_block: branch.then_block@,
                else_block: branch.else_block@,
            },
            Statement::While(each) => StatementView::While {
                condition: each.condition@,
                block: each.block@,
            },
            Statement::Repeat(each) => StatementView::Repeat {
                condition: each.condition@,
                block: each.block@,
            },
            Statement::NumericFor(each) => StatementView::NumericFor {
                initial: each.initial@,
                limit: each.limit@,
                step: each.step@,
                counter: each.counter,
                block: each.block@,
            },
            Statement::GenericFor(each) => StatementView::GenericFor {
                res_locals: each.res_locals@,
                right: RValue::views(each.right@),
                block: each.block@,
            },
            Statement::Do(scope) => StatementView::Do(scope.block@),
            Statement::Break(_) => StatementView::Break,
            Statement::Continue(_) => StatementView::Continue,
            Statement::Return(returned) => StatementView::Return(RValue::views(returned.values@)),
            Statement::Goto(goto) => StatementView::Goto(goto.0@),
            Statement::Label(label) => StatementView::Label(label.0@),
            Statement::Comment(comment) => StatementView::Comment(comment.text@),
            Statement::SetList(list) => StatementView::SetList {
                object_local: list.object_local,
                index: list.index as nat,
                values: RValue::views(list.values@),
                tail: RValue::option_view(list.tail),
            },
            Statement::Close(close) => StatementView::Close(close.locals@),
            Statement::Class(class) => StatementView::Class(class@),
            Statement::NumForInit(init) => StatementView::NumForInit(init.0@),
            Statement::NumForNext(next) => StatementView::NumForNext {
                counter: next.counter,
                value: next.value@,
                limit: next.limit@,
                step: next.step@,
            },
            Statement::GenericForInit(init) => StatementView::GenericForInit(init.0@),
            Statement::GenericForNext(next) => StatementView::GenericForNext {
                res_locals: next.res_locals@,
                generator: next.generator@,
                state: next.state@,
            },
        }
    }
}

pub proof fn rvalue_node(value: RValue)
    ensures
        value@ == value.node(),
{
    reveal(RValue::view);
    reveal(RValue::views);
    reveal(RValue::field_views);
    reveal(Statement::views);
}

pub proof fn lvalue_node(value: LValue)
    ensures
        value@ == value.node(),
{
    reveal(LValue::view);
    reveal(RValue::view);
}

#[verifier::rlimit(40)]
pub proof fn statement_node(statement: Statement)
    ensures
        statement@ == statement.node(),
{
    reveal(Statement::view);
    reveal(Statement::views);
    reveal(RValue::view);
    reveal(RValue::views);
    reveal(RValue::method_views);
    reveal(Assign::view);
}

pub proof fn assign_node(assign: Assign)
    ensures
        assign@ == (AssignView {
            left: LValue::views(assign.left@),
            right: RValue::views(assign.right@),
            prefix: assign.prefix,
            parallel: assign.parallel,
        }),
{
    reveal(Assign::view);
    reveal(LValue::views);
    reveal(RValue::views);
}

impl RValue {
    /// The models of borrowed expressions.
    pub open spec fn borrowed(values: Seq<&RValue>) -> Seq<RValueView> {
        Seq::new(values.len(), |i: int| values[i]@)
    }
}

impl Block {
    /// The models of a list of blocks.
    pub open spec fn views(blocks: Seq<Block>) -> Seq<Seq<StatementView>> {
        Seq::new(blocks.len(), |i: int| blocks[i]@)
    }

    /// The models of borrowed blocks.
    pub open spec fn borrowed(blocks: Seq<&Block>) -> Seq<Seq<StatementView>> {
        Seq::new(blocks.len(), |i: int| blocks[i]@)
    }
}

pub broadcast proof fn borrowed_push(values: Seq<&RValue>, value: &RValue)
    ensures
        #[trigger] RValue::borrowed(values.push(value)) == RValue::borrowed(values).push(value@),
{
    assert(RValue::borrowed(values.push(value)) =~= RValue::borrowed(values).push(value@));
}

pub broadcast proof fn block_views_push(blocks: Seq<Block>, block: Block)
    ensures
        #[trigger] Block::views(blocks.push(block)) == Block::views(blocks).push(block@),
{
    assert(Block::views(blocks.push(block)) =~= Block::views(blocks).push(block@));
}

pub broadcast proof fn borrowed_blocks_push(blocks: Seq<&Block>, block: &Block)
    ensures
        #[trigger] Block::borrowed(blocks.push(block)) == Block::borrowed(blocks).push(block@),
{
    assert(Block::borrowed(blocks.push(block)) =~= Block::borrowed(blocks).push(block@));
}

pub broadcast proof fn rvalue_views_len(values: Seq<RValue>)
    ensures
        #[trigger] RValue::views(values).len() == values.len(),
{
    reveal(RValue::views);
    reveal(RValue::view);
}

pub broadcast proof fn rvalue_views_index(values: Seq<RValue>, i: int)
    requires
        0 <= i < values.len(),
    ensures
        #[trigger] RValue::views(values)[i] == values[i].view(),
{
    reveal(RValue::views);
    reveal(RValue::view);
}

pub broadcast proof fn rvalue_views_push(values: Seq<RValue>, value: RValue)
    ensures
        #[trigger] RValue::views(values.push(value)) == RValue::views(values).push(value.view()),
{
    reveal(RValue::views);
    reveal(RValue::view);
    assert(RValue::views(values.push(value)) =~= RValue::views(values).push(value.view()));
}

pub broadcast proof fn lvalue_views_len(values: Seq<LValue>)
    ensures
        #[trigger] LValue::views(values).len() == values.len(),
{
    reveal(LValue::views);
    reveal(LValue::view);
}

pub broadcast proof fn lvalue_views_index(values: Seq<LValue>, i: int)
    requires
        0 <= i < values.len(),
    ensures
        #[trigger] LValue::views(values)[i] == values[i].view(),
{
    reveal(LValue::views);
    reveal(LValue::view);
}

pub broadcast proof fn lvalue_views_push(values: Seq<LValue>, value: LValue)
    ensures
        #[trigger] LValue::views(values.push(value)) == LValue::views(values).push(value.view()),
{
    reveal(LValue::views);
    reveal(LValue::view);
    assert(LValue::views(values.push(value)) =~= LValue::views(values).push(value.view()));
}

pub broadcast proof fn statement_views_len(statements: Seq<Statement>)
    ensures
        #[trigger] Statement::views(statements).len() == statements.len(),
{
    reveal(Statement::views);
    reveal(Statement::view);
}

pub broadcast proof fn statement_views_index(statements: Seq<Statement>, i: int)
    requires
        0 <= i < statements.len(),
    ensures
        #[trigger] Statement::views(statements)[i] == statements[i].view(),
{
    reveal(Statement::views);
    reveal(Statement::view);
}

pub broadcast proof fn statement_views_push(statements: Seq<Statement>, statement: Statement)
    ensures
        #[trigger] Statement::views(statements.push(statement)) == Statement::views(
            statements,
        ).push(statement.view()),
{
    reveal(Statement::views);
    reveal(Statement::view);
    assert(Statement::views(statements.push(statement)) =~= Statement::views(statements).push(
        statement.view(),
    ));
}

pub broadcast proof fn field_views_len(fields: Seq<(Option<RValue>, RValue)>)
    ensures
        #[trigger] RValue::field_views(fields).len() == fields.len(),
{
    reveal(RValue::field_views);
    reveal(RValue::view);
}

pub broadcast proof fn field_views_index(fields: Seq<(Option<RValue>, RValue)>, i: int)
    requires
        0 <= i < fields.len(),
    ensures
        #[trigger] RValue::field_views(fields)[i] == (
            RValue::option_view(fields[i].0),
            fields[i].1.view(),
        ),
{
    reveal(RValue::field_views);
    reveal(RValue::view);
}

pub broadcast proof fn field_views_push(
    fields: Seq<(Option<RValue>, RValue)>,
    field: (Option<RValue>, RValue),
)
    ensures
        #[trigger] RValue::field_views(fields.push(field)) == RValue::field_views(fields).push(
            (RValue::option_view(field.0), field.1.view()),
        ),
{
    reveal(RValue::field_views);
    reveal(RValue::view);
    assert(RValue::field_views(fields.push(field)) =~= RValue::field_views(fields).push(
        (RValue::option_view(field.0), field.1.view()),
    ));
}

pub broadcast proof fn method_views_len(methods: Seq<(String, RValue)>)
    ensures
        #[trigger] RValue::method_views(methods).len() == methods.len(),
{
    reveal(RValue::method_views);
    reveal(RValue::view);
}

pub broadcast proof fn method_views_index(methods: Seq<(String, RValue)>, i: int)
    requires
        0 <= i < methods.len(),
    ensures
        #[trigger] RValue::method_views(methods)[i] == (methods[i].0@, methods[i].1.view()),
{
    reveal(RValue::method_views);
    reveal(RValue::view);
}

pub broadcast proof fn method_views_push(methods: Seq<(String, RValue)>, method: (String, RValue))
    ensures
        #[trigger] RValue::method_views(methods.push(method)) == RValue::method_views(methods).push(
            (method.0@, method.1.view()),
        ),
{
    reveal(RValue::method_views);
    reveal(RValue::view);
    assert(RValue::method_views(methods.push(method)) =~= RValue::method_views(methods).push(
        (method.0@, method.1.view()),
    ));
}

pub broadcast group group_views {
    borrowed_push,
    block_views_push,
    borrowed_blocks_push,
    rvalue_views_len,
    rvalue_views_index,
    rvalue_views_push,
    lvalue_views_len,
    lvalue_views_index,
    lvalue_views_push,
    statement_views_len,
    statement_views_index,
    statement_views_push,
    field_views_len,
    field_views_index,
    field_views_push,
    method_views_len,
    method_views_index,
    method_views_push,
}

} // verus!
