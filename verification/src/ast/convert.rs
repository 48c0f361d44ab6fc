//! Conversions of the parts of the tree into statements, expressions and
//! assignment targets.

use vstd::prelude::*;

use crate::ast::global::Global;
use crate::ast::literal::Literal;
use crate::ast::local::RcLocal;
use crate::ast::nodes::{
    Assign, Binary, Break, Call, Class, Close, Closure, Comment, Conditional, Continue, Do, Empty,
    GenericFor, GenericForInit, GenericForNext, Goto, If, Index, LValue, Label, MethodCall,
    NumForInit, NumForNext, NumericFor, RValue, Repeat, Return, Select, SetList, Statement, Table,
    Unary, VarArg, While,
};

verus! {

impl From<Assign> for Statement {
    fn from(value: Assign) -> (converted: Self) {
        Statement::Assign(value)
    }
}

impl vstd::std_specs::convert::FromSpecImpl<Assign> for Statement {
    open spec fn obeys_from_spec() -> bool {
        true
    }

    open spec fn from_spec(value: Assign) -> Self {
        Statement::Assign(value)
    }
}

impl From<Call> for Statement {
    fn from(value: Call) -> (converted: Self) {
        Statement::Call(value)
    }
}

impl vstd::std_specs::convert::FromSpecImpl<Call> for Statement {
    open spec fn obeys_from_spec() -> bool {
        true
    }

    open spec fn from_spec(value: Call) -> Self {
        Statement::Call(value)
    }
}

impl From<MethodCall> for Statement {
    fn from(value: MethodCall) -> (converted: Self) {
        Statement::MethodCall(value)
    }
}

impl vstd::std_specs::convert::FromSpecImpl<MethodCall> for Statement {
    open spec fn obeys_from_spec() -> bool {
        true
    }

    open spec fn from_spec(value: MethodCall) -> Self {
        Statement::MethodCall(value)
    }
}

impl From<If> for Statement {
    fn from(value: If) -> (converted: Self) {
        Statement::If(value)
    }
}

impl vstd::std_specs::convert::FromSpecImpl<If> for Statement {
    open spec fn obeys_from_spec() -> bool {
        true
    }

    open spec fn from_spec(value: If) -> Self {
        Statement::If(value)
    }
}

impl From<While> for Statement {
    fn from(value: While) -> (converted: Self) {
        Statement::While(value)
    }
}

impl vstd::std_specs::convert::FromSpecImpl<While> for Statement {
    open spec fn obeys_from_spec() -> bool {
        true
    }

    open spec fn from_spec(value: While) -> Self {
        Statement::While(value)
    }
}

impl From<Repeat> for Statement {
    fn from(value: Repeat) -> (converted: Self) {
        Statement::Repeat(value)
    }
}

impl vstd::std_specs::convert::FromSpecImpl<Repeat> for Statement {
    open spec fn obeys_from_spec() -> bool {
        true
    }

    open spec fn from_spec(value: Repeat) -> Self {
        Statement::Repeat(value)
    }
}

impl From<NumericFor> for Statement {
    fn from(value: NumericFor) -> (converted: Self) {
        Statement::NumericFor(value)
    }
}

impl vstd::std_specs::convert::FromSpecImpl<NumericFor> for Statement {
    open spec fn obeys_from_spec() -> bool {
        true
    }

    open spec fn from_spec(value: NumericFor) -> Self {
        Statement::NumericFor(value)
    }
}

impl From<GenericFor> for Statement {
    fn from(value: GenericFor) -> (converted: Self) {
        Statement::GenericFor(value)
    }
}

impl vstd::std_specs::convert::FromSpecImpl<GenericFor> for Statement {
    open spec fn obeys_from_spec() -> bool {
        true
    }

    open spec fn from_spec(value: GenericFor) -> Self {
        Statement::GenericFor(value)
    }
}

impl From<Do> for Statement {
    fn from(value: Do) -> (converted: Self) {
        Statement::Do(value)
    }
}

impl vstd::std_specs::convert::FromSpecImpl<Do> for Statement {
    open spec fn obeys_from_spec() -> bool {
        true
    }

    open spec fn from_spec(value: Do) -> Self {
        Statement::Do(value)
    }
}

impl From<Break> for Statement {
    fn from(value: Break) -> (converted: Self) {
        Statement::Break(value)
    }
}

impl vstd::std_specs::convert::FromSpecImpl<Break> for Statement {
    open spec fn obeys_from_spec() -> bool {
        true
    }

    open spec fn from_spec(value: Break) -> Self {
        Statement::Break(value)
    }
}

impl From<Continue> for Statement {
    fn from(value: Continue) -> (converted: Self) {
        Statement::Continue(value)
    }
}

impl vstd::std_specs::convert::FromSpecImpl<Continue> for Statement {
    open spec fn obeys_from_spec() -> bool {
        true
    }

    open spec fn from_spec(value: Continue) -> Self {
        Statement::Continue(value)
    }
}

impl From<Empty> for Statement {
    fn from(value: Empty) -> (converted: Self) {
        Statement::Empty(value)
    }
}

impl vstd::std_specs::convert::FromSpecImpl<Empty> for Statement {
    open spec fn obeys_from_spec() -> bool {
        true
    }

    open spec fn from_spec(value: Empty) -> Self {
        Statement::Empty(value)
    }
}

impl From<Return> for Statement {
    fn from(value: Return) -> (converted: Self) {
        Statement::Return(value)
    }
}

impl vstd::std_specs::convert::FromSpecImpl<Return> for Statement {
    open spec fn obeys_from_spec() -> bool {
        true
    }

    open spec fn from_spec(value: Return) -> Self {
        Statement::Return(value)
    }
}

impl From<Goto> for Statement {
    fn from(value: Goto) -> (converted: Self) {
        Statement::Goto(value)
    }
}

impl vstd::std_specs::convert::FromSpecImpl<Goto> for Statement {
    open spec fn obeys_from_spec() -> bool {
        true
    }

    open spec fn from_spec(value: Goto) -> Self {
        Statement::Goto(value)
    }
}

impl From<Label> for Statement {
    fn from(value: Label) -> (converted: Self) {
        Statement::Label(value)
    }
}

impl vstd::std_specs::convert::FromSpecImpl<Label> for Statement {
    open spec fn obeys_from_spec() -> bool {
        true
    }

    open spec fn from_spec(value: Label) -> Self {
        Statement::Label(value)
    }
}

impl From<Comment> for Statement {
    fn from(value: Comment) -> (converted: Self) {
        Statement::Comment(value)
    }
}

impl vstd::std_specs::convert::FromSpecImpl<Comment> for Statement {
    open spec fn obeys_from_spec() -> bool {
        true
    }

    open spec fn from_spec(value: Comment) -> Self {
        Statement::Comment(value)
    }
}

impl From<SetList> for Statement {
    fn from(value: SetList) -> (converted: Self) {
        Statement::SetList(value)
    }
}

impl vstd::std_specs::convert::FromSpecImpl<SetList> for Statement {
    open spec fn obeys_from_spec() -> bool {
        true
    }

    open spec fn from_spec(value: SetList) -> Self {
        Statement::SetList(value)
    }
}

impl From<Close> for Statement {
    fn from(value: Close) -> (converted: Self) {
        Statement::Close(value)
    }
}

impl vstd::std_specs::convert::FromSpecImpl<Close> for Statement {
    open spec fn obeys_from_spec() -> bool {
        true
    }

    open spec fn from_spec(value: Close) -> Self {
        Statement::Close(value)
    }
}

impl From<Class> for Statement {
    fn from(value: Class) -> (converted: Self) {
        Statement::Class(value)
    }
}

impl vstd::std_specs::convert::FromSpecImpl<Class> for Statement {
    open spec fn obeys_from_spec() -> bool {
        true
    }

    open spec fn from_spec(value: Class) -> Self {
        Statement::Class(value)
    }
}

impl From<NumForInit> for Statement {
    fn from(value: NumForInit) -> (converted: Self) {
        Statement::NumForInit(value)
    }
}

impl vstd::std_specs::convert::FromSpecImpl<NumForInit> for Statement {
    open spec fn obeys_from_spec() -> bool {
        true
    }

    open spec fn from_spec(value: NumForInit) -> Self {
        Statement::NumForInit(value)
    }
}

impl From<NumForNext> for Statement {
    fn from(value: NumForNext) -> (converted: Self) {
        Statement::NumForNext(value)
    }
}

impl vstd::std_specs::convert::FromSpecImpl<NumForNext> for Statement {
    open spec fn obeys_from_spec() -> bool {
        true
    }

    open spec fn from_spec(value: NumForNext) -> Self {
        Statement::NumForNext(value)
    }
}

impl From<GenericForInit> for Statement {
    fn from(value: GenericForInit) -> (converted: Self) {
        Statement::GenericForInit(value)
    }
}

impl vstd::std_specs::convert::FromSpecImpl<GenericForInit> for Statement {
    open spec fn obeys_from_spec() -> bool {
        true
    }

    open spec fn from_spec(value: GenericForInit) -> Self {
        Statement::GenericForInit(value)
    }
}

impl From<GenericForNext> for Statement {
    fn from(value: GenericForNext) -> (converted: Self) {
        Statement::GenericForNext(value)
    }
}

impl vstd::std_specs::convert::FromSpecImpl<GenericForNext> for Statement {
    open spec fn obeys_from_spec() -> bool {
        true
    }

    open spec fn from_spec(value: GenericForNext) -> Self {
        Statement::GenericForNext(value)
    }
}

impl From<RcLocal> for RValue {
    fn from(value: RcLocal) -> (converted: Self) {
        RValue::Local(value)
    }
}

impl vstd::std_specs::convert::FromSpecImpl<RcLocal> for RValue {
    open spec fn obeys_from_spec() -> bool {
        true
    }

    open spec fn from_spec(value: RcLocal) -> Self {
        RValue::Local(value)
    }
}

impl From<Global> for RValue {
    fn from(value: Global) -> (converted: Self) {
        RValue::Global(value)
    }
}

impl vstd::std_specs::convert::FromSpecImpl<Global> for RValue {
    open spec fn obeys_from_spec() -> bool {
        true
    }

    open spec fn from_spec(value: Global) -> Self {
        RValue::Global(value)
    }
}

impl From<Call> for RValue {
    fn from(value: Call) -> (converted: Self) {
        RValue::Call(value)
    }
}

impl vstd::std_specs::convert::FromSpecImpl<Call> for RValue {
    open spec fn obeys_from_spec() -> bool {
        true
    }

    open spec fn from_spec(value: Call) -> Self {
        RValue::Call(value)
    }
}

impl From<MethodCall> for RValue {
    fn from(value: MethodCall) -> (converted: Self) {
        RValue::MethodCall(value)
    }
}

impl vstd::std_specs::convert::FromSpecImpl<MethodCall> for RValue {
    open spec fn obeys_from_spec() -> bool {
        true
    }

    open spec fn from_spec(value: MethodCall) -> Self {
        RValue::MethodCall(value)
    }
}

impl From<VarArg> for RValue {
    fn from(value: VarArg) -> (converted: Self) {
        RValue::VarArg(value)
    }
}

impl vstd::std_specs::convert::FromSpecImpl<VarArg> for RValue {
    open spec fn obeys_from_spec() -> bool {
        true
    }

    open spec fn from_spec(value: VarArg) -> Self {
        RValue::VarArg(value)
    }
}

impl From<Table> for RValue {
    fn from(value: Table) -> (converted: Self) {
        RValue::Table(value)
    }
}

impl vstd::std_specs::convert::FromSpecImpl<Table> for RValue {
    open spec fn obeys_from_spec() -> bool {
        true
    }

    open spec fn from_spec(value: Table) -> Self {
        RValue::Table(value)
    }
}

impl From<Literal> for RValue {
    fn from(value: Literal) -> (converted: Self) {
        RValue::Literal(value)
    }
}

impl vstd::std_specs::convert::FromSpecImpl<Literal> for RValue {
    open spec fn obeys_from_spec() -> bool {
        true
    }

    open spec fn from_spec(value: Literal) -> Self {
        RValue::Literal(value)
    }
}

impl From<Index> for RValue {
    fn from(value: Index) -> (converted: Self) {
        RValue::Index(value)
    }
}

impl vstd::std_specs::convert::FromSpecImpl<Index> for RValue {
    open spec fn obeys_from_spec() -> bool {
        true
    }

    open spec fn from_spec(value: Index) -> Self {
        RValue::Index(value)
    }
}

impl From<Unary> for RValue {
    fn from(value: Unary) -> (converted: Self) {
        RValue::Unary(value)
    }
}

impl vstd::std_specs::convert::FromSpecImpl<Unary> for RValue {
    open spec fn obeys_from_spec() -> bool {
        true
    }

    open spec fn from_spec(value: Unary) -> Self {
        RValue::Unary(value)
    }
}

impl From<Binary> for RValue {
    fn from(value: Binary) -> (converted: Self) {
        RValue::Binary(value)
    }
}

impl vstd::std_specs::convert::FromSpecImpl<Binary> for RValue {
    open spec fn obeys_from_spec() -> bool {
        true
    }

    open spec fn from_spec(value: Binary) -> Self {
        RValue::Binary(value)
    }
}

impl From<Conditional> for RValue {
    fn from(value: Conditional) -> (converted: Self) {
        RValue::Conditional(value)
    }
}

impl vstd::std_specs::convert::FromSpecImpl<Conditional> for RValue {
    open spec fn obeys_from_spec() -> bool {
        true
    }

    open spec fn from_spec(value: Conditional) -> Self {
        RValue::Conditional(value)
    }
}

impl From<Closure> for RValue {
    fn from(value: Closure) -> (converted: Self) {
        RValue::Closure(value)
    }
}

impl vstd::std_specs::convert::FromSpecImpl<Closure> for RValue {
    open spec fn obeys_from_spec() -> bool {
        true
    }

    open spec fn from_spec(value: Closure) -> Self {
        RValue::Closure(value)
    }
}

impl From<Select> for RValue {
    fn from(value: Select) -> (converted: Self) {
        RValue::Select(value)
    }
}

impl vstd::std_specs::convert::FromSpecImpl<Select> for RValue {
    open spec fn obeys_from_spec() -> bool {
        true
    }

    open spec fn from_spec(value: Select) -> Self {
        RValue::Select(value)
    }
}

impl From<RcLocal> for LValue {
    fn from(value: RcLocal) -> (converted: Self) {
        LValue::Local(value)
    }
}

impl vstd::std_specs::convert::FromSpecImpl<RcLocal> for LValue {
    open spec fn obeys_from_spec() -> bool {
        true
    }

    open spec fn from_spec(value: RcLocal) -> Self {
        LValue::Local(value)
    }
}

impl From<Global> for LValue {
    fn from(value: Global) -> (converted: Self) {
        LValue::Global(value)
    }
}

impl vstd::std_specs::convert::FromSpecImpl<Global> for LValue {
    open spec fn obeys_from_spec() -> bool {
        true
    }

    open spec fn from_spec(value: Global) -> Self {
        LValue::Global(value)
    }
}

impl From<Index> for LValue {
    fn from(value: Index) -> (converted: Self) {
        LValue::Index(value)
    }
}

impl vstd::std_specs::convert::FromSpecImpl<Index> for LValue {
    open spec fn obeys_from_spec() -> bool {
        true
    }

    open spec fn from_spec(value: Index) -> Self {
        LValue::Index(value)
    }
}

} // verus!
