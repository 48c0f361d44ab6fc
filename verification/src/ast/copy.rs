//! Copies of the nodes.

use vstd::prelude::*;

use crate::ast::local::RcLocal;
use crate::ast::nodes::{
    Assign, Binary, Block, Call, Class, Close, Closure, Comment, Conditional, Do,
    Function, GenericFor, GenericForInit, GenericForNext, Goto, If, Index, LValue, Label,
    MethodCall, NumForInit, NumForNext, NumericFor, RValue, Repeat, Return, Select, SetList,
    Statement, Table, Unary, Upvalue, While,
};
use crate::ast::{local, nodes};

verus! {

broadcast use nodes::group_views;

/// A copy of a list of locals.
pub fn copy_locals(locals: &Vec<RcLocal>) -> (copy: Vec<RcLocal>)
    ensures
        copy@ == locals@,
{
    let mut copy: Vec<RcLocal> = Vec::new();
    let mut index: usize = 0;
    while index < locals.len()
        invariant
            index <= locals.len(),
            copy@ =~= locals@.take(index as int),
        decreases locals.len() - index,
    {
        copy.push(locals[index]);
        index += 1;
    }
    proof {
        assert(locals@.take(locals.len() as int) =~= locals@);
    }
    copy
}

fn copy_upvalues(upvalues: &Vec<Upvalue>) -> (copy: Vec<Upvalue>)
    ensures
        copy@ == upvalues@,
{
    let mut copy: Vec<Upvalue> = Vec::new();
    let mut index: usize = 0;
    while index < upvalues.len()
        invariant
            index <= upvalues.len(),
            copy@ =~= upvalues@.take(index as int),
        decreases upvalues.len() - index,
    {
        copy.push(upvalues[index]);
        index += 1;
    }
    proof {
        assert(upvalues@.take(upvalues.len() as int) =~= upvalues@);
    }
    copy
}

fn copy_strings(strings: &Vec<String>) -> (copy: Vec<String>)
    ensures
        copy@.len() == strings@.len(),
        forall|i: int| 0 <= i < strings@.len() ==> (#[trigger] copy@[i])@ == strings@[i]@,
{
    let mut copy: Vec<String> = Vec::new();
    let mut index: usize = 0;
    while index < strings.len()
        invariant
            index <= strings.len(),
            copy@.len() == index,
            forall|i: int| 0 <= i < index ==> (#[trigger] copy@[i])@ == strings@[i]@,
        decreases strings.len() - index,
    {
        copy.push(strings[index].clone());
        index += 1;
    }
    copy
}

fn copy_text(text: &Option<String>) -> (copy: Option<String>)
    ensures
        local::text_of(copy) == local::text_of(*text),
{
    match text {
        Some(text) => Some(text.clone()),
        None => None,
    }
}

/// A copy of a list of expressions.
pub fn copy_rvalues(values: &Vec<RValue>) -> (copy: Vec<RValue>)
    ensures
        RValue::views(copy@) == RValue::views(values@),
    decreases values,
{
    let mut copy: Vec<RValue> = Vec::new();
    let mut index: usize = 0;
    while index < values.len()
        invariant
            index <= values.len(),
            RValue::views(copy@) =~= RValue::views(values@).take(index as int),
        decreases values.len() - index,
    {
        copy.push(values[index].clone());
        index += 1;
    }
    proof {
        assert(RValue::views(values@).take(values.len() as int) =~= RValue::views(values@));
    }
    copy
}

fn copy_fields(fields: &Vec<(Option<RValue>, RValue)>) -> (copy: Vec<(Option<RValue>, RValue)>)
    ensures
        RValue::field_views(copy@) == RValue::field_views(fields@),
    decreases fields,
{
    let mut copy: Vec<(Option<RValue>, RValue)> = Vec::new();
    let mut index: usize = 0;
    while index < fields.len()
        invariant
            index <= fields.len(),
            RValue::field_views(copy@) =~= RValue::field_views(fields@).take(index as int),
        decreases fields.len() - index,
    {
        let key = match &fields[index].0 {
            Some(key) => Some(key.clone()),
            None => None,
        };
        copy.push((key, fields[index].1.clone()));
        index += 1;
    }
    proof {
        assert(RValue::field_views(fields@).take(fields.len() as int) =~= RValue::field_views(
            fields@,
        ));
    }
    copy
}

fn copy_methods(methods: &Vec<(String, RValue)>) -> (copy: Vec<(String, RValue)>)
    ensures
        RValue::method_views(copy@) == RValue::method_views(methods@),
    decreases methods,
{
    let mut copy: Vec<(String, RValue)> = Vec::new();
    let mut index: usize = 0;
    while index < methods.len()
        invariant
            index <= methods.len(),
            RValue::method_views(copy@) =~= RValue::method_views(methods@).take(index as int),
        decreases methods.len() - index,
    {
        copy.push((methods[index].0.clone(), methods[index].1.clone()));
        index += 1;
    }
    proof {
        assert(RValue::method_views(methods@).take(methods.len() as int) =~= RValue::method_views(
            methods@,
        ));
    }
    copy
}

fn copy_lvalues(values: &Vec<LValue>) -> (copy: Vec<LValue>)
    ensures
        LValue::views(copy@) == LValue::views(values@),
    decreases values,
{
    let mut copy: Vec<LValue> = Vec::new();
    let mut index: usize = 0;
    while index < values.len()
        invariant
            index <= values.len(),
            LValue::views(copy@) =~= LValue::views(values@).take(index as int),
        decreases values.len() - index,
    {
        copy.push(values[index].clone());
        index += 1;
    }
    proof {
        assert(LValue::views(values@).take(values.len() as int) =~= LValue::views(values@));
    }
    copy
}

fn copy_statements(statements: &Vec<Statement>) -> (copy: Vec<Statement>)
    ensures
        Statement::views(copy@) == Statement::views(statements@),
    decreases statements,
{
    let mut copy: Vec<Statement> = Vec::new();
    let mut index: usize = 0;
    while index < statements.len()
        invariant
            index <= statements.len(),
            Statement::views(copy@) =~= Statement::views(statements@).take(index as int),
        decreases statements.len() - index,
    {
        copy.push(statements[index].clone());
        index += 1;
    }
    proof {
        assert(Statement::views(statements@).take(statements.len() as int) =~= Statement::views(
            statements@,
        ));
    }
    copy
}

impl Clone for RValue {
    fn clone(&self) -> (copy: Self)
        ensures
            copy@ == self@,
        decreases self,
    {
        let copy = match self {
            RValue::Local(local) => RValue::Local(*local),
            RValue::Global(global) => RValue::Global(global.clone()),
            RValue::Call(call) => RValue::Call(
                Call {
                    value: Box::new((*call.value).clone()),
                    arguments: copy_rvalues(&call.arguments),
                },
            ),
            RValue::MethodCall(call) => RValue::MethodCall(
                MethodCall {
                    value: Box::new((*call.value).clone()),
                    method: call.method.clone(),
                    arguments: copy_rvalues(&call.arguments),
                },
            ),
            RValue::VarArg(vararg) => RValue::VarArg(*vararg),
            RValue::Table(table) => RValue::Table(Table(copy_fields(&table.0))),
            RValue::Literal(literal) => RValue::Literal(literal.clone()),
            RValue::Index(index) => RValue::Index(
                Index {
                    left: Box::new((*index.left).clone()),
                    right: Box::new((*index.right).clone()),
                },
            ),
            RValue::Unary(unary) => RValue::Unary(
                Unary { value: Box::new((*unary.value).clone()), operation: unary.operation },
            ),
            RValue::Binary(binary) => RValue::Binary(
                Binary {
                    left: Box::new((*binary.left).clone()),
                    right: Box::new((*binary.right).clone()),
                    operation: binary.operation,
                },
            ),
            RValue::Conditional(conditional) => RValue::Conditional(
                Conditional {
                    condition: Box::new((*conditional.condition).clone()),
                    then_value: Box::new((*conditional.then_value).clone()),
                    else_value: Box::new((*conditional.else_value).clone()),
                },
            ),
            RValue::Closure(closure) => RValue::Closure(
                Closure {
                    function: Box::new(
                        Function {
                            id: closure.function.id,
                            name: copy_text(&closure.function.name),
                            parameters: copy_locals(&closure.function.parameters),
                            is_variadic: closure.function.is_variadic,
                            is_method: closure.function.is_method,
                            body: Block(copy_statements(&closure.function.body.0)),
                        },
                    ),
                    upvalues: copy_upvalues(&closure.upvalues),
                },
            ),
            RValue::Select(Select::VarArg(vararg)) => RValue::Select(Select::VarArg(*vararg)),
            RValue::Select(Select::Call(call)) => RValue::Select(
                Select::Call(
                    Call {
                        value: Box::new((*call.value).clone()),
                        arguments: copy_rvalues(&call.arguments),
                    },
                ),
            ),
            RValue::Select(Select::MethodCall(call)) => RValue::Select(
                Select::MethodCall(
                    MethodCall {
                        value: Box::new((*call.value).clone()),
                        method: call.method.clone(),
                        arguments: copy_rvalues(&call.arguments),
                    },
                ),
            ),
        };
        proof {
            nodes::rvalue_node(*self);
            nodes::rvalue_node(copy);
        }
        copy
    }
}

impl Clone for LValue {
    fn clone(&self) -> (copy: Self)
        ensures
            copy@ == self@,
        decreases self,
    {
        let copy = match self {
            LValue::Local(local) => LValue::Local(*local),
            LValue::Global(global) => LValue::Global(global.clone()),
            LValue::Index(index) => LValue::Index(
                Index {
                    left: Box::new((*index.left).clone()),
                    right: Box::new((*index.right).clone()),
                },
            ),
        };
        proof {
            nodes::lvalue_node(*self);
            nodes::lvalue_node(copy);
        }
        copy
    }
}

impl Clone for Assign {
    fn clone(&self) -> (copy: Self)
        ensures
            copy@ == self@,
        decreases self,
    {
        let copy = Assign {
            left: copy_lvalues(&self.left),
            right: copy_rvalues(&self.right),
            prefix: self.prefix,
            parallel: self.parallel,
        };
        proof {
            nodes::assign_node(*self);
            nodes::assign_node(copy);
        }
        copy
    }
}

impl Clone for Statement {
    #[verifier::rlimit(30)]
    fn clone(&self) -> (copy: Self)
        ensures
            copy@ == self@,
        decreases self,
    {
        let copy = match self {
            Statement::Empty(empty) => Statement::Empty(*empty),
            Statement::Call(call) => Statement::Call(
                Call {
                    value: Box::new((*call.value).clone()),
                    arguments: copy_rvalues(&call.arguments),
                },
            ),
            Statement::MethodCall(call) => Statement::MethodCall(
                MethodCall {
                    value: Box::new((*call.value).clone()),
                    method: call.method.clone(),
                    arguments: copy_rvalues(&call.arguments),
                },
            ),
            Statement::Assign(assign) => Statement::Assign(assign.clone()),
            Statement::If(branch) => Statement::If(
                If {
                    condition: branch.condition.clone(),
                    then_block: Block(copy_statements(&branch.then_block.0)),
                    else_block: Block(copy_statements(&branch.else_block.0)),
                },
            ),
            Statement::While(each) => Statement::While(
                While {
                    condition: each.condition.clone(),
                    block: Block(copy_statements(&each.block.0)),
                },
            ),
            Statement::Repeat(each) => Statement::Repeat(
                Repeat {
                    condition: each.condition.clone(),
                    block: Block(copy_statements(&each.block.0)),
                },
            ),
            Statement::NumericFor(each) => Statement::NumericFor(
                NumericFor {
                    initial: each.initial.clone(),
                    limit: each.limit.clone(),
                    step: each.step.clone(),
                    counter: each.counter,
                    block: Block(copy_statements(&each.block.0)),
                },
            ),
            Statement::GenericFor(each) => Statement::GenericFor(
                GenericFor {
                    res_locals: copy_locals(&each.res_locals),
                    right: copy_rvalues(&each.right),
                    block: Block(copy_statements(&each.block.0)),
                },
            ),
            Statement::Do(scope) => Statement::Do(
                Do { block: Block(copy_statements(&scope.block.0)) },
            ),
            Statement::Break(statement) => Statement::Break(*statement),
            Statement::Continue(statement) => Statement::Continue(*statement),
            Statement::Return(returned) => Statement::Return(
                Return { values: copy_rvalues(&returned.values) },
            ),
            Statement::Goto(goto) => Statement::Goto(Goto(goto.0.clone())),
            Statement::Label(label) => Statement::Label(Label(label.0.clone())),
            Statement::Comment(comment) => Statement::Comment(
                Comment { text: comment.text.clone() },
            ),
            Statement::SetList(list) => Statement::SetList(
                SetList {
                    object_local: list.object_local,
                    index: list.index,
                    values: copy_rvalues(&list.values),
                    tail: match &list.tail {
                        Some(tail) => Some(tail.clone()),
                        None => None,
                    },
                },
            ),
            Statement::Close(close) => Statement::Close(
                Close { locals: copy_locals(&close.locals) },
            ),
            Statement::Class(class) => {
                let properties = copy_strings(&class.properties);
                proof {
                    assert(Seq::new(properties@.len(), |i: int| properties@[i]@) =~= Seq::new(
                        class.properties@.len(),
                        |i: int| class.properties@[i]@,
                    ));
                }
                Statement::Class(
                    Class {
                        target: class.target,
                        source_name: class.source_name.clone(),
                        properties,
                        methods: copy_methods(&class.methods),
                    },
                )
            },
            Statement::NumForInit(init) => Statement::NumForInit(NumForInit(init.0.clone())),
            Statement::NumForNext(next) => Statement::NumForNext(
                NumForNext {
                    counter: next.counter,
                    value: next.value.clone(),
                    limit: next.limit.clone(),
                    step: next.step.clone(),
                },
            ),
            Statement::GenericForInit(init) => Statement::GenericForInit(
                GenericForInit(init.0.clone()),
            ),
            Statement::GenericForNext(next) => Statement::GenericForNext(
                GenericForNext {
                    res_locals: copy_locals(&next.res_locals),
                    generator: next.generator.clone(),
                    state: next.state.clone(),
                },
            ),
        };
        proof {
            nodes::statement_node(*self);
            nodes::statement_node(copy);
        }
        copy
    }
}

impl Clone for Block {
    fn clone(&self) -> (copy: Self)
        ensures
            copy@ == self@,
    {
        Block(copy_statements(&self.0))
    }
}

impl Clone for Call {
    fn clone(&self) -> (copy: Self)
        ensures
            copy@ == self@,
    {
        Call { value: Box::new((*self.value).clone()), arguments: copy_rvalues(&self.arguments) }
    }
}

impl Clone for MethodCall {
    fn clone(&self) -> (copy: Self)
        ensures
            copy@ == self@,
    {
        MethodCall {
            value: Box::new((*self.value).clone()),
            method: self.method.clone(),
            arguments: copy_rvalues(&self.arguments),
        }
    }
}

impl Clone for Index {
    fn clone(&self) -> (copy: Self)
        ensures
            copy@ == self@,
    {
        Index {
            left: Box::new((*self.left).clone()),
            right: Box::new((*self.right).clone()),
        }
    }
}

impl Clone for Table {
    fn clone(&self) -> (copy: Self)
        ensures
            copy@ == self@,
    {
        Table(copy_fields(&self.0))
    }
}

impl Clone for Closure {
    fn clone(&self) -> (copy: Self)
        ensures
            copy@ == self@,
    {
        Closure {
            function: Box::new((*self.function).clone()),
            upvalues: copy_upvalues(&self.upvalues),
        }
    }
}

impl Clone for Function {
    fn clone(&self) -> (copy: Self)
        ensures
            copy@ == self@,
    {
        Function {
            id: self.id,
            name: copy_text(&self.name),
            parameters: copy_locals(&self.parameters),
            is_variadic: self.is_variadic,
            is_method: self.is_method,
            body: self.body.clone(),
        }
    }
}

} // verus!
