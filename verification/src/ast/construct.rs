//! Building nodes, and looking into them.

use vstd::prelude::*;

use crate::ast::literal::Literal;
use crate::ast::local::RcLocal;
use crate::ast::nodes;
use crate::ast::nodes::{
    Assign, AssignView, Block, Call, CallView, Class, ClassView, Comment, Conditional, Do,
    Function, FunctionView, GenericFor, If, Index, IndexView, LValue, LValueView, MethodCall,
    MethodCallView, NumericFor, RValue, RValueView, Repeat, Return, SetList, Statement,
    StatementView, Table, Unary, UnaryOperation, While,
};

verus! {

broadcast use nodes::group_views;

impl Unary {
    pub fn new(value: RValue, operation: UnaryOperation) -> (unary: Self)
        ensures
            unary.value@ == value@,
            unary.operation == operation,
    {
        Unary { value: Box::new(value), operation }
    }
}

impl Conditional {
    pub fn new(condition: RValue, then_value: RValue, else_value: RValue) -> (conditional: Self)
        ensures
            conditional.condition@ == condition@,
            conditional.then_value@ == then_value@,
            conditional.else_value@ == else_value@,
    {
        Conditional {
            condition: Box::new(condition),
            then_value: Box::new(then_value),
            else_value: Box::new(else_value),
        }
    }
}

impl Index {
    pub fn new(left: RValue, right: RValue) -> (index: Self)
        ensures
            index@ == (IndexView { left: Box::new(left@), right: Box::new(right@) }),
    {
        Index { left: Box::new(left), right: Box::new(right) }
    }
}

impl Call {
    pub fn new(value: RValue, arguments: Vec<RValue>) -> (call: Self)
        ensures
            call@ == (CallView {
                value: Box::new(value@),
                arguments: RValue::views(arguments@),
            }),
    {
        Call { value: Box::new(value), arguments }
    }
}

impl MethodCall {
    pub fn new(value: RValue, method: String, arguments: Vec<RValue>) -> (call: Self)
        ensures
            call@ == (MethodCallView {
                value: Box::new(value@),
                method: method@,
                arguments: RValue::views(arguments@),
            }),
    {
        MethodCall { value: Box::new(value), method, arguments }
    }
}

impl Assign {
    pub fn new(left: Vec<LValue>, right: Vec<RValue>) -> (assign: Self)
        ensures
            assign@ == (AssignView {
                left: LValue::views(left@),
                right: RValue::views(right@),
                prefix: false,
                parallel: false,
            }),
    {
        let assign = Assign { left, right, prefix: false, parallel: false };
        proof {
            nodes::assign_node(assign);
        }
        assign
    }
}

impl If {
    pub fn new(condition: RValue, then_block: Block, else_block: Block) -> (branch: Self)
        ensures
            branch.condition == condition,
            branch.then_block == then_block,
            branch.else_block == else_block,
    {
        If { condition, then_block, else_block }
    }
}

impl While {
    pub fn new(condition: RValue, block: Block) -> (each: Self)
        ensures
            each.condition == condition,
            each.block == block,
    {
        While { condition, block }
    }
}

impl Repeat {
    pub fn new(condition: RValue, block: Block) -> (each: Self)
        ensures
            each.condition == condition,
            each.block == block,
    {
        Repeat { condition, block }
    }
}

impl NumericFor {
    pub fn new(
        initial: RValue,
        limit: RValue,
        step: RValue,
        counter: RcLocal,
        block: Block,
    ) -> (each: Self)
        ensures
            each.initial == initial,
            each.limit == limit,
            each.step == step,
            each.counter == counter,
            each.block == block,
    {
        NumericFor { initial, limit, step, counter, block }
    }
}

impl GenericFor {
    pub fn new(res_locals: Vec<RcLocal>, right: Vec<RValue>, block: Block) -> (each: Self)
        ensures
            each.res_locals == res_locals,
            each.right == right,
            each.block == block,
    {
        GenericFor { res_locals, right, block }
    }
}

impl Do {
    pub fn new(block: Block) -> (scope: Self)
        ensures
            scope.block == block,
    {
        Do { block }
    }
}

impl Return {
    pub fn new(values: Vec<RValue>) -> (returned: Self)
        ensures
            returned.values == values,
    {
        Return { values }
    }
}

impl Default for Return {
    fn default() -> (returned: Self)
        ensures
            returned.values@ == Seq::<RValue>::empty(),
    {
        Return { values: Vec::new() }
    }
}

impl Default for Table {
    fn default() -> (table: Self)
        ensures
            table@ == Seq::<(Option<RValueView>, RValueView)>::empty(),
    {
        let table = Table(Vec::new());
        proof {
            assert(table@ =~= Seq::<(Option<RValueView>, RValueView)>::empty());
        }
        table
    }
}

impl Default for Block {
    fn default() -> (block: Self)
        ensures
            block@ == Seq::<StatementView>::empty(),
    {
        let block = Block(Vec::new());
        proof {
            assert(block@ =~= Seq::<StatementView>::empty());
        }
        block
    }
}

impl Default for Function {
    fn default() -> (function: Self)
        ensures
            function@ == (FunctionView {
                id: 0,
                name: None,
                parameters: Seq::empty(),
                is_variadic: false,
                is_method: false,
                body: Seq::empty(),
            }),
    {
        let function = Function {
            id: 0,
            name: None,
            parameters: Vec::new(),
            is_variadic: false,
            is_method: false,
            body: Block(Vec::new()),
        };
        proof {
            assert(function.body@ =~= Seq::<StatementView>::empty());
        }
        function
    }
}

impl Comment {
    pub fn new(text: String) -> (comment: Self)
        ensures
            comment.text == text,
    {
        Comment { text }
    }
}

impl SetList {
    pub fn new(
        object_local: RcLocal,
        index: usize,
        values: Vec<RValue>,
        tail: Option<RValue>,
    ) -> (list: Self)
        ensures
            list.object_local == object_local,
            list.index == index,
            list.values == values,
            list.tail == tail,
    {
        SetList { object_local, index, values, tail }
    }
}

impl Class {
    pub fn new(target: RcLocal, source_name: String, properties: Vec<String>) -> (class: Self)
        ensures
            class@ == (ClassView {
                target,
                source_name: source_name@,
                properties: Seq::new(properties@.len(), |i: int| properties@[i]@),
                methods: Seq::empty(),
            }),
    {
        let class = Class { target, source_name, properties, methods: Vec::new() };
        proof {
            assert(class@.methods =~= Seq::<(Seq<char>, RValueView)>::empty());
        }
        class
    }
}

impl Block {
    pub fn len(&self) -> (length: usize)
        ensures
            length == self@.len(),
    {
        self.0.len()
    }

    pub fn is_empty(&self) -> (result: bool)
        ensures
            result == (self@.len() == 0),
    {
        self.0.len() == 0
    }

    pub fn push(&mut self, statement: Statement)
        ensures
            final(self)@ == old(self)@.push(statement@),
    {
        self.0.push(statement);
    }
}

impl Statement {
    pub fn as_assign(&self) -> (assign: Option<&Assign>)
        ensures
            match assign {
                Some(assign) => self@ == StatementView::Assign(assign@),
                None => !(self@ is Assign),
            },
    {
        proof {
            nodes::statement_node(*self);
        }
        match self {
            Statement::Assign(assign) => Some(assign),
            _ => None,
        }
    }
}

impl LValue {
    pub fn as_local(&self) -> (local: Option<RcLocal>)
        ensures
            local == match self@ {
                LValueView::Local(local) => Some(local),
                _ => None,
            },
    {
        proof {
            nodes::lvalue_node(*self);
        }
        match self {
            LValue::Local(local) => Some(*local),
            _ => None,
        }
    }
}

impl RValue {
    pub fn as_local(&self) -> (local: Option<RcLocal>)
        ensures
            local == match self@ {
                RValueView::Local(local) => Some(local),
                _ => None,
            },
    {
        proof {
            nodes::rvalue_node(*self);
        }
        match self {
            RValue::Local(local) => Some(*local),
            _ => None,
        }
    }

    /// The expression that reads a local.
    pub fn local(local: RcLocal) -> (value: RValue)
        ensures
            value@ == RValueView::Local(local),
    {
        let value = RValue::Local(local);
        proof {
            nodes::rvalue_node(value);
        }
        value
    }

    /// A literal constant.
    pub fn literal(literal: Literal) -> (value: RValue)
        ensures
            value@ == RValueView::Literal(literal@),
    {
        let value = RValue::Literal(literal);
        proof {
            nodes::rvalue_node(value);
        }
        value
    }
}

} // verus!
