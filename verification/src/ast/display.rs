//! The text of each kind of node by itself.

use vstd::prelude::*;

use crate::ast::formatter::Formatter;
use crate::ast::layout::{IndentationMode, Layout};
use crate::ast::local::Locals;
use crate::ast::nodes;
use crate::ast::nodes::{
    Assign, Binary, Block, Break, Call, Class, Closure, Conditional, Do, If, Index, LValue,
    MethodCall, RValue, RValueView, Return, Statement, StatementView, Table, While,
};

verus! {

broadcast use nodes::group_views;

/// Not indented, with the names of an arena.
pub open spec fn plainly(locals: Locals) -> Layout {
    Layout { names: locals@, mode: IndentationMode::Tab, level: 0 }
}

fn plain_formatter(locals: &Locals) -> (formatter: Formatter<'_>)
    ensures
        formatter.layout() == plainly(*locals),
{
    Formatter { indentation_level: 0, indentation_mode: IndentationMode::Tab, locals }
}

impl Block {
    pub fn to_string(&self, locals: &Locals) -> (written: String)
        ensures
            written@ == plainly(*locals).block(self@),
    {
        let formatter = plain_formatter(locals);
        let mut out = String::new();
        formatter.format_block_no_indent(self, &mut out);
        proof {
            assert(out@ =~= plainly(*locals).block(self@));
        }
        out
    }
}

impl RValue {
    pub fn to_string(&self, locals: &Locals) -> (written: String)
        ensures
            written@ == plainly(*locals).value(self@),
    {
        let formatter = plain_formatter(locals);
        let mut out = String::new();
        formatter.format_rvalue(self, &mut out);
        proof {
            assert(out@ =~= plainly(*locals).value(self@));
        }
        out
    }
}

impl LValue {
    pub fn to_string(&self, locals: &Locals) -> (written: String)
        ensures
            written@ == plainly(*locals).target(self@),
    {
        let formatter = plain_formatter(locals);
        let mut out = String::new();
        formatter.format_lvalue(self, &mut out);
        proof {
            assert(out@ =~= plainly(*locals).target(self@));
        }
        out
    }
}

impl Statement {
    pub fn to_string(&self, locals: &Locals) -> (written: String)
        ensures
            written@ == plainly(*locals).statement(self@),
    {
        let formatter = plain_formatter(locals);
        let mut out = String::new();
        formatter.format_statement(self, &mut out);
        proof {
            assert(out@ =~= plainly(*locals).statement(self@));
        }
        out
    }
}

impl Assign {
    pub fn to_string(&self, locals: &Locals) -> (written: String)
        ensures
            written@ == plainly(*locals).assign(self@),
    {
        let formatter = plain_formatter(locals);
        let mut out = String::new();
        formatter.format_assign(self, &mut out);
        proof {
            assert(out@ =~= plainly(*locals).assign(self@));
        }
        out
    }
}

impl Table {
    pub fn to_string(&self, locals: &Locals) -> (written: String)
        ensures
            written@ == plainly(*locals).table(
                RValueView::unshadowed(self@),
                RValueView::is_shadowing(self@),
            ),
    {
        let formatter = plain_formatter(locals);
        let mut out = String::new();
        formatter.format_table(self, &mut out);
        proof {
            assert(out@ =~= plainly(*locals).table(
                RValueView::unshadowed(self@),
                RValueView::is_shadowing(self@),
            ));
        }
        out
    }
}

impl Call {
    pub fn to_string(&self, locals: &Locals) -> (written: String)
        ensures
            written@ == plainly(*locals).call(self@),
    {
        let formatter = plain_formatter(locals);
        let mut out = String::new();
        formatter.format_call(self, &mut out);
        proof {
            assert(out@ =~= plainly(*locals).call(self@));
        }
        out
    }
}

impl MethodCall {
    pub fn to_string(&self, locals: &Locals) -> (written: String)
        ensures
            written@ == plainly(*locals).method_call(self@),
    {
        let formatter = plain_formatter(locals);
        let mut out = String::new();
        formatter.format_method_call(self, &mut out);
        proof {
            assert(out@ =~= plainly(*locals).method_call(self@));
        }
        out
    }
}

impl Closure {
    pub fn to_string(&self, locals: &Locals) -> (written: String)
        ensures
            written@ == plainly(*locals).closure(self@),
    {
        let formatter = plain_formatter(locals);
        let mut out = String::new();
        formatter.format_closure(self, &mut out);
        proof {
            assert(out@ =~= plainly(*locals).closure(self@));
        }
        out
    }
}

impl Index {
    pub fn to_string(&self, locals: &Locals) -> (written: String)
        ensures
            written@ == plainly(*locals).index(self@),
    {
        let formatter = plain_formatter(locals);
        let mut out = String::new();
        formatter.format_index(self, &mut out);
        proof {
            assert(out@ =~= plainly(*locals).index(self@));
        }
        out
    }
}

impl Class {
    pub fn to_string(&self, locals: &Locals) -> (written: String)
        ensures
            written@ == plainly(*locals).statement(StatementView::Class(self@)),
    {
        let formatter = plain_formatter(locals);
        let mut out = String::new();
        formatter.format_class(self, &mut out);
        proof {
            assert(out@ =~= plainly(*locals).statement(StatementView::Class(self@)));
        }
        out
    }
}

impl Return {
    pub fn to_string(&self, locals: &Locals) -> (written: String)
        ensures
            written@ == plainly(*locals).statement(StatementView::Return(RValue::views(self.values@))),
    {
        let formatter = plain_formatter(locals);
        let mut out = String::new();
        formatter.format_return(&self.values, &mut out);
        proof {
            assert(out@ =~= plainly(*locals).statement(StatementView::Return(RValue::views(self.values@))));
        }
        out
    }
}

impl If {
    pub fn to_string(&self, locals: &Locals) -> (written: String)
        ensures
            written@ == plainly(*locals).statement(StatementView::If { condition: self.condition@, then_block: self.then_block@, else_block: self.else_block@ }),
    {
        let formatter = plain_formatter(locals);
        let mut out = String::new();
        formatter.format_if(self, &mut out);
        proof {
            assert(out@ =~= plainly(*locals).statement(StatementView::If { condition: self.condition@, then_block: self.then_block@, else_block: self.else_block@ }));
        }
        out
    }
}

impl While {
    pub fn to_string(&self, locals: &Locals) -> (written: String)
        ensures
            written@ == plainly(*locals).statement(StatementView::While { condition: self.condition@, block: self.block@ }),
    {
        let formatter = plain_formatter(locals);
        let mut out = String::new();
        formatter.format_while(self, &mut out);
        proof {
            assert(out@ =~= plainly(*locals).statement(StatementView::While { condition: self.condition@, block: self.block@ }));
        }
        out
    }
}

impl Do {
    pub fn to_string(&self, locals: &Locals) -> (written: String)
        ensures
            written@ == plainly(*locals).statement(StatementView::Do(self.block@)),
    {
        let formatter = plain_formatter(locals);
        let mut out = String::new();
        formatter.format_do(self, &mut out);
        proof {
            assert(out@ =~= plainly(*locals).statement(StatementView::Do(self.block@)));
        }
        out
    }
}

impl Break {
    pub fn to_string(&self) -> (written: String)
        ensures
            written@ == "break"@,
    {
        let mut out = String::new();
        out.append("break");
        proof {
            assert(out@ =~= "break"@);
        }
        out
    }
}

impl Binary {
    pub fn to_string(&self, locals: &Locals) -> (written: String)
        ensures
            written@ == plainly(*locals).value(self@),
    {
        let copy = RValue::Binary(
            Binary {
                left: Box::new((*self.left).clone()),
                right: Box::new((*self.right).clone()),
                operation: self.operation,
            },
        );
        proof {
            nodes::rvalue_node(copy);
        }
        copy.to_string(locals)
    }
}

impl Conditional {
    pub fn to_string(&self, locals: &Locals) -> (written: String)
        ensures
            written@ == plainly(*locals).value(
                RValueView::Conditional(
                    Box::new(self.condition@),
                    Box::new(self.then_value@),
                    Box::new(self.else_value@),
                ),
            ),
    {
        let copy = RValue::Conditional(
            Conditional {
                condition: Box::new((*self.condition).clone()),
                then_value: Box::new((*self.then_value).clone()),
                else_value: Box::new((*self.else_value).clone()),
            },
        );
        proof {
            nodes::rvalue_node(copy);
        }
        copy.to_string(locals)
    }
}

} // verus!
