//! How many results of a call or of `...` are wanted.

use vstd::prelude::*;

use crate::ast::nodes;
use crate::ast::nodes::{RValue, RValueView, Select, SelectView};

verus! {

broadcast use nodes::group_views;

#[derive(Clone, Copy, Debug, PartialEq, Eq, Structural)]
pub enum ResultDemand {
    Exact(usize),
    Open,
}

impl ResultDemand {
    /// Whether any result is wanted.
    pub open spec fn wants_values(self) -> bool {
        self != ResultDemand::Exact(0)
    }

    pub fn has_values(self) -> (result: bool)
        ensures
            result == self.wants_values(),
    {
        !matches!(self, ResultDemand::Exact(0))
    }
}

impl SelectView {
    /// The expression that gives all the results.
    pub open spec fn opened(self) -> RValueView {
        match self {
            SelectView::VarArg => RValueView::VarArg,
            SelectView::Call(call) => RValueView::Call(call),
            SelectView::MethodCall(call) => RValueView::MethodCall(call),
        }
    }

    /// The expression that gives the results that are wanted.
    pub open spec fn demanded(self, demand: ResultDemand) -> RValueView {
        if demand == ResultDemand::Exact(1) {
            RValueView::Select(self)
        } else {
            self.opened()
        }
    }
}

impl Select {
    /// The expression that gives the results that are wanted. A producer whose
    /// results are all discarded is a statement, not an expression.
    pub fn into_rvalue(self, demand: ResultDemand) -> (value: RValue)
        requires
            demand.wants_values(),
        ensures
            value@ == self@.demanded(demand),
    {
        let value = match demand {
            ResultDemand::Exact(1) => RValue::Select(self),
            _ => match self {
                Select::VarArg(vararg) => RValue::VarArg(vararg),
                Select::Call(call) => RValue::Call(call),
                Select::MethodCall(call) => RValue::MethodCall(call),
            },
        };
        proof {
            nodes::rvalue_node(value);
        }
        value
    }
}

} // verus!
