//! The edges between the blocks of a function.

use vstd::prelude::*;

use crate::ast::local::RcLocal;
use crate::ast::nodes;
use crate::ast::nodes::{RValue, RValueView};
use crate::ast::LocalRw;

verus! {

broadcast use nodes::group_views;

/// When an edge is taken.
#[derive(Debug, Clone, Copy, PartialEq, Eq, Structural)]
pub enum BranchType {
    Unconditional,
    Then,
    Else,
}

/// An edge between blocks, with the values that it gives to the parameters of
/// the block it enters.
#[derive(Debug)]
pub struct BlockEdge {
    pub branch_type: BranchType,
    pub arguments: Vec<(RcLocal, RValue)>,
}

/// The model of an edge between blocks.
#[verifier::ext_equal]
pub struct EdgeView {
    pub id: u32,
    pub source: u32,
    pub target: u32,
    pub branch: BranchType,
    pub arguments: Seq<(RcLocal, RValueView)>,
}

impl EdgeView {
    /// The edges that leave a block, the one added last first.
    pub open spec fn leaving(edges: Seq<EdgeView>, node: u32) -> Seq<EdgeView>
        decreases edges.len(),
    {
        if edges.len() == 0 {
            edges
        } else if edges.last().source == node {
            seq![edges.last()] + Self::leaving(edges.drop_last(), node)
        } else {
            Self::leaving(edges.drop_last(), node)
        }
    }

    /// The edges that enter a block, the one added last first.
    pub open spec fn entering(edges: Seq<EdgeView>, node: u32) -> Seq<EdgeView>
        decreases edges.len(),
    {
        if edges.len() == 0 {
            edges
        } else if edges.last().target == node {
            seq![edges.last()] + Self::entering(edges.drop_last(), node)
        } else {
            Self::entering(edges.drop_last(), node)
        }
    }

    /// The edges that neither leave nor enter a block.
    pub open spec fn avoiding(edges: Seq<EdgeView>, node: u32) -> Seq<EdgeView>
        decreases edges.len(),
    {
        if edges.len() == 0 {
            edges
        } else if edges.last().source == node || edges.last().target == node {
            Self::avoiding(edges.drop_last(), node)
        } else {
            Self::avoiding(edges.drop_last(), node).push(edges.last())
        }
    }

    /// The edges that leave other blocks.
    pub open spec fn leaving_others(edges: Seq<EdgeView>, node: u32) -> Seq<EdgeView>
        decreases edges.len(),
    {
        if edges.len() == 0 {
            edges
        } else if edges.last().source == node {
            Self::leaving_others(edges.drop_last(), node)
        } else {
            Self::leaving_others(edges.drop_last(), node).push(edges.last())
        }
    }

    /// The locals that the arguments from position `from` on read.
    pub open spec fn argument_reads_from(
        arguments: Seq<(RcLocal, RValueView)>,
        from: int,
    ) -> Seq<RcLocal>
        decreases arguments.len() - from,
    {
        if 0 <= from < arguments.len() {
            arguments[from].1.reads() + Self::argument_reads_from(arguments, from + 1)
        } else {
            Seq::empty()
        }
    }
}

impl BlockEdge {
    /// The models of a list of arguments.
    pub open spec fn argument_views(arguments: Seq<(RcLocal, RValue)>) -> Seq<
        (RcLocal, RValueView),
    > {
        Seq::new(arguments.len(), |i: int| (arguments[i].0, arguments[i].1@))
    }

    pub fn new(branch_type: BranchType) -> (edge: Self)
        ensures
            edge.branch_type == branch_type,
            Self::argument_views(edge.arguments@) == Seq::<(RcLocal, RValueView)>::empty(),
    {
        let edge = BlockEdge { branch_type, arguments: Vec::new() };
        proof {
            assert(Self::argument_views(edge.arguments@) =~= Seq::empty());
        }
        edge
    }

    /// Appends the locals that the arguments read.
    pub fn push_reads(&self, locals: &mut Vec<RcLocal>)
        ensures
            final(locals)@ == old(locals)@ + EdgeView::argument_reads_from(
                Self::argument_views(self.arguments@),
                0,
            ),
    {
        let ghost views = Self::argument_views(self.arguments@);
        let mut index: usize = 0;
        while index < self.arguments.len()
            invariant
                index <= self.arguments.len(),
                views == Self::argument_views(self.arguments@),
                locals@ + EdgeView::argument_reads_from(views, index as int) =~= old(locals)@
                    + EdgeView::argument_reads_from(views, 0),
            decreases self.arguments.len() - index,
        {
            let mut read = self.arguments[index].1.values_read();
            locals.append(&mut read);
            index += 1;
        }
    }
}

impl Default for BlockEdge {
    /// An edge that is always taken, with no arguments.
    fn default() -> (edge: Self)
        ensures
            edge.branch_type == BranchType::Unconditional,
            edge.arguments@ == Seq::<(RcLocal, RValue)>::empty(),
    {
        BlockEdge { branch_type: BranchType::Unconditional, arguments: Vec::new() }
    }
}

impl Clone for BlockEdge {
    fn clone(&self) -> (copy: Self)
        ensures
            copy.branch_type == self.branch_type,
            Self::argument_views(copy.arguments@) == Self::argument_views(self.arguments@),
    {
        let ghost views = Self::argument_views(self.arguments@);
        let mut arguments: Vec<(RcLocal, RValue)> = Vec::new();
        let mut index: usize = 0;
        while index < self.arguments.len()
            invariant
                index <= self.arguments.len(),
                views == Self::argument_views(self.arguments@),
                arguments@.len() == index,
                forall|i: int|
                    0 <= i < index ==> (arguments@[i].0, (#[trigger] arguments@[i]).1@) == views[i],
            decreases self.arguments.len() - index,
        {
            arguments.push((self.arguments[index].0, self.arguments[index].1.clone()));
            index += 1;
        }
        proof {
            assert(Self::argument_views(arguments@) =~= views);
        }
        BlockEdge { branch_type: self.branch_type, arguments }
    }
}

} // verus!
