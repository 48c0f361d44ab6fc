//! Passes that rewrite a tree from the inside out: first what is nested in a
//! node, then the node.

use vstd::prelude::*;

use crate::ast::nodes::{
    Block, Closure, ClosureView, Function, FunctionView, RValue, RValueView, Statement,
    StatementView,
};
use crate::ast::{model, nodes, shape_laws};

verus! {

broadcast use nodes::group_views;

/// A pass over a tree, which carries what it knows and what it has noted.
pub trait BlockPass: Sized {
    /// What the pass carries.
    type Notes;

    spec fn notes(&self) -> Self::Notes;

    /// Whether the pass looks into the bodies of closures.
    spec fn enters_closures() -> bool;

    /// Whether the pass looks into bare blocks.
    spec fn enters_scopes() -> bool;

    /// An expression whose operands are rewritten already, rewritten.
    spec fn settled(value: RValueView) -> RValueView;

    /// A block whose statements are rewritten already, rewritten; and the
    /// notes past it. `looped` tells whether it is the body of a loop.
    spec fn finished(
        notes: Self::Notes,
        block: Seq<StatementView>,
        looped: bool,
    ) -> (Self::Notes, Seq<StatementView>);

    fn closures_entered() -> (result: bool)
        ensures
            result == Self::enters_closures(),
    ;

    fn scopes_entered() -> (result: bool)
        ensures
            result == Self::enters_scopes(),
    ;

    fn settle(value: RValue) -> (settled: RValue)
        ensures
            settled@ == Self::settled(value@),
    ;

    fn finish(&mut self, block: Block, looped: bool) -> (done: Block)
        ensures
            (final(self).notes(), done@) == Self::finished(old(self).notes(), block@, looped),
    ;
}

impl RValueView {
    /// This closure with another body.
    pub open spec fn with_body(self, body: Seq<StatementView>) -> RValueView {
        match self {
            RValueView::Closure(closure) => RValueView::Closure(
                ClosureView {
                    function: Box::new(FunctionView { body, ..*closure.function }),
                    upvalues: closure.upvalues,
                },
            ),
            _ => self,
        }
    }

    /// This expression rewritten by a pass.
    pub open spec fn walked<P: BlockPass>(self, notes: P::Notes) -> (P::Notes, RValueView)
        decreases self.size(), 0int, 0int,
    {
        proof {
            model::lemma_children_smaller(self);
        }
        if self is Closure {
            if P::enters_closures() {
                let (next, body) = StatementView::walked_block::<P>(self.body(), notes, false);
                (next, P::settled(self.with_body(body)))
            } else {
                (notes, P::settled(self))
            }
        } else {
            let (next, operands) = Self::walked_from::<P>(self.children(), 0, notes);
            (next, P::settled(self.with_children(operands)))
        }
    }

    /// The expressions from position `from` on rewritten by a pass.
    pub open spec fn walked_from<P: BlockPass>(
        values: Seq<RValueView>,
        from: int,
        notes: P::Notes,
    ) -> (P::Notes, Seq<RValueView>)
        decreases Self::sizes_from(values, from), 1int, 0int,
    {
        proof {
            model::lemma_sizes_step(values, from);
        }
        if 0 <= from < values.len() {
            let (next, first) = values[from].walked::<P>(notes);
            let (last, rest) = Self::walked_from::<P>(values, from + 1, next);
            (last, seq![first] + rest)
        } else {
            (notes, Seq::empty())
        }
    }
}

impl StatementView {
    /// Whether this is a loop.
    pub open spec fn is_loop(self) -> bool {
        self is While || self is Repeat || self is NumericFor || self is GenericFor
    }

    /// This statement rewritten by a pass.
    pub open spec fn walked<P: BlockPass>(self, notes: P::Notes) -> (P::Notes, StatementView)
        decreases self.size(), 0int, 0int,
    {
        proof {
            model::lemma_statement_parts(self);
        }
        let (next, roots) = RValueView::walked_from::<P>(self.roots(), 0, notes);
        if self is Do && !P::enters_scopes() {
            (next, self.with_roots(roots))
        } else {
            let (last, blocks) = Self::walked_blocks::<P>(self.blocks(), 0, next, self.is_loop());
            (last, self.with_roots(roots).with_blocks(blocks))
        }
    }

    /// The blocks from position `from` on rewritten by a pass.
    pub open spec fn walked_blocks<P: BlockPass>(
        blocks: Seq<Seq<StatementView>>,
        from: int,
        notes: P::Notes,
        looped: bool,
    ) -> (P::Notes, Seq<Seq<StatementView>>)
        decreases Self::block_sizes_from(blocks, from), 3int, blocks.len() - from,
    {
        if 0 <= from < blocks.len() {
            let (next, first) = Self::walked_block::<P>(blocks[from], notes, looped);
            let (last, rest) = Self::walked_blocks::<P>(blocks, from + 1, next, looped);
            (last, seq![first] + rest)
        } else {
            (notes, Seq::empty())
        }
    }

    /// A block rewritten by a pass.
    pub open spec fn walked_block<P: BlockPass>(
        block: Seq<StatementView>,
        notes: P::Notes,
        looped: bool,
    ) -> (P::Notes, Seq<StatementView>)
        decreases Self::sizes_from(block, 0), 2int, 0int,
    {
        let (next, statements) = Self::walked_from::<P>(block, 0, notes);
        P::finished(next, statements, looped)
    }

    /// The statements from position `from` on rewritten by a pass.
    pub open spec fn walked_from<P: BlockPass>(
        statements: Seq<StatementView>,
        from: int,
        notes: P::Notes,
    ) -> (P::Notes, Seq<StatementView>)
        decreases Self::sizes_from(statements, from), 1int, 0int,
    {
        proof {
            model::lemma_statement_sizes_step(statements, from);
        }
        if 0 <= from < statements.len() {
            let (next, first) = statements[from].walked::<P>(notes);
            let (last, rest) = Self::walked_from::<P>(statements, from + 1, next);
            (last, seq![first] + rest)
        } else {
            (notes, Seq::empty())
        }
    }
}

proof fn lemma_walked_count<P: BlockPass>(values: Seq<RValueView>, from: int, notes: P::Notes)
    requires
        0 <= from <= values.len(),
    ensures
        RValueView::walked_from::<P>(values, from, notes).1.len() == values.len() - from,
    decreases values.len() - from,
{
    if from < values.len() {
        let (next, first) = values[from].walked::<P>(notes);
        lemma_walked_count::<P>(values, from + 1, next);
    }
}

proof fn lemma_walked_block_count<P: BlockPass>(
    blocks: Seq<Seq<StatementView>>,
    from: int,
    notes: P::Notes,
    looped: bool,
)
    requires
        0 <= from <= blocks.len(),
    ensures
        StatementView::walked_blocks::<P>(blocks, from, notes, looped).1.len() == blocks.len()
            - from,
    decreases blocks.len() - from,
{
    if from < blocks.len() {
        let (next, first) = StatementView::walked_block::<P>(blocks[from], notes, looped);
        lemma_walked_block_count::<P>(blocks, from + 1, next, looped);
    }
}

fn walk_value<P: BlockPass>(value: RValue, pass: &mut P) -> (walked: RValue)
    ensures
        (final(pass).notes(), walked@) == value@.walked::<P>(old(pass).notes()),
    decreases value@.size(), 0int, 0int,
{
    let ghost whole = value@;
    let ghost start = pass.notes();
    proof {
        nodes::rvalue_node(value);
        model::lemma_children_smaller(whole);
    }
    match value {
        RValue::Closure(closure) => {
            if P::closures_entered() {
                let Closure { function, upvalues } = closure;
                let Function { id, name, parameters, is_variadic, is_method, body } = *function;
                let body = walk_block(body, pass, false);
                let walked = RValue::Closure(
                    Closure {
                        function: Box::new(
                            Function { id, name, parameters, is_variadic, is_method, body },
                        ),
                        upvalues,
                    },
                );
                proof {
                    nodes::rvalue_node(walked);
                    let (next, inside) = StatementView::walked_block::<P>(
                        whole.body(),
                        start,
                        false,
                    );
                    assert(walked@ =~= whole.with_body(inside));
                }
                P::settle(walked)
            } else {
                P::settle(RValue::Closure(closure))
            }
        },
        other => {
            let (shell, operands) = other.decompose();
            proof {
                lemma_walked_count::<P>(whole.children(), 0, start);
                assert forall|count: int| count == whole.children().len() implies shell@.takes(
                    count,
                ) by {
                }
            }
            let operands = walk_values(operands, pass);
            let ghost given = RValue::views(operands@);
            proof {
                assert(operands@.len() == given.len());
                assert(whole.takes(operands@.len() as int));
                assert(shell@.takes(operands@.len() as int));
            }
            let walked = shell.compose(operands);
            proof {
                assert(walked@ == whole.with_children(given));
            }
            P::settle(walked)
        },
    }
}

fn walk_values<P: BlockPass>(values: Vec<RValue>, pass: &mut P) -> (walked: Vec<RValue>)
    ensures
        (final(pass).notes(), RValue::views(walked@)) == RValueView::walked_from::<P>(
            RValue::views(values@),
            0,
            old(pass).notes(),
        ),
    decreases RValueView::sizes_from(RValue::views(values@), 0), 1int, 0int,
{
    let ghost views = RValue::views(values@);
    let ghost whole = RValueView::walked_from::<P>(views, 0, pass.notes());
    let count: usize = values.len();
    let mut rest = values;
    let mut walked: Vec<RValue> = Vec::new();
    let mut index: usize = 0;
    proof {
        assert(RValue::views(walked@) + whole.1 =~= whole.1);
    }
    while index < count
        invariant
            index <= count == views.len(),
            rest@.len() == count - index,
            RValue::views(rest@) =~= views.skip(index as int),
            views == RValue::views(values@),
            ({
                let (last, remaining) = RValueView::walked_from::<P>(
                    views,
                    index as int,
                    pass.notes(),
                );
                whole == (last, RValue::views(walked@) + remaining)
            }),
        decreases count - index,
    {
        let ghost before = RValue::views(rest@);
        let ghost held = RValue::views(walked@);
        let ghost notes = pass.notes();
        let value = rest.remove(0);
        proof {
            assert(before[0] == views[index as int]);
            assert(RValue::views(rest@) =~= before.skip(1));
            model::lemma_sizes_member(views, 0, index as int);
        }
        let value = walk_value(value, pass);
        let ghost put = value@;
        walked.push(value);
        proof {
            let (last, remaining) = RValueView::walked_from::<P>(views, index as int, notes);
            let (_, fewer) = RValueView::walked_from::<P>(views, index + 1, pass.notes());
            assert(remaining =~= seq![put] + fewer);
            assert(RValue::views(walked@) + fewer =~= held + remaining);
        }
        index += 1;
    }
    proof {
        assert(RValue::views(walked@) + Seq::<RValueView>::empty() =~= RValue::views(walked@));
    }
    walked
}

fn walk_statement<P: BlockPass>(statement: Statement, pass: &mut P) -> (walked: Statement)
    ensures
        (final(pass).notes(), walked@) == statement@.walked::<P>(old(pass).notes()),
    decreases statement@.size(), 0int, 0int,
{
    let ghost whole = statement@;
    let ghost start = pass.notes();
    proof {
        nodes::statement_node(statement);
        model::lemma_statement_parts(whole);
    }
    let bare = matches!(statement, Statement::Do(_));
    let looped = matches!(
        statement,
        Statement::While(_) | Statement::Repeat(_) | Statement::NumericFor(_)
        | Statement::GenericFor(_)
    );
    let (shell, roots, blocks) = statement.decompose();
    proof {
        lemma_walked_count::<P>(whole.roots(), 0, start);
    }
    let roots = walk_values(roots, pass);
    let ghost given = RValue::views(roots@);
    let ghost next = pass.notes();
    let blocks = if bare && !P::scopes_entered() {
        blocks
    } else {
        proof {
            lemma_walked_block_count::<P>(whole.blocks(), 0, next, whole.is_loop());
        }
        walk_blocks(blocks, pass, looped)
    };
    proof {
        assert(roots@.len() == given.len());
        assert(whole.takes(roots@.len() as int));
        assert(blocks@.len() == Block::views(blocks@).len());
        shape_laws::given_roots(whole, given);
        shape_laws::same_blocks(whole.with_roots(given));
    }
    shell.compose(roots, blocks)
}

fn walk_blocks<P: BlockPass>(blocks: Vec<Block>, pass: &mut P, looped: bool) -> (walked: Vec<Block>)
    ensures
        (final(pass).notes(), Block::views(walked@)) == StatementView::walked_blocks::<P>(
            Block::views(blocks@),
            0,
            old(pass).notes(),
            looped,
        ),
    decreases StatementView::block_sizes_from(Block::views(blocks@), 0), 3int, blocks@.len(),
{
    let ghost views = Block::views(blocks@);
    let ghost whole = StatementView::walked_blocks::<P>(views, 0, pass.notes(), looped);
    let count: usize = blocks.len();
    let mut rest = blocks;
    let mut walked: Vec<Block> = Vec::new();
    let mut index: usize = 0;
    proof {
        assert(Block::views(walked@) + whole.1 =~= whole.1);
    }
    while index < count
        invariant
            index <= count == views.len(),
            rest@.len() == count - index,
            Block::views(rest@) =~= views.skip(index as int),
            views == Block::views(blocks@),
            ({
                let (last, remaining) = StatementView::walked_blocks::<P>(
                    views,
                    index as int,
                    pass.notes(),
                    looped,
                );
                whole == (last, Block::views(walked@) + remaining)
            }),
        decreases count - index,
    {
        let ghost before = Block::views(rest@);
        let ghost held = Block::views(walked@);
        let ghost notes = pass.notes();
        let block = rest.remove(0);
        proof {
            assert(before[0] == views[index as int]);
            assert(Block::views(rest@) =~= before.skip(1));
            model::lemma_block_sizes_member(views, 0, index as int);
        }
        let block = walk_block(block, pass, looped);
        let ghost put = block@;
        walked.push(block);
        proof {
            let (last, remaining) = StatementView::walked_blocks::<P>(
                views,
                index as int,
                notes,
                looped,
            );
            let (_, fewer) = StatementView::walked_blocks::<P>(
                views,
                index + 1,
                pass.notes(),
                looped,
            );
            assert(remaining =~= seq![put] + fewer);
            assert(Block::views(walked@) + fewer =~= held + remaining);
        }
        index += 1;
    }
    proof {
        assert(Block::views(walked@) + Seq::<Seq<StatementView>>::empty() =~= Block::views(walked@));
    }
    walked
}

/// Rewrites a block by a pass.
pub fn walk_block<P: BlockPass>(block: Block, pass: &mut P, looped: bool) -> (walked: Block)
    ensures
        (final(pass).notes(), walked@) == StatementView::walked_block::<P>(
            block@,
            old(pass).notes(),
            looped,
        ),
    decreases StatementView::sizes_from(block@, 0), 2int, 0int,
{
    let ghost views = block@;
    let ghost whole = StatementView::walked_from::<P>(views, 0, pass.notes());
    let mut rest = block.0;
    let count: usize = rest.len();
    let mut walked: Vec<Statement> = Vec::new();
    let mut index: usize = 0;
    proof {
        assert(Statement::views(walked@) + whole.1 =~= whole.1);
    }
    while index < count
        invariant
            index <= count == views.len(),
            rest@.len() == count - index,
            Statement::views(rest@) =~= views.skip(index as int),
            views == block@,
            ({
                let (last, remaining) = StatementView::walked_from::<P>(
                    views,
                    index as int,
                    pass.notes(),
                );
                whole == (last, Statement::views(walked@) + remaining)
            }),
        decreases count - index,
    {
        let ghost before = Statement::views(rest@);
        let ghost held = Statement::views(walked@);
        let ghost notes = pass.notes();
        let statement = rest.remove(0);
        proof {
            assert(before[0] == views[index as int]);
            assert(Statement::views(rest@) =~= before.skip(1));
            model::lemma_statement_sizes_member(views, 0, index as int);
        }
        let statement = walk_statement(statement, pass);
        let ghost put = statement@;
        walked.push(statement);
        proof {
            let (last, remaining) = StatementView::walked_from::<P>(views, index as int, notes);
            let (_, fewer) = StatementView::walked_from::<P>(views, index + 1, pass.notes());
            assert(remaining =~= seq![put] + fewer);
            assert(Statement::views(walked@) + fewer =~= held + remaining);
        }
        index += 1;
    }
    let walked = Block(walked);
    proof {
        assert(walked@ + Seq::<StatementView>::empty() =~= walked@);
    }
    pass.finish(walked, looped)
}

} // verus!
