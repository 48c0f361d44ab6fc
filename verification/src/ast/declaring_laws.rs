//! That declaring locals changes nothing but where they are declared.

use vstd::prelude::*;

use crate::ast::local::RcLocal;
use crate::ast::local_declarations;
use crate::ast::local_declarations::Usage;
use crate::ast::nodes::{AssignView, StatementView};
use crate::ast::{model, shape_laws};

verus! {

impl StatementView {
    /// This statement and those in it without the marks that they declare
    /// their targets, and without declarations that give no value.
    pub open spec fn bared(self) -> Seq<StatementView>
        decreases self.size(), 0int, 0int,
    {
        proof {
            model::lemma_statement_parts(self);
        }
        match self {
            StatementView::Assign(assign) if assign.right.len() == 0 => Seq::empty(),
            _ => seq![self.with_blocks(Self::bared_blocks(self.blocks(), 0)).undeclared()],
        }
    }

    /// The statements from position `from` on without them.
    pub open spec fn bared_from(statements: Seq<StatementView>, from: int) -> Seq<StatementView>
        decreases Self::sizes_from(statements, from), 1int, 0int,
    {
        proof {
            model::lemma_statement_sizes_step(statements, from);
        }
        if 0 <= from < statements.len() {
            statements[from].bared() + Self::bared_from(statements, from + 1)
        } else {
            Seq::empty()
        }
    }

    /// The blocks from position `from` on without them.
    pub open spec fn bared_blocks(blocks: Seq<Seq<StatementView>>, from: int) -> Seq<
        Seq<StatementView>,
    >
        decreases Self::block_sizes_from(blocks, from), 2int, blocks.len() - from,
    {
        if 0 <= from < blocks.len() {
            seq![Self::bared_from(blocks[from], 0)] + Self::bared_blocks(blocks, from + 1)
        } else {
            Seq::empty()
        }
    }
}

proof fn lemma_blocks_shift(
    block: Seq<StatementView>,
    blocks: Seq<Seq<StatementView>>,
    from: int,
)
    requires
        0 <= from,
    ensures
        StatementView::bared_blocks(seq![block] + blocks, from + 1) == StatementView::bared_blocks(
            blocks,
            from,
        ),
    decreases blocks.len() - from,
{
    if from < blocks.len() {
        lemma_blocks_shift(block, blocks, from + 1);
        assert((seq![block] + blocks)[from + 1] == blocks[from]);
    }
}

proof fn lemma_skip(statements: Seq<StatementView>, by: int, from: int)
    requires
        0 <= by <= statements.len(),
        0 <= from,
    ensures
        StatementView::bared_from(statements.skip(by), from) == StatementView::bared_from(
            statements,
            by + from,
        ),
    decreases statements.len() - by - from,
{
    if by + from < statements.len() {
        lemma_skip(statements, by, from + 1);
        assert(statements.skip(by)[from] == statements[by + from]);
    }
}

proof fn lemma_join(left: Seq<StatementView>, right: Seq<StatementView>)
    ensures
        StatementView::bared_from(left + right, 0) == StatementView::bared_from(left, 0)
            + StatementView::bared_from(right, 0),
    decreases left.len(),
{
    if left.len() == 0 {
        assert(left + right =~= right);
        assert(StatementView::bared_from(left, 0) + StatementView::bared_from(right, 0)
            =~= StatementView::bared_from(right, 0));
    } else {
        let rest = left.skip(1);
        lemma_join(rest, right);
        lemma_skip(left, 1, 0);
        lemma_skip(left + right, 1, 0);
        assert((left + right).skip(1) =~= rest + right);
        assert((left + right)[0] == left[0]);
        assert(StatementView::bared_from(left + right, 0) =~= StatementView::bared_from(left, 0)
            + StatementView::bared_from(right, 0));
    }
}

proof fn lemma_single(statement: StatementView)
    ensures
        StatementView::bared_from(seq![statement], 0) == statement.bared(),
{
    assert(StatementView::bared_from(seq![statement], 1) =~= Seq::empty());
    assert(seq![statement][0] == statement);
    assert(StatementView::bared_from(seq![statement], 0) =~= statement.bared());
}

proof fn lemma_bare(locals: Seq<RcLocal>)
    ensures
        StatementView::bared_from(local_declarations::bare_declaration(locals), 0) == Seq::<
            StatementView,
        >::empty(),
{
    let bare = local_declarations::bare_declaration(locals);
    if locals.len() > 0 {
        lemma_single(bare[0]);
        assert(bare =~= seq![bare[0]]);
    }
}

proof fn lemma_opened(statement: StatementView, locals: Seq<RcLocal>)
    ensures
        StatementView::bared_from(local_declarations::opened(statement, locals), 0)
            == statement.bared(),
{
    lemma_single(statement);
    if locals.len() > 0 {
        let (bare, last) = if local_declarations::can_declare(statement, locals) {
            let assign = statement->Assign_0;
            (
                local_declarations::bare_declaration(
                    local_declarations::not_targeted(locals, 0, assign.left),
                ),
                StatementView::Assign(
                    AssignView { prefix: true, ..assign },
                ),
            )
        } else {
            (local_declarations::bare_declaration(locals), statement)
        };
        if local_declarations::can_declare(statement, locals) {
            lemma_bare(
                local_declarations::not_targeted(locals, 0, (statement->Assign_0).left),
            );
        } else {
            lemma_bare(locals);
        }
        assert(local_declarations::opened(statement, locals) =~= bare + seq![last]);
        lemma_join(bare, seq![last]);
        lemma_single(last);
        assert(last.bared() == statement.bared());
        assert(Seq::<StatementView>::empty() + statement.bared() =~= statement.bared());
    }
}

proof fn lemma_opened_from(
    statements: Seq<StatementView>,
    from: int,
    node: usize,
    placements: Seq<Usage>,
)
    requires
        0 <= from <= statements.len(),
    ensures
        StatementView::bared_from(
            local_declarations::opened_from(statements, from, node, placements),
            0,
        ) == StatementView::bared_from(statements, from),
    decreases statements.len() - from,
{
    let locals = local_declarations::declared_at(placements, 0, node, from as usize);
    if from < statements.len() {
        lemma_opened(statements[from], locals);
        lemma_opened_from(statements, from + 1, node, placements);
        lemma_join(
            local_declarations::opened(statements[from], locals),
            local_declarations::opened_from(statements, from + 1, node, placements),
        );
    } else {
        lemma_bare(locals);
    }
}

proof fn lemma_statement(statement: StatementView, number: nat, placements: Seq<Usage>)
    ensures
        statement.declared_in(number, placements).1.bared() == statement.bared(),
    decreases statement.size(), 0int, 0int,
{
    model::lemma_statement_parts(statement);
    if !(statement is Do) {
        let first = if statement is If {
            number + 1
        } else {
            number
        };
        let blocks = StatementView::blocks_declared_in(
            statement.blocks(),
            0,
            first,
            placements,
        ).1;
        lemma_blocks(statement.blocks(), 0, first, placements);
        shape_laws::given_blocks(statement, blocks);
        assert(statement.with_blocks(blocks).with_blocks(
            StatementView::bared_blocks(statement.blocks(), 0),
        ) == statement.with_blocks(StatementView::bared_blocks(statement.blocks(), 0)));
    }
}

proof fn lemma_blocks(
    blocks: Seq<Seq<StatementView>>,
    from: int,
    number: nat,
    placements: Seq<Usage>,
)
    requires
        0 <= from <= blocks.len(),
    ensures
        ({
            let made = StatementView::blocks_declared_in(blocks, from, number, placements).1;
            &&& made.len() == blocks.len() - from
            &&& StatementView::bared_blocks(made, 0) == StatementView::bared_blocks(blocks, from)
        }),
    decreases StatementView::block_sizes_from(blocks, from), 3int, blocks.len() - from,
{
    if from < blocks.len() {
        let (next, first) = StatementView::block_declared_in(blocks[from], number, placements);
        let rest = StatementView::blocks_declared_in(blocks, from + 1, next, placements).1;
        lemma_block(blocks[from], number, placements);
        lemma_blocks(blocks, from + 1, next, placements);
        lemma_blocks_shift(first, rest, 0);
        assert((seq![first] + rest)[0] == first);
    }
}

proof fn lemma_block(block: Seq<StatementView>, number: nat, placements: Seq<Usage>)
    ensures
        StatementView::bared_from(
            StatementView::block_declared_in(block, number, placements).1,
            0,
        ) == StatementView::bared_from(block, 0),
    decreases StatementView::sizes_from(block, 0), 2int, 0int,
{
    let statements = StatementView::declared_in_from(block, 0, number + 1, placements).1;
    lemma_statements(block, 0, number + 1, placements);
    lemma_opened_from(statements, 0, number as usize, placements);
}

proof fn lemma_statements(
    statements: Seq<StatementView>,
    from: int,
    number: nat,
    placements: Seq<Usage>,
)
    requires
        0 <= from <= statements.len(),
    ensures
        StatementView::bared_from(
            StatementView::declared_in_from(statements, from, number, placements).1,
            0,
        ) == StatementView::bared_from(statements, from),
    decreases StatementView::sizes_from(statements, from), 1int, 0int,
{
    model::lemma_statement_sizes_step(statements, from);
    if from < statements.len() {
        let (next, first) = statements[from].declared_in(number, placements);
        let rest = StatementView::declared_in_from(statements, from + 1, next, placements).1;
        lemma_statement(statements[from], number, placements);
        lemma_statements(statements, from + 1, next, placements);
        lemma_join(seq![first], rest);
        lemma_single(first);
    }
}

/// Declaring the locals of a tree moves no statement and changes none: once
/// declarations without values and the marks of the others are set aside, the
/// tree is what it was.
pub proof fn declaring_is_lexical(block: Seq<StatementView>, ignored: Set<u64>)
    ensures
        StatementView::bared_from(local_declarations::with_locals_declared(block, ignored), 0)
            == StatementView::bared_from(block, 0),
{
    let table = StatementView::block_visited(block, 0, 0, local_declarations::ScopeTable::empty());
    lemma_block(block, 0, local_declarations::placements(table, ignored));
}

} // verus!
