//! What grouping declarations into scopes leaves as it is.

use vstd::prelude::*;

use crate::ast::nodes::{AssignView, RValueView, StatementView};
use crate::ast::{model, scope_narrowing, shape_laws, tally};

verus! {

impl RValueView {
    /// This expression with the scopes in the closures in it opened.
    pub open spec fn unscoped(self) -> RValueView
        decreases self.size(), 0int, 0int,
    {
        proof {
            model::lemma_children_smaller(self);
        }
        match self {
            RValueView::Closure(_) => self.with_body(StatementView::unscoped_from(self.body(), 0)),
            _ => self.with_children(Self::unscoped_from(self.children(), 0)),
        }
    }

    /// The expressions from position `from` on with the scopes in the closures
    /// in them opened.
    pub open spec fn unscoped_from(values: Seq<RValueView>, from: int) -> Seq<RValueView>
        decreases Self::sizes_from(values, from), 1int, 0int,
    {
        proof {
            model::lemma_sizes_step(values, from);
        }
        if 0 <= from < values.len() {
            seq![values[from].unscoped()] + Self::unscoped_from(values, from + 1)
        } else {
            Seq::empty()
        }
    }
}

impl StatementView {
    /// This statement without the mark that it declares its targets.
    pub open spec fn undeclared(self) -> StatementView {
        match self {
            StatementView::Assign(assign) => StatementView::Assign(
                AssignView { prefix: false, ..assign },
            ),
            _ => self,
        }
    }

    /// What a statement does, whatever scopes its locals live in: the
    /// statements of a scope stand for it, a declaration without a value is
    /// left out, and one with a value is an assignment.
    pub open spec fn unscoped(self) -> Seq<StatementView>
        decreases self.size(), 0int, 0int,
    {
        proof {
            model::lemma_statement_parts(self);
            model::lemma_nested_smaller(self);
            assert(self is Do ==> self.blocks()[0] == self->Do_0);
        }
        match self {
            StatementView::Do(block) => Self::unscoped_from(block, 0),
            StatementView::Assign(assign) if assign.prefix && assign.right.len() == 0 =>
                Seq::empty(),
            _ => seq![
                self.with_roots(RValueView::unscoped_from(self.roots(), 0)).with_blocks(
                    Self::unscoped_blocks(self.blocks(), 0),
                ).undeclared(),
            ],
        }
    }

    /// What the statements from position `from` on do.
    pub open spec fn unscoped_from(statements: Seq<StatementView>, from: int) -> Seq<StatementView>
        decreases Self::sizes_from(statements, from), 1int, 0int,
    {
        proof {
            model::lemma_statement_sizes_step(statements, from);
        }
        if 0 <= from < statements.len() {
            statements[from].unscoped() + Self::unscoped_from(statements, from + 1)
        } else {
            Seq::empty()
        }
    }

    /// What the blocks from position `from` on do.
    pub open spec fn unscoped_blocks(blocks: Seq<Seq<StatementView>>, from: int) -> Seq<
        Seq<StatementView>,
    >
        decreases Self::block_sizes_from(blocks, from), 2int, blocks.len() - from,
    {
        if 0 <= from < blocks.len() {
            seq![Self::unscoped_from(blocks[from], 0)] + Self::unscoped_blocks(blocks, from + 1)
        } else {
            Seq::empty()
        }
    }
}

proof fn lemma_values_shift(value: RValueView, values: Seq<RValueView>, from: int)
    requires
        0 <= from,
    ensures
        RValueView::unscoped_from(seq![value] + values, from + 1) == RValueView::unscoped_from(
            values,
            from,
        ),
    decreases values.len() - from,
{
    if from < values.len() {
        lemma_values_shift(value, values, from + 1);
        assert((seq![value] + values)[from + 1] == values[from]);
    }
}

proof fn lemma_blocks_shift(
    block: Seq<StatementView>,
    blocks: Seq<Seq<StatementView>>,
    from: int,
)
    requires
        0 <= from,
    ensures
        StatementView::unscoped_blocks(seq![block] + blocks, from + 1)
            == StatementView::unscoped_blocks(blocks, from),
    decreases blocks.len() - from,
{
    if from < blocks.len() {
        lemma_blocks_shift(block, blocks, from + 1);
        assert((seq![block] + blocks)[from + 1] == blocks[from]);
    }
}

proof fn lemma_skip(statements: Seq<StatementView>, by: int, from: int)
    requires
        0 <= by <= statements.len(),
        0 <= from,
    ensures
        StatementView::unscoped_from(statements.skip(by), from) == StatementView::unscoped_from(
            statements,
            by + from,
        ),
    decreases statements.len() - by - from,
{
    if by + from < statements.len() {
        lemma_skip(statements, by, from + 1);
        assert(statements.skip(by)[from] == statements[by + from]);
    }
}

/// What two lists of statements do, one after the other.
proof fn lemma_join(left: Seq<StatementView>, right: Seq<StatementView>)
    ensures
        StatementView::unscoped_from(left + right, 0) == StatementView::unscoped_from(left, 0)
            + StatementView::unscoped_from(right, 0),
    decreases left.len(),
{
    if left.len() == 0 {
        assert(left + right =~= right);
        assert(StatementView::unscoped_from(left, 0) + StatementView::unscoped_from(right, 0)
            =~= StatementView::unscoped_from(right, 0));
    } else {
        let rest = left.skip(1);
        lemma_join(rest, right);
        lemma_skip(left, 1, 0);
        lemma_skip(left + right, 1, 0);
        assert((left + right).skip(1) =~= rest + right);
        assert((left + right)[0] == left[0]);
        assert(StatementView::unscoped_from(left + right, 0) =~= StatementView::unscoped_from(
            left,
            0,
        ) + StatementView::unscoped_from(right, 0));
    }
}

proof fn lemma_single(statement: StatementView)
    ensures
        StatementView::unscoped_from(seq![statement], 0) == statement.unscoped(),
{
    assert(StatementView::unscoped_from(seq![statement], 1) =~= Seq::empty());
    assert(seq![statement][0] == statement);
    assert(StatementView::unscoped_from(seq![statement], 0) =~= statement.unscoped());
}

proof fn lemma_undeclared(assign: AssignView)
    requires
        assign.right.len() > 0,
    ensures
        StatementView::Assign(AssignView { prefix: false, ..assign }).unscoped()
            == StatementView::Assign(assign).unscoped(),
{
}

proof fn lemma_split(body: Seq<StatementView>, from: int, kept: Set<u64>)
    requires
        0 <= from <= body.len(),
    ensures
        StatementView::unscoped_from(scope_narrowing::split_from(body, from, kept), 0)
            == StatementView::unscoped_from(body, from),
    decreases body.len() - from,
{
    if from < body.len() {
        let rest = scope_narrowing::split_from(body, from + 1, kept);
        lemma_split(body, from + 1, kept);
        if scope_narrowing::declares_kept(body[from], kept) {
            let assign = body[from]->Assign_0;
            if assign.right.len() == 0 {
                assert(body[from].unscoped() =~= Seq::empty());
                assert(StatementView::unscoped_from(body, from) =~= StatementView::unscoped_from(
                    body,
                    from + 1,
                ));
            } else {
                let bare = StatementView::Assign(AssignView { prefix: false, ..assign });
                lemma_undeclared(assign);
                lemma_join(seq![bare], rest);
                lemma_single(bare);
            }
        } else {
            lemma_join(seq![body[from]], rest);
            lemma_single(body[from]);
        }
    }
}

proof fn lemma_hoisted(body: Seq<StatementView>, kept: Set<u64>)
    ensures
        StatementView::unscoped_from(scope_narrowing::hoisted(body, kept), 0) == Seq::<
            StatementView,
        >::empty(),
{
    let hoisted = scope_narrowing::hoisted(body, kept);
    if hoisted.len() > 0 {
        lemma_single(hoisted[0]);
        assert(hoisted =~= seq![hoisted[0]]);
    }
}

proof fn lemma_value(value: RValueView)
    ensures
        value.narrowed().unscoped() == value.unscoped(),
    decreases value.size(), 0int, 0int,
{
    model::lemma_children_smaller(value);
    match value {
        RValueView::Closure(closure) => {
            lemma_block(
                value.body(),
                scope_narrowing::closure_budget(closure.function.parameters.len()),
                0,
                Set::empty(),
            );
        },
        _ => {
            let operands = RValueView::narrowed_from(value.children(), 0);
            lemma_values(value.children(), 0);
            shape_laws::same_operands(value);
            shape_laws::given_operands(value, operands);
            shape_laws::regiven_operands(
                value,
                operands,
                RValueView::unscoped_from(value.children(), 0),
            );
        },
    }
}

proof fn lemma_values(values: Seq<RValueView>, from: int)
    requires
        0 <= from <= values.len(),
    ensures
        RValueView::unscoped_from(RValueView::narrowed_from(values, from), 0)
            == RValueView::unscoped_from(values, from),
        RValueView::narrowed_from(values, from).len() == values.len() - from,
    decreases RValueView::sizes_from(values, from), 1int, 0int,
{
    model::lemma_sizes_step(values, from);
    if from < values.len() {
        lemma_value(values[from]);
        lemma_values(values, from + 1);
        lemma_values_shift(
            values[from].narrowed(),
            RValueView::narrowed_from(values, from + 1),
            0,
        );
    }
}

proof fn lemma_statement(statement: StatementView, budget: usize, depth: usize)
    ensures
        statement.narrowed(budget, depth).unscoped() == statement.unscoped(),
    decreases statement.size(), 0int, 0int,
{
    model::lemma_statement_parts(statement);
    let (inner, level, pinned) = statement.nested_terms(budget, depth);
    let roots = RValueView::narrowed_from(statement.roots(), 0);
    let blocks = StatementView::narrowed_blocks(statement.blocks(), 0, inner, level, pinned);
    let given = statement.with_roots(roots);
    let done = given.with_blocks(blocks);
    let open_roots = RValueView::unscoped_from(statement.roots(), 0);
    let open_blocks = StatementView::unscoped_blocks(statement.blocks(), 0);
    lemma_values(statement.roots(), 0);
    lemma_blocks(statement.blocks(), 0, inner, level, pinned);
    shape_laws::given_roots(statement, roots);
    shape_laws::given_blocks(given, blocks);
    shape_laws::regiven_roots(statement, roots, open_roots);
    shape_laws::regiven_blocks(given, blocks, open_blocks, open_roots);
    shape_laws::regiven_blocks(statement.with_roots(open_roots), blocks, open_blocks, open_roots);
    assert(done.with_roots(open_roots).with_blocks(open_blocks) == statement.with_roots(
        open_roots,
    ).with_blocks(open_blocks));
    match statement {
        StatementView::Do(block) => {
            assert(statement.blocks() =~= seq![block]);
            let opened = StatementView::unscoped_blocks(blocks, 0);
            assert(opened[0] == StatementView::unscoped_from(blocks[0], 0));
            assert(open_blocks[0] == StatementView::unscoped_from(block, 0));
        },
        StatementView::Assign(assign) => {
            model::lemma_target_arity(assign.left, 0);
        },
        _ => {},
    }
}

proof fn lemma_blocks(
    blocks: Seq<Seq<StatementView>>,
    from: int,
    budget: usize,
    depth: usize,
    pinned: Set<u64>,
)
    requires
        0 <= from <= blocks.len(),
    ensures
        StatementView::unscoped_blocks(
            StatementView::narrowed_blocks(blocks, from, budget, depth, pinned),
            0,
        ) == StatementView::unscoped_blocks(blocks, from),
        StatementView::narrowed_blocks(blocks, from, budget, depth, pinned).len() == blocks.len()
            - from,
    decreases StatementView::block_sizes_from(blocks, from), 5int, blocks.len() - from,
{
    if from < blocks.len() {
        lemma_block(blocks[from], budget, depth, pinned);
        lemma_blocks(blocks, from + 1, budget, depth, pinned);
        lemma_blocks_shift(
            StatementView::narrowed_block(blocks[from], budget, depth, pinned),
            StatementView::narrowed_blocks(blocks, from + 1, budget, depth, pinned),
            0,
        );
    }
}

proof fn lemma_block(
    block: Seq<StatementView>,
    budget: usize,
    depth: usize,
    pinned: Set<u64>,
)
    ensures
        StatementView::unscoped_from(
            StatementView::narrowed_block(block, budget, depth, pinned),
            0,
        ) == StatementView::unscoped_from(block, 0),
    decreases StatementView::sizes_from(block, 0), 4int, 0int,
{
    let total = scope_narrowing::counted(block, 0, block.len() as int);
    if depth < scope_narrowing::MAX_ADDED_DEPTH && scope_narrowing::is_grouped(
        block,
        budget,
        pinned,
    ) {
        let kept = scope_narrowing::kept_back(
            block,
            budget,
            pinned,
            scope_narrowing::class_targets(block),
        );
        let runs = scope_narrowing::runs_of(block, kept);
        let held = scope_narrowing::lowered(
            total,
            scope_narrowing::relieved_from(block, runs, 0, kept) as nat,
        );
        scope_narrowing::runs_hold_their_locals(block, kept);
        lemma_grouped(
            block,
            runs,
            0,
            0,
            kept,
            scope_narrowing::left_over(budget, held),
            depth,
        );
    } else {
        lemma_range(
            block,
            0,
            block.len() as int,
            scope_narrowing::left_over(budget, total),
            depth,
        );
        assert(block.subrange(0, block.len() as int) =~= block);
    }
}

proof fn lemma_grouped(
    block: Seq<StatementView>,
    runs: Seq<(int, int)>,
    from: int,
    at: int,
    kept: Set<u64>,
    budget: usize,
    depth: usize,
)
    requires
        scope_narrowing::is_sorted(runs, 0, block.len() as int),
        0 <= from <= runs.len(),
        0 <= at <= block.len(),
        from < runs.len() ==> at <= runs[from].0,
    ensures
        StatementView::unscoped_from(
            StatementView::grouped_from(block, runs, from, at, kept, budget, depth),
            0,
        ) == StatementView::unscoped_from(block, at),
    decreases StatementView::sizes_from(block, 0), 3int, runs.len() - from,
{
    if from < runs.len() {
        let run = runs[from];
        if from + 1 < runs.len() {
            assert(runs[from].1 < runs[from + 1].0);
        }
        if scope_narrowing::is_worth(block, run) {
            scope_narrowing::lemma_run_smaller(block, run, kept);
            let body = block.subrange(run.0, run.1 + 1);
            let split = scope_narrowing::split_from(body, 0, kept);
            let before = StatementView::narrowed_range(block, at, run.0, budget, depth);
            let hoisted = scope_narrowing::hoisted(body, kept);
            let scope = StatementView::Do(
                StatementView::narrowed_block(split, budget, tally::bumped(depth), Set::empty()),
            );
            let after = StatementView::grouped_from(
                block,
                runs,
                from + 1,
                run.1 + 1,
                kept,
                budget,
                depth,
            );
            lemma_range(block, at, run.0, budget, depth);
            lemma_hoisted(body, kept);
            lemma_block(split, budget, tally::bumped(depth), Set::empty());
            lemma_split(body, 0, kept);
            lemma_grouped(block, runs, from + 1, run.1 + 1, kept, budget, depth);
            lemma_single(scope);
            lemma_join(before, hoisted);
            lemma_join(before + hoisted, seq![scope]);
            lemma_join(before + hoisted + seq![scope], after);
            lemma_parts(block, at, run.0, run.1 + 1);
            assert(StatementView::unscoped_from(
                StatementView::grouped_from(block, runs, from, at, kept, budget, depth),
                0,
            ) =~= StatementView::unscoped_from(block, at));
        } else {
            lemma_grouped(block, runs, from + 1, at, kept, budget, depth);
        }
    } else {
        lemma_range(block, at, block.len() as int, budget, depth);
        lemma_skip(block, at, 0);
        assert(block.subrange(at, block.len() as int) =~= block.skip(at));
    }
}

/// What a list of statements does from a position on, in three parts.
proof fn lemma_parts(statements: Seq<StatementView>, at: int, start: int, end: int)
    requires
        0 <= at <= start <= end <= statements.len(),
    ensures
        StatementView::unscoped_from(statements, at) == StatementView::unscoped_from(
            statements.subrange(at, start),
            0,
        ) + StatementView::unscoped_from(statements.subrange(start, end), 0)
            + StatementView::unscoped_from(statements, end),
{
    let first = statements.subrange(at, start);
    let middle = statements.subrange(start, end);
    let last = statements.skip(end);
    assert(statements.skip(at) =~= first + middle + last);
    lemma_skip(statements, at, 0);
    lemma_skip(statements, end, 0);
    lemma_join(first + middle, last);
    lemma_join(first, middle);
}

proof fn lemma_range(
    block: Seq<StatementView>,
    at: int,
    to: int,
    budget: usize,
    depth: usize,
)
    requires
        0 <= at <= to <= block.len(),
    ensures
        StatementView::unscoped_from(
            StatementView::narrowed_range(block, at, to, budget, depth),
            0,
        ) == StatementView::unscoped_from(block.subrange(at, to), 0),
    decreases StatementView::sizes_from(block, 0), 2int, to - at,
{
    if at < to {
        model::lemma_statement_sizes_member(block, 0, at);
        let rest = block.subrange(at + 1, to);
        let narrowed = block[at].narrowed(budget, depth);
        lemma_statement(block[at], budget, depth);
        lemma_range(block, at + 1, to, budget, depth);
        lemma_join(
            seq![narrowed],
            StatementView::narrowed_range(block, at + 1, to, budget, depth),
        );
        lemma_single(narrowed);
        lemma_join(seq![block[at]], rest);
        lemma_single(block[at]);
        assert(block.subrange(at, to) =~= seq![block[at]] + rest);
    }
}

/// Grouping declarations into scopes moves no statement and changes no
/// expression: once all scopes are opened and declarations are set aside, what
/// a block does is what it did.
pub proof fn grouping_is_lexical(
    block: Seq<StatementView>,
    budget: usize,
    depth: usize,
    pinned: Set<u64>,
)
    ensures
        StatementView::unscoped_from(
            StatementView::narrowed_block(block, budget, depth, pinned),
            0,
        ) == StatementView::unscoped_from(block, 0),
{
    lemma_block(block, budget, depth, pinned);
}

} // verus!
