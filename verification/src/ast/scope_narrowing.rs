//! Grouping the declarations of crowded blocks into scopes of their own.

use vstd::prelude::*;

use rustc_hash::{FxHashMap, FxHashSet};

use crate::ast::local::RcLocal;
use crate::ast::local_declarations::push_declaration;
use crate::ast::local_grouping::add_all;
use crate::ast::local_rw::LocalRw;
use crate::ast::name_locals::{add_targets, insert_locals};
use crate::ast::nodes::{
    Assign, AssignView, Block, Closure, Do, Function, LValueView, RValue, RValueView, Statement,
    StatementView,
};
use crate::ast::tally::{bump, raise};
use crate::ast::{local_declarations, local_grouping, model, name_locals, nodes, shape_laws, tally};
use crate::collections::{
    copy_set, empty_map, empty_ordered_set, empty_set, find_entry, has_member, insert_entry,
    insert_member, list_members, member_count,
};

verus! {

broadcast use nodes::group_views;

/// Declarations one function may hold in scope at once before its locals are
/// grouped into `do ... end` scopes.
///
/// Luau gives a local a register for as long as it is in scope and releases it
/// at block exit, with a ceiling of 200 per function. The count that matters is
/// the whole chain of open blocks, not any single one, so the budget is spent
/// as it is handed down. It sits below 200 to leave room for parameters and for
/// the temporaries individual statements need.
pub const FUNCTION_BUDGET: usize = 100;

/// Declarations a `do ... end` scope must hold to be worth emitting.
pub const MIN_SCOPE_DECLARATIONS: usize = 2;

/// The smallest budget a nested block is given. Handing nothing to the children
/// of a crowded chain would stop the descent from splitting anything further.
pub const MINIMUM_BUDGET: usize = 8;

/// Nesting levels grouping may add to a block.
pub const MAX_ADDED_DEPTH: usize = 16;

/// A count less what is taken from it, or none.
pub open spec fn lowered(count: usize, by: nat) -> usize {
    if by <= count {
        (count - by) as usize
    } else {
        0
    }
}

fn lower(count: usize, by: usize) -> (less: usize)
    ensures
        less == lowered(count, by as nat),
{
    if by <= count {
        count - by
    } else {
        0
    }
}

impl RValueView {
    /// Every local an expression mentions, in the bodies of the closures it
    /// builds too.
    pub open spec fn touched(self) -> Seq<RcLocal>
        decreases self.size(), 0int, 0int,
    {
        proof {
            model::lemma_children_smaller(self);
        }
        self.reads() + StatementView::touched_from(self.body(), 0) + Self::touched_from(
            self.children(),
            0,
        )
    }

    /// The same for the expressions from position `from` on.
    pub open spec fn touched_from(values: Seq<RValueView>, from: int) -> Seq<RcLocal>
        decreases Self::sizes_from(values, from), 1int, 0int,
    {
        proof {
            model::lemma_sizes_step(values, from);
        }
        if 0 <= from < values.len() {
            values[from].touched() + Self::touched_from(values, from + 1)
        } else {
            Seq::empty()
        }
    }
}

impl StatementView {
    /// The locals a statement declares in the block that holds it. What a loop
    /// binds belongs to its body.
    pub open spec fn own_declared(self) -> Seq<RcLocal> {
        match self {
            StatementView::Assign(assign) => if assign.prefix {
                LValueView::locals_from(assign.left, 0)
            } else {
                Seq::empty()
            },
            StatementView::Class(class) => seq![class.target],
            _ => Seq::empty(),
        }
    }

    /// Every local a statement mentions, in nested blocks and in the bodies of
    /// the closures it builds too.
    pub open spec fn touched(self) -> Seq<RcLocal>
        decreases self.size(), 0int, 0int,
    {
        proof {
            model::lemma_statement_parts(self);
            model::lemma_rvalues_smaller(self);
        }
        self.locals() + RValueView::touched_from(self.rvalues(), 0) + Self::blocks_touched(
            self.blocks(),
            0,
        )
    }

    /// The same for the blocks from position `from` on.
    pub open spec fn blocks_touched(blocks: Seq<Seq<StatementView>>, from: int) -> Seq<RcLocal>
        decreases Self::block_sizes_from(blocks, from), 3int, blocks.len() - from,
    {
        if 0 <= from < blocks.len() {
            Self::touched_from(blocks[from], 0) + Self::blocks_touched(blocks, from + 1)
        } else {
            Seq::empty()
        }
    }

    /// The same for the statements from position `from` on.
    pub open spec fn touched_from(statements: Seq<StatementView>, from: int) -> Seq<RcLocal>
        decreases Self::sizes_from(statements, from), 2int, 0int,
    {
        proof {
            model::lemma_statement_sizes_step(statements, from);
        }
        if 0 <= from < statements.len() {
            statements[from].touched() + Self::touched_from(statements, from + 1)
        } else {
            Seq::empty()
        }
    }

    /// Whether a statement ends the block that holds it. Luau accepts these
    /// only last in a block.
    pub open spec fn is_terminator(self) -> bool {
        self is Return || self is Break || self is Continue || self is Goto
    }

    /// Whether a statement is tied to the scope it stands in, or declares what
    /// is not told by its form.
    pub open spec fn is_rooted(self) -> bool {
        self is Label || self is Close || self is NumForInit || self is NumForNext
            || self is GenericForInit || self is GenericForNext
    }
}

/// Whether a block holds a statement that grouping cannot reason about.
pub open spec fn resists(block: Seq<StatementView>) -> bool {
    exists|i: int|
        0 <= i < block.len() && ((#[trigger] block[i]).is_rooted() || (block[i].is_terminator() && i
            != block.len() - 1))
}

/// How many locals the statements before `to` from `from` on declare.
pub open spec fn counted(block: Seq<StatementView>, from: int, to: int) -> usize
    decreases to - from,
{
    if 0 <= from < to <= block.len() {
        tally::raised(counted(block, from, to - 1), block[to - 1].own_declared().len())
    } else {
        0
    }
}

/// The last of the first `count` statements that mentions a local.
pub open spec fn last_reference(
    block: Seq<StatementView>,
    count: int,
    local: RcLocal,
) -> Option<int>
    decreases count,
{
    if count <= 0 {
        None
    } else if block[count - 1].touched().contains(local) {
        Some(count - 1)
    } else {
        last_reference(block, count - 1, local)
    }
}

/// How far the locals that a statement declares are mentioned, or `least` if
/// that is further. Those that are kept back do not count.
pub open spec fn reach(
    block: Seq<StatementView>,
    kept: Set<u64>,
    locals: Seq<RcLocal>,
    from: int,
    least: int,
) -> int
    decreases locals.len() - from,
{
    if 0 <= from < locals.len() {
        let next = match last_reference(block, block.len() as int, locals[from]) {
            Some(last) => if !kept.contains(locals[from].id) && last > least {
                last
            } else {
                least
            },
            None => least,
        };
        reach(block, kept, locals, from + 1, next)
    } else {
        least
    }
}

/// The runs of a block from statement `index` on that each hold all mentions of
/// every local they declare, where a run is open from `start` and has to reach
/// `open`.
pub open spec fn runs_from(
    block: Seq<StatementView>,
    kept: Set<u64>,
    index: int,
    start: int,
    open: int,
) -> Seq<(int, int)>
    decreases block.len() - index,
{
    if 0 <= index < block.len() {
        let far = reach(block, kept, block[index].own_declared(), 0, index);
        let next = if far > open {
            far
        } else {
            open
        };
        if index >= next {
            seq![(start, index)] + runs_from(block, kept, index + 1, index + 1, index + 1)
        } else {
            runs_from(block, kept, index + 1, start, next)
        }
    } else if start < block.len() {
        seq![(start, block.len() - 1)]
    } else {
        Seq::empty()
    }
}

/// The runs from position `from` on joined to those before them while those
/// hold too few declarations to be worth a scope.
pub open spec fn merged_from(
    block: Seq<StatementView>,
    runs: Seq<(int, int)>,
    from: int,
    merged: Seq<(int, int)>,
) -> Seq<(int, int)>
    decreases runs.len() - from,
{
    if 0 <= from < runs.len() {
        let next = if merged.len() > 0 && merged.last().1 + 1 == runs[from].0 && counted(
            block,
            merged.last().0,
            merged.last().1 + 1,
        ) < MIN_SCOPE_DECLARATIONS {
            merged.drop_last().push((merged.last().0, runs[from].1))
        } else {
            merged.push(runs[from])
        };
        merged_from(block, runs, from + 1, next)
    } else {
        merged
    }
}

/// The runs that a block is cut into.
pub open spec fn runs_of(block: Seq<StatementView>, kept: Set<u64>) -> Seq<(int, int)> {
    merged_from(block, runs_from(block, kept, 0, 0, 0), 0, Seq::empty())
}

/// Whether a run is worth a scope: it holds enough declarations and is not the
/// whole block.
pub open spec fn is_worth(block: Seq<StatementView>, run: (int, int)) -> bool {
    &&& 0 <= run.0 <= run.1 < block.len()
    &&& counted(block, run.0, run.1 + 1) >= MIN_SCOPE_DECLARATIONS
    &&& run.0 > 0 || run.1 + 1 < block.len()
}

/// The most declarations that one of the runs from position `from` on holds
/// that are worth a scope, or `most` if that is more.
pub open spec fn largest_from(
    block: Seq<StatementView>,
    runs: Seq<(int, int)>,
    from: int,
    most: Option<usize>,
) -> Option<usize>
    decreases runs.len() - from,
{
    if 0 <= from < runs.len() {
        let count = counted(block, runs[from].0, runs[from].1 + 1);
        let next = if is_worth(block, runs[from]) && (most is None || count >= most->0) {
            Some(count)
        } else {
            most
        };
        largest_from(block, runs, from + 1, next)
    } else {
        most
    }
}

/// Whether a local can be kept back.
pub open spec fn is_loose(kept: Set<u64>, bound: Set<u64>, local: RcLocal) -> bool {
    !kept.contains(local.id) && !bound.contains(local.id)
}

/// How far a local that the statement at `index` declares is mentioned past it.
pub open spec fn width(block: Seq<StatementView>, index: int, local: RcLocal) -> int {
    match last_reference(block, block.len() as int, local) {
        Some(last) => last - index,
        None => 0,
    }
}

/// The widest of the locals from position `from` on that can be kept back, or
/// `best` if that is wider; the last one of several.
pub open spec fn widest_in(
    block: Seq<StatementView>,
    index: int,
    locals: Seq<RcLocal>,
    from: int,
    kept: Set<u64>,
    bound: Set<u64>,
    best: Option<(int, RcLocal)>,
) -> Option<(int, RcLocal)>
    decreases locals.len() - from,
{
    if 0 <= from < locals.len() {
        let wide = width(block, index, locals[from]);
        let next = if is_loose(kept, bound, locals[from]) && wider(wide, best) {
            Some((wide, locals[from]))
        } else {
            best
        };
        widest_in(block, index, locals, from + 1, kept, bound, next)
    } else {
        best
    }
}

/// Whether a width is no less than the best so far.
pub open spec fn wider(wide: int, best: Option<(int, RcLocal)>) -> bool {
    match best {
        Some((most, _)) => wide >= most,
        None => true,
    }
}

/// The widest of the locals that the statements from `index` on declare.
pub open spec fn widest_from(
    block: Seq<StatementView>,
    index: int,
    kept: Set<u64>,
    bound: Set<u64>,
    best: Option<(int, RcLocal)>,
) -> Option<(int, RcLocal)>
    decreases block.len() - index,
{
    if 0 <= index < block.len() {
        widest_from(
            block,
            index + 1,
            kept,
            bound,
            widest_in(block, index, block[index].own_declared(), 0, kept, bound, best),
        )
    } else {
        best
    }
}

/// How many declarations from statement `index` on could be kept back.
pub open spec fn loose_from(
    block: Seq<StatementView>,
    index: int,
    kept: Set<u64>,
    bound: Set<u64>,
) -> nat
    decreases block.len() - index,
{
    if 0 <= index < block.len() {
        loose_in(block[index].own_declared(), 0, kept, bound) + loose_from(
            block,
            index + 1,
            kept,
            bound,
        )
    } else {
        0
    }
}

/// How many of the locals from position `from` on could be kept back.
pub open spec fn loose_in(
    locals: Seq<RcLocal>,
    from: int,
    kept: Set<u64>,
    bound: Set<u64>,
) -> nat
    decreases locals.len() - from,
{
    if 0 <= from < locals.len() {
        loose_in(locals, from + 1, kept, bound) + (if is_loose(kept, bound, locals[from]) {
            1nat
        } else {
            0nat
        })
    } else {
        0
    }
}

/// The locals to keep back in a block. A local live across most of the block
/// holds every run open around it; the widest one is kept back until the scopes
/// on offer fit the budget, or the locals kept back would fill it alone.
pub open spec fn kept_back(
    block: Seq<StatementView>,
    budget: usize,
    kept: Set<u64>,
    bound: Set<u64>,
) -> Set<u64>
    decreases loose_from(block, 0, kept, bound),
{
    let largest = largest_from(block, runs_of(block, kept), 0, None);
    if largest is Some && (largest->0 <= budget || kept.len() >= budget) {
        kept
    } else {
        match widest_from(block, 0, kept, bound, None) {
            Some((_, local)) => {
                proof {
                    lemma_widest(block, 0, kept, bound, None);
                }
                kept_back(block, budget, kept.insert(local.id), bound)
            },
            None => kept,
        }
    }
}

proof fn lemma_loose_in(
    locals: Seq<RcLocal>,
    from: int,
    kept: Set<u64>,
    bound: Set<u64>,
    local: RcLocal,
)
    requires
        0 <= from <= locals.len(),
    ensures
        loose_in(locals, from, kept.insert(local.id), bound) <= loose_in(
            locals,
            from,
            kept,
            bound,
        ),
        (exists|i: int| from <= i < locals.len() && locals[i] == local) && is_loose(
            kept,
            bound,
            local,
        ) ==> loose_in(locals, from, kept.insert(local.id), bound) < loose_in(
            locals,
            from,
            kept,
            bound,
        ),
    decreases locals.len() - from,
{
    if from < locals.len() {
        lemma_loose_in(locals, from + 1, kept, bound, local);
    }
}

proof fn lemma_loose_from(
    block: Seq<StatementView>,
    index: int,
    kept: Set<u64>,
    bound: Set<u64>,
    local: RcLocal,
)
    requires
        0 <= index <= block.len(),
    ensures
        loose_from(block, index, kept.insert(local.id), bound) <= loose_from(
            block,
            index,
            kept,
            bound,
        ),
        (exists|i: int|
            index <= i < block.len() && (#[trigger] block[i]).own_declared().contains(local))
            && is_loose(kept, bound, local) ==> loose_from(
            block,
            index,
            kept.insert(local.id),
            bound,
        ) < loose_from(block, index, kept, bound),
    decreases block.len() - index,
{
    if index < block.len() {
        lemma_loose_from(block, index + 1, kept, bound, local);
        lemma_loose_in(block[index].own_declared(), 0, kept, bound, local);
        if (exists|i: int|
            index <= i < block.len() && (#[trigger] block[i]).own_declared().contains(local))
            && is_loose(kept, bound, local) {
            let i = choose|i: int|
                index <= i < block.len() && (#[trigger] block[i]).own_declared().contains(local);
            if i == index {
                let locals = block[index].own_declared();
                let k = choose|k: int| 0 <= k < locals.len() && locals[k] == local;
                assert(0 <= k < locals.len() && locals[k] == local);
            }
        }
    }
}

/// Whether a local found is one that can be kept back.
spec fn is_found(
    block: Seq<StatementView>,
    kept: Set<u64>,
    bound: Set<u64>,
    best: Option<(int, RcLocal)>,
) -> bool {
    match best {
        Some((_, local)) => is_loose(kept, bound, local) && exists|i: int|
            0 <= i < block.len() && (#[trigger] block[i]).own_declared().contains(local),
        None => true,
    }
}

proof fn lemma_widest_in(
    block: Seq<StatementView>,
    index: int,
    from: int,
    kept: Set<u64>,
    bound: Set<u64>,
    best: Option<(int, RcLocal)>,
)
    requires
        0 <= index < block.len(),
        0 <= from <= block[index].own_declared().len(),
        is_found(block, kept, bound, best),
    ensures
        is_found(
            block,
            kept,
            bound,
            widest_in(block, index, block[index].own_declared(), from, kept, bound, best),
        ),
    decreases block[index].own_declared().len() - from,
{
    let locals = block[index].own_declared();
    if from < locals.len() {
        let wide = width(block, index, locals[from]);
        let next = if is_loose(kept, bound, locals[from]) && wider(wide, best) {
            Some((wide, locals[from]))
        } else {
            best
        };
        assert(block[index].own_declared().contains(locals[from]));
        lemma_widest_in(block, index, from + 1, kept, bound, next);
    }
}

proof fn lemma_widest_found(
    block: Seq<StatementView>,
    index: int,
    kept: Set<u64>,
    bound: Set<u64>,
    best: Option<(int, RcLocal)>,
)
    requires
        0 <= index <= block.len(),
        is_found(block, kept, bound, best),
    ensures
        is_found(block, kept, bound, widest_from(block, index, kept, bound, best)),
    decreases block.len() - index,
{
    if index < block.len() {
        lemma_widest_in(block, index, 0, kept, bound, best);
        lemma_widest_found(
            block,
            index + 1,
            kept,
            bound,
            widest_in(block, index, block[index].own_declared(), 0, kept, bound, best),
        );
    }
}

/// Keeping back the widest local leaves fewer that could be.
pub proof fn lemma_widest(
    block: Seq<StatementView>,
    index: int,
    kept: Set<u64>,
    bound: Set<u64>,
    best: Option<(int, RcLocal)>,
)
    requires
        index == 0,
        best is None,
    ensures
        match widest_from(block, index, kept, bound, best) {
            Some((_, local)) => loose_from(block, 0, kept.insert(local.id), bound) < loose_from(
                block,
                0,
                kept,
                bound,
            ),
            None => true,
        },
{
    lemma_widest_found(block, index, kept, bound, best);
    match widest_from(block, index, kept, bound, best) {
        Some((_, local)) => lemma_loose_from(block, 0, kept, bound, local),
        None => {},
    }
}

/// What is kept back already stays so, and nothing that is bound to its
/// declaration is kept back.
pub proof fn lemma_kept_back(
    block: Seq<StatementView>,
    budget: usize,
    kept: Set<u64>,
    bound: Set<u64>,
)
    requires
        kept.disjoint(bound),
    ensures
        kept.subset_of(kept_back(block, budget, kept, bound)),
        kept_back(block, budget, kept, bound).disjoint(bound),
    decreases loose_from(block, 0, kept, bound),
{
    let largest = largest_from(block, runs_of(block, kept), 0, None);
    if !(largest is Some && (largest->0 <= budget || kept.len() >= budget)) {
        if let Some((_, local)) = widest_from(block, 0, kept, bound, None) {
            lemma_widest_found(block, 0, kept, bound, None);
            lemma_widest(block, 0, kept, bound, None);
            lemma_kept_back(block, budget, kept.insert(local.id), bound);
        }
    }
}

/// The targets of the classes in a block, whose declarations cannot be split
/// from what is assigned.
pub open spec fn class_targets(block: Seq<StatementView>) -> Set<u64> {
    Set::new(
        |id: u64|
            exists|i: int|
                0 <= i < block.len() && (#[trigger] block[i] is Class)
                    && block[i]->Class_0.target.id == id,
    )
}

/// Whether a block's declarations are grouped: there are more than fit the
/// budget, nothing in the block resists, and no local that has to keep its
/// scope is bound to its declaration.
pub open spec fn is_grouped(block: Seq<StatementView>, budget: usize, pinned: Set<u64>) -> bool {
    &&& counted(block, 0, block.len() as int) > budget
    &&& !resists(block)
    &&& pinned.disjoint(class_targets(block))
}

/// How many declarations in the runs from position `from` on are moved out of
/// the block.
pub open spec fn relieved_from(
    block: Seq<StatementView>,
    runs: Seq<(int, int)>,
    from: int,
    kept: Set<u64>,
) -> usize
    decreases runs.len() - from,
{
    if 0 <= from < runs.len() {
        let rest = relieved_from(block, runs, from + 1, kept);
        if is_worth(block, runs[from]) {
            tally::raised(rest, freed(block, runs[from].0, runs[from].1 + 1, kept) as nat)
        } else {
            rest
        }
    } else {
        0
    }
}

/// How many locals the statements before `to` from `from` on declare that are
/// not kept back.
pub open spec fn freed(block: Seq<StatementView>, from: int, to: int, kept: Set<u64>) -> usize
    decreases to - from,
{
    if 0 <= from < to <= block.len() {
        tally::raised(
            freed(block, from, to - 1, kept),
            loose_in(block[to - 1].own_declared(), 0, kept, Set::empty()),
        )
    } else {
        0
    }
}

/// Whether a statement declares a local that is kept back, by an assignment.
pub open spec fn declares_kept(statement: StatementView, kept: Set<u64>) -> bool {
    match statement {
        StatementView::Assign(assign) => assign.prefix && exists|i: int|
            0 <= i < statement.own_declared().len() && kept.contains(
                (#[trigger] statement.own_declared()[i]).id,
            ),
        _ => false,
    }
}

/// The statements of a run from position `from` on, with the declarations of
/// locals that are kept back taken out. Splitting one name of a multiple
/// declaration would leave the rest bound in the scope, so all go together.
pub open spec fn split_from(body: Seq<StatementView>, from: int, kept: Set<u64>) -> Seq<
    StatementView,
>
    decreases body.len() - from,
{
    if 0 <= from < body.len() {
        let rest = split_from(body, from + 1, kept);
        if declares_kept(body[from], kept) {
            let assign = body[from]->Assign_0;
            if assign.right.len() == 0 {
                rest
            } else {
                seq![StatementView::Assign(AssignView { prefix: false, ..assign })] + rest
            }
        } else {
            seq![body[from]] + rest
        }
    } else {
        Seq::empty()
    }
}

/// The locals whose declarations are taken out of a run from position `from`
/// on.
pub open spec fn hoisted_from(body: Seq<StatementView>, from: int, kept: Set<u64>) -> Seq<RcLocal>
    decreases body.len() - from,
{
    if 0 <= from < body.len() {
        let rest = hoisted_from(body, from + 1, kept);
        if declares_kept(body[from], kept) {
            body[from].own_declared() + rest
        } else {
            rest
        }
    } else {
        Seq::empty()
    }
}

/// The declaration to place ahead of a run's scope.
pub open spec fn hoisted(body: Seq<StatementView>, kept: Set<u64>) -> Seq<StatementView> {
    let ids = name_locals::all_with(Seq::empty(), hoisted_from(body, 0, kept));
    local_declarations::bare_declaration(Seq::new(ids.len(), |i: int| RcLocal { id: ids[i] }))
}

proof fn lemma_split_size(body: Seq<StatementView>, from: int, kept: Set<u64>)
    requires
        0 <= from <= body.len(),
    ensures
        StatementView::sizes_from(split_from(body, from, kept), 0) <= StatementView::sizes_from(
            body,
            from,
        ),
    decreases body.len() - from,
{
    reveal(StatementView::size);
    if from < body.len() {
        lemma_split_size(body, from + 1, kept);
        model::lemma_statement_sizes_step(body, from);
        let rest = split_from(body, from + 1, kept);
        if declares_kept(body[from], kept) {
            let assign = body[from]->Assign_0;
            if assign.right.len() > 0 {
                let bare = StatementView::Assign(AssignView { prefix: false, ..assign });
                assert(bare.size() == body[from].size());
                model::lemma_statement_sizes_join(seq![bare], rest);
                assert(StatementView::sizes_from(seq![bare], 0) == bare.size()
                    + StatementView::sizes_from(seq![bare], 1));
            }
        } else {
            model::lemma_statement_sizes_join(seq![body[from]], rest);
            assert(StatementView::sizes_from(seq![body[from]], 0) == body[from].size()
                + StatementView::sizes_from(seq![body[from]], 1));
        }
    }
}

/// What is in a run's scope is smaller than the block.
pub proof fn lemma_run_smaller(block: Seq<StatementView>, run: (int, int), kept: Set<u64>)
    requires
        is_worth(block, run),
    ensures
        StatementView::sizes_from(split_from(block.subrange(run.0, run.1 + 1), 0, kept), 0)
            < StatementView::sizes_from(block, 0),
{
    reveal(StatementView::size);
    let before = block.take(run.0);
    let body = block.subrange(run.0, run.1 + 1);
    let after = block.skip(run.1 + 1);
    lemma_split_size(body, 0, kept);
    assert(block =~= before + body + after);
    model::lemma_statement_sizes_join(before + body, after);
    model::lemma_statement_sizes_join(before, body);
    if run.0 > 0 {
        model::lemma_statement_sizes_step(before, 0);
        assert(before[0].size() > 0);
    } else {
        model::lemma_statement_sizes_step(after, 0);
        assert(after[0].size() > 0);
    }
}

/// What is left of a budget for the blocks nested in one that holds some
/// declarations.
pub open spec fn left_over(budget: usize, held: usize) -> usize {
    let rest = lowered(budget, held as nat);
    if rest > MINIMUM_BUDGET {
        rest
    } else {
        MINIMUM_BUDGET
    }
}

/// The budget of a closure, which compiles into its own function with its own
/// registers.
pub open spec fn closure_budget(parameters: nat) -> usize {
    lowered(FUNCTION_BUDGET, parameters)
}

impl RValueView {
    /// This expression with the closures in it narrowed.
    pub open spec fn narrowed(self) -> RValueView
        decreases self.size(), 0int, 0int,
    {
        proof {
            model::lemma_children_smaller(self);
        }
        match self {
            RValueView::Closure(closure) => self.with_body(
                StatementView::narrowed_block(
                    self.body(),
                    closure_budget(closure.function.parameters.len()),
                    0,
                    Set::empty(),
                ),
            ),
            _ => self.with_children(Self::narrowed_from(self.children(), 0)),
        }
    }

    /// The expressions from position `from` on with the closures in them
    /// narrowed.
    pub open spec fn narrowed_from(values: Seq<RValueView>, from: int) -> Seq<RValueView>
        decreases Self::sizes_from(values, from), 1int, 0int,
    {
        proof {
            model::lemma_sizes_step(values, from);
        }
        if 0 <= from < values.len() {
            seq![values[from].narrowed()] + Self::narrowed_from(values, from + 1)
        } else {
            Seq::empty()
        }
    }
}

impl StatementView {
    /// The budget and the depth that the blocks nested in a statement get, and
    /// the locals that something outside of their statements reads: the
    /// condition of a repeat loop is evaluated in the scope of its body.
    pub open spec fn nested_terms(self, budget: usize, depth: usize) -> (usize, usize, Set<u64>) {
        match self {
            StatementView::Do(_) => (budget, tally::bumped(depth), Set::empty()),
            StatementView::Repeat { condition, .. } => (
                budget,
                depth,
                local_grouping::numbers(condition.reads()),
            ),
            StatementView::NumericFor { .. } => (lowered(budget, 1), depth, Set::empty()),
            StatementView::GenericFor { res_locals, .. } => (
                lowered(budget, res_locals.len()),
                depth,
                Set::empty(),
            ),
            _ => (budget, depth, Set::empty()),
        }
    }

    /// This statement with the blocks and closures nested in it narrowed.
    pub open spec fn narrowed(self, budget: usize, depth: usize) -> StatementView
        decreases self.size(), 0int, 0int,
    {
        proof {
            model::lemma_statement_parts(self);
        }
        let (inner, level, pinned) = self.nested_terms(budget, depth);
        self.with_roots(RValueView::narrowed_from(self.roots(), 0)).with_blocks(
            Self::narrowed_blocks(self.blocks(), 0, inner, level, pinned),
        )
    }

    /// The blocks from position `from` on narrowed.
    pub open spec fn narrowed_blocks(
        blocks: Seq<Seq<StatementView>>,
        from: int,
        budget: usize,
        depth: usize,
        pinned: Set<u64>,
    ) -> Seq<Seq<StatementView>>
        decreases Self::block_sizes_from(blocks, from), 5int, blocks.len() - from,
    {
        if 0 <= from < blocks.len() {
            seq![Self::narrowed_block(blocks[from], budget, depth, pinned)]
                + Self::narrowed_blocks(blocks, from + 1, budget, depth, pinned)
        } else {
            Seq::empty()
        }
    }

    /// A block narrowed: its declarations grouped into scopes where they are
    /// too many, and what is left of the budget handed to what is nested.
    pub open spec fn narrowed_block(
        block: Seq<StatementView>,
        budget: usize,
        depth: usize,
        pinned: Set<u64>,
    ) -> Seq<StatementView>
        decreases Self::sizes_from(block, 0), 4int, 0int,
    {
        let total = counted(block, 0, block.len() as int);
        if depth < MAX_ADDED_DEPTH && is_grouped(block, budget, pinned) {
            let kept = kept_back(block, budget, pinned, class_targets(block));
            let runs = runs_of(block, kept);
            let held = lowered(total, relieved_from(block, runs, 0, kept) as nat);
            Self::grouped_from(block, runs, 0, 0, kept, left_over(budget, held), depth)
        } else {
            Self::narrowed_range(
                block,
                0,
                block.len() as int,
                left_over(budget, total),
                depth,
            )
        }
    }

    /// The statements of a block from position `at` on, with the runs from
    /// position `from` on that are worth it put into scopes.
    pub open spec fn grouped_from(
        block: Seq<StatementView>,
        runs: Seq<(int, int)>,
        from: int,
        at: int,
        kept: Set<u64>,
        budget: usize,
        depth: usize,
    ) -> Seq<StatementView>
        decreases Self::sizes_from(block, 0), 3int, runs.len() - from,
    {
        if 0 <= from < runs.len() {
            let run = runs[from];
            if is_worth(block, run) {
                proof {
                    lemma_run_smaller(block, run, kept);
                }
                let body = block.subrange(run.0, run.1 + 1);
                Self::narrowed_range(block, at, run.0, budget, depth) + hoisted(body, kept) + seq![
                    StatementView::Do(
                        Self::narrowed_block(
                            split_from(body, 0, kept),
                            budget,
                            tally::bumped(depth),
                            Set::empty(),
                        ),
                    ),
                ] + Self::grouped_from(block, runs, from + 1, run.1 + 1, kept, budget, depth)
            } else {
                Self::grouped_from(block, runs, from + 1, at, kept, budget, depth)
            }
        } else {
            Self::narrowed_range(block, at, block.len() as int, budget, depth)
        }
    }

    /// The statements of a block before `to` from `at` on, with what is nested
    /// in them narrowed.
    pub open spec fn narrowed_range(
        block: Seq<StatementView>,
        at: int,
        to: int,
        budget: usize,
        depth: usize,
    ) -> Seq<StatementView>
        decreases Self::sizes_from(block, 0), 2int, to - at,
    {
        if 0 <= at < to <= block.len() {
            proof {
                model::lemma_statement_sizes_member(block, 0, at);
            }
            seq![block[at].narrowed(budget, depth)] + Self::narrowed_range(
                block,
                at + 1,
                to,
                budget,
                depth,
            )
        } else {
            Seq::empty()
        }
    }
}

/// Whether runs stand one after the other in a part of a block.
pub open spec fn is_sorted(runs: Seq<(int, int)>, from: int, to: int) -> bool {
    &&& forall|i: int|
        0 <= i < runs.len() ==> from <= (#[trigger] runs[i]).0 <= runs[i].1 && runs[i].1 < to
    &&& forall|i: int, j: int|
        #![trigger runs[i], runs[j]]
        0 <= i < j < runs.len() ==> runs[i].1 < runs[j].0
}

/// Whether no local that a run declares is mentioned past it, but for those
/// kept back.
pub open spec fn holds_locals(block: Seq<StatementView>, kept: Set<u64>, run: (int, int)) -> bool {
    forall|i: int, k: int|
        #![trigger block[i].own_declared()[k]]
        run.0 <= i <= run.1 && 0 <= k < block[i].own_declared().len() && !kept.contains(
            block[i].own_declared()[k].id,
        ) ==> match last_reference(block, block.len() as int, block[i].own_declared()[k]) {
            Some(last) => last <= run.1,
            None => true,
        }
}

proof fn lemma_last_below(block: Seq<StatementView>, count: int, local: RcLocal)
    ensures
        match last_reference(block, count, local) {
            Some(last) => 0 <= last < count,
            None => true,
        },
    decreases count,
{
    if count > 0 {
        lemma_last_below(block, count - 1, local);
    }
}

proof fn lemma_reach(
    block: Seq<StatementView>,
    kept: Set<u64>,
    locals: Seq<RcLocal>,
    from: int,
    least: int,
)
    requires
        0 <= from <= locals.len(),
        0 <= least < block.len(),
    ensures
        least <= reach(block, kept, locals, from, least) < block.len(),
        forall|k: int|
            #![trigger locals[k]]
            from <= k < locals.len() && !kept.contains(locals[k].id) ==> match last_reference(
                block,
                block.len() as int,
                locals[k],
            ) {
                Some(last) => last <= reach(block, kept, locals, from, least),
                None => true,
            },
    decreases locals.len() - from,
{
    if from < locals.len() {
        lemma_last_below(block, block.len() as int, locals[from]);
        let next = match last_reference(block, block.len() as int, locals[from]) {
            Some(last) => if !kept.contains(locals[from].id) && last > least {
                last
            } else {
                least
            },
            None => least,
        };
        lemma_reach(block, kept, locals, from + 1, next);
    }
}

/// Whether the locals declared in a part of a block are mentioned no further
/// than `open`.
spec fn is_open_until(
    block: Seq<StatementView>,
    kept: Set<u64>,
    start: int,
    index: int,
    open: int,
) -> bool {
    forall|i: int, k: int|
        #![trigger block[i].own_declared()[k]]
        start <= i < index && 0 <= k < block[i].own_declared().len() && !kept.contains(
            block[i].own_declared()[k].id,
        ) ==> match last_reference(block, block.len() as int, block[i].own_declared()[k]) {
            Some(last) => last <= open,
            None => true,
        }
}

proof fn lemma_runs(
    block: Seq<StatementView>,
    kept: Set<u64>,
    index: int,
    start: int,
    open: int,
)
    requires
        0 <= start <= index <= block.len(),
        is_open_until(block, kept, start, index, open),
    ensures
        is_sorted(runs_from(block, kept, index, start, open), start, block.len() as int),
        forall|i: int|
            0 <= i < runs_from(block, kept, index, start, open).len() ==> holds_locals(
                block,
                kept,
                #[trigger] runs_from(block, kept, index, start, open)[i],
            ),
    decreases block.len() - index,
{
    let runs = runs_from(block, kept, index, start, open);
    if index < block.len() {
        let locals = block[index].own_declared();
        let far = reach(block, kept, locals, 0, index);
        let next = if far > open {
            far
        } else {
            open
        };
        lemma_reach(block, kept, locals, 0, index);
        assert(is_open_until(block, kept, start, index + 1, next)) by {
            assert forall|i: int, k: int|
                #![trigger block[i].own_declared()[k]]
                start <= i < index + 1 && 0 <= k < block[i].own_declared().len()
                    && !kept.contains(block[i].own_declared()[k].id) implies match last_reference(
                block,
                block.len() as int,
                block[i].own_declared()[k],
            ) {
                Some(last) => last <= next,
                None => true,
            } by {
                if i == index {
                    assert(locals[k] == block[i].own_declared()[k]);
                }
            }
        }
        if index >= next {
            let rest = runs_from(block, kept, index + 1, index + 1, index + 1);
            lemma_runs(block, kept, index + 1, index + 1, index + 1);
            assert(holds_locals(block, kept, (start, index)));
            assert forall|i: int| 0 <= i < runs.len() implies holds_locals(
                block,
                kept,
                #[trigger] runs[i],
            ) && start <= runs[i].0 <= runs[i].1 && runs[i].1 < block.len() by {
                if i > 0 {
                    assert(runs[i] == rest[i - 1]);
                }
            }
            assert forall|i: int, j: int|
                #![trigger runs[i], runs[j]]
                0 <= i < j < runs.len() implies runs[i].1 < runs[j].0 by {
                assert(runs[j] == rest[j - 1]);
                if i > 0 {
                    assert(runs[i] == rest[i - 1]);
                }
            }
        } else {
            lemma_runs(block, kept, index + 1, start, next);
        }
    } else if start < block.len() {
        assert forall|i: int, k: int|
            #![trigger block[i].own_declared()[k]]
            start <= i <= block.len() - 1 && 0 <= k < block[i].own_declared().len()
                && !kept.contains(block[i].own_declared()[k].id) implies match last_reference(
            block,
            block.len() as int,
            block[i].own_declared()[k],
        ) {
            Some(last) => last <= block.len() - 1,
            None => true,
        } by {
            lemma_last_below(block, block.len() as int, block[i].own_declared()[k]);
        }
    }
}

proof fn lemma_merged(
    block: Seq<StatementView>,
    kept: Set<u64>,
    runs: Seq<(int, int)>,
    from: int,
    merged: Seq<(int, int)>,
)
    requires
        0 <= from <= runs.len(),
        is_sorted(runs, 0, block.len() as int),
        is_sorted(merged, 0, block.len() as int),
        forall|i: int, j: int|
            #![trigger merged[i], runs[j]]
            0 <= i < merged.len() && from <= j < runs.len() ==> merged[i].1 < runs[j].0,
        forall|i: int| 0 <= i < runs.len() ==> holds_locals(block, kept, #[trigger] runs[i]),
        forall|i: int| 0 <= i < merged.len() ==> holds_locals(block, kept, #[trigger] merged[i]),
    ensures
        is_sorted(merged_from(block, runs, from, merged), 0, block.len() as int),
        forall|i: int|
            0 <= i < merged_from(block, runs, from, merged).len() ==> holds_locals(
                block,
                kept,
                #[trigger] merged_from(block, runs, from, merged)[i],
            ),
    decreases runs.len() - from,
{
    if from < runs.len() {
        let run = runs[from];
        let joins = merged.len() > 0 && merged.last().1 + 1 == run.0 && counted(
            block,
            merged.last().0,
            merged.last().1 + 1,
        ) < MIN_SCOPE_DECLARATIONS;
        let next = if joins {
            merged.drop_last().push((merged.last().0, run.1))
        } else {
            merged.push(run)
        };
        assert(holds_locals(block, kept, run));
        if joins {
            let last = merged[merged.len() - 1];
            assert(holds_locals(block, kept, last));
            assert(holds_locals(block, kept, (last.0, run.1))) by {
                assert forall|i: int, k: int|
                    #![trigger block[i].own_declared()[k]]
                    last.0 <= i <= run.1 && 0 <= k < block[i].own_declared().len()
                        && !kept.contains(
                        block[i].own_declared()[k].id,
                    ) implies match last_reference(
                    block,
                    block.len() as int,
                    block[i].own_declared()[k],
                ) {
                    Some(far) => far <= run.1,
                    None => true,
                } by {
                    if i <= last.1 {
                    }
                }
            }
        }
        assert forall|i: int| 0 <= i < next.len() implies holds_locals(
            block,
            kept,
            #[trigger] next[i],
        ) && 0 <= next[i].0 <= next[i].1 && next[i].1 < block.len() by {
            if i < next.len() - 1 {
                assert(next[i] == merged[i]);
            }
        }
        assert forall|i: int, j: int|
            #![trigger next[i], next[j]]
            0 <= i < j < next.len() implies next[i].1 < next[j].0 by {
            assert(next[i] == merged[i]);
            if j < merged.len() {
                assert(merged[i].1 < merged[j].0);
            }
        }
        assert forall|i: int, j: int|
            #![trigger next[i], runs[j]]
            0 <= i < next.len() && from + 1 <= j < runs.len() implies next[i].1 < runs[j].0 by {
            assert(runs[from].1 < runs[j].0);
            if i < next.len() - 1 {
                assert(next[i] == merged[i]);
                assert(merged[i].1 < runs[j].0);
            }
        }
        lemma_merged(block, kept, runs, from + 1, next);
    }
}

/// The runs that a block is cut into stand one after the other, and no local
/// that one of them declares is mentioned past it, but for those kept back: the
/// grouping is purely lexical.
pub proof fn runs_hold_their_locals(block: Seq<StatementView>, kept: Set<u64>)
    ensures
        is_sorted(runs_of(block, kept), 0, block.len() as int),
        forall|i: int|
            0 <= i < runs_of(block, kept).len() ==> holds_locals(
                block,
                kept,
                #[trigger] runs_of(block, kept)[i],
            ),
{
    lemma_runs(block, kept, 0, 0, 0);
    lemma_merged(block, kept, runs_from(block, kept, 0, 0, 0), 0, Seq::empty());
}

fn push_locals(locals: &Vec<RcLocal>, out: &mut Vec<RcLocal>)
    ensures
        final(out)@ == old(out)@ + locals@,
{
    let mut index: usize = 0;
    while index < locals.len()
        invariant
            index <= locals@.len(),
            out@ =~= old(out)@ + locals@.take(index as int),
        decreases locals.len() - index,
    {
        out.push(locals[index]);
        index += 1;
    }
    proof {
        assert(locals@.take(locals@.len() as int) =~= locals@);
    }
}

fn push_touched_value(value: &RValue, out: &mut Vec<RcLocal>)
    ensures
        final(out)@ == old(out)@ + value@.touched(),
    decreases value@.size(), 0int, 0int,
{
    let ghost whole = value@;
    let ghost start = out@;
    proof {
        nodes::rvalue_node(*value);
        model::lemma_children_smaller(whole);
    }
    push_locals(&value.values_read(), out);
    let ghost read = out@;
    proof {
        assert(read + Seq::<RcLocal>::empty() =~= read);
    }
    if let RValue::Closure(closure) = value {
        push_touched_block(&closure.function.body, out);
    }
    push_touched_values(value.rvalues(), out);
    proof {
        assert(out@ =~= start + whole.touched());
    }
}

fn push_touched_values(values: Vec<&RValue>, out: &mut Vec<RcLocal>)
    ensures
        final(out)@ == old(out)@ + RValueView::touched_from(RValue::borrowed(values@), 0),
    decreases RValueView::sizes_from(RValue::borrowed(values@), 0), 1int, 0int,
{
    let ghost views = RValue::borrowed(values@);
    let ghost whole = out@ + RValueView::touched_from(views, 0);
    let mut index: usize = 0;
    while index < values.len()
        invariant
            index <= values@.len() == views.len(),
            views == RValue::borrowed(values@),
            out@ + RValueView::touched_from(views, index as int) =~= whole,
        decreases values.len() - index,
    {
        proof {
            model::lemma_sizes_member(views, 0, index as int);
        }
        push_touched_value(values[index], out);
        index += 1;
    }
}

fn push_touched(statement: &Statement, out: &mut Vec<RcLocal>)
    ensures
        final(out)@ == old(out)@ + statement@.touched(),
    decreases statement@.size(), 0int, 0int,
{
    let ghost whole = statement@;
    let ghost start = out@;
    proof {
        nodes::statement_node(*statement);
        model::lemma_statement_parts(whole);
        model::lemma_rvalues_smaller(whole);
    }
    push_locals(&statement.values(), out);
    push_touched_values(statement.rvalues(), out);
    let blocks = statement.blocks();
    let ghost views = Block::borrowed(blocks@);
    let mut index: usize = 0;
    proof {
        assert(out@ + StatementView::blocks_touched(views, 0) =~= start + whole.touched());
    }
    while index < blocks.len()
        invariant
            index <= blocks@.len() == views.len(),
            views == Block::borrowed(blocks@),
            whole == statement@,
            StatementView::block_sizes_from(views, 0) < whole.size(),
            out@ + StatementView::blocks_touched(views, index as int) =~= start + whole.touched(),
        decreases blocks.len() - index,
    {
        proof {
            model::lemma_block_sizes_member(views, 0, index as int);
        }
        push_touched_block(blocks[index], out);
        index += 1;
    }
}

fn push_touched_block(block: &Block, out: &mut Vec<RcLocal>)
    ensures
        final(out)@ == old(out)@ + StatementView::touched_from(block@, 0),
    decreases StatementView::sizes_from(block@, 0), 2int, 0int,
{
    let ghost views = block@;
    let ghost whole = out@ + StatementView::touched_from(views, 0);
    let mut index: usize = 0;
    while index < block.0.len()
        invariant
            index <= block.0@.len() == views.len(),
            views == block@,
            out@ + StatementView::touched_from(views, index as int) =~= whole,
        decreases block.0.len() - index,
    {
        proof {
            model::lemma_statement_sizes_member(views, 0, index as int);
            assert(views[index as int] == block.0@[index as int]@);
        }
        push_touched(&block.0[index], out);
        index += 1;
    }
}

fn find_own_declared(statement: &Statement) -> (locals: Vec<RcLocal>)
    ensures
        locals@ == statement@.own_declared(),
{
    proof {
        nodes::statement_node(*statement);
    }
    let mut locals: Vec<RcLocal> = Vec::new();
    match statement {
        Statement::Assign(assign) => {
            proof {
                nodes::assign_node(*assign);
            }
            if assign.prefix {
                add_targets(&assign.left, &mut locals);
            }
        },
        Statement::Class(class) => {
            locals.push(class.target);
        },
        _ => {},
    }
    proof {
        assert(locals@ =~= statement@.own_declared());
    }
    locals
}

/// What a block's statements declare, and where locals are mentioned last.
struct Extents {
    declared: Vec<Vec<RcLocal>>,
    last: FxHashMap<u64, usize>,
}

/// What a map tells of the last mention of a local.
spec fn last_in(map: Map<u64, usize>, local: RcLocal) -> Option<int> {
    if map.dom().contains(local.id) {
        Some(map[local.id] as int)
    } else {
        None
    }
}

impl Extents {
    /// Whether this is what a block's statements say.
    spec fn describes(&self, block: Seq<StatementView>) -> bool {
        &&& self.declared@.len() == block.len()
        &&& forall|i: int|
            0 <= i < block.len() ==> (#[trigger] self.declared@[i])@ == block[i].own_declared()
        &&& forall|local: RcLocal| #[trigger]
            last_in(self.last@, local) == last_reference(block, block.len() as int, local)
    }

    fn new(block: &Block) -> (extents: Self)
        ensures
            extents.describes(block@),
    {
        let ghost views = block@;
        let mut extents = Extents { declared: Vec::new(), last: empty_map::<usize>() };
        let mut index: usize = 0;
        while index < block.0.len()
            invariant
                index <= block.0@.len() == views.len(),
                views == block@,
                extents.declared@.len() == index,
                forall|i: int|
                    0 <= i < index ==> (#[trigger] extents.declared@[i])@
                        == views[i].own_declared(),
                forall|local: RcLocal| #[trigger]
                    last_in(extents.last@, local) == last_reference(views, index as int, local),
            decreases block.0.len() - index,
        {
            proof {
                assert(views[index as int] == block.0@[index as int]@);
            }
            extents.declared.push(find_own_declared(&block.0[index]));
            let mut touched: Vec<RcLocal> = Vec::new();
            push_touched(&block.0[index], &mut touched);
            let ghost before = extents.last@;
            let ghost list = views[index as int].touched();
            proof {
                assert(touched@ =~= list);
            }
            let mut at: usize = 0;
            while at < touched.len()
                invariant
                    at <= touched@.len(),
                    touched@ == list,
                    extents.declared@.len() == index + 1,
                    forall|i: int|
                        0 <= i < index + 1 ==> (#[trigger] extents.declared@[i])@
                            == views[i].own_declared(),
                    forall|local: RcLocal| #[trigger]
                        last_in(extents.last@, local) == (if touched@.take(at as int).contains(
                            local,
                        ) {
                            Some(index as int)
                        } else {
                            last_in(before, local)
                        }),
                decreases touched.len() - at,
            {
                let local = touched[at];
                let ghost less = touched@.take(at as int);
                let ghost more = touched@.take(at + 1);
                let ghost held = extents.last@;
                insert_entry(&mut extents.last, local.id, index);
                proof {
                    assert forall|other: RcLocal| #[trigger]
                        last_in(extents.last@, other) == (if more.contains(other) {
                            Some(index as int)
                        } else {
                            last_in(before, other)
                        }) by {
                        assert(last_in(held, other) == (if less.contains(other) {
                            Some(index as int)
                        } else {
                            last_in(before, other)
                        }));
                        assert(more =~= less.push(local));
                        if other.id == local.id {
                            assert(other == local);
                            assert(more[at as int] == other);
                        }
                        if less.contains(other) {
                            let k = choose|k: int| 0 <= k < less.len() && less[k] == other;
                            assert(more[k] == other);
                        }
                    }
                }
                at += 1;
            }
            proof {
                assert(touched@.take(touched@.len() as int) =~= touched@);
            }
            index += 1;
        }
        extents
    }

    fn count(&self, from: usize, to: usize, Ghost(block): Ghost<Seq<StatementView>>) -> (count:
        usize)
        requires
            self.describes(block),
            from <= to <= block.len(),
        ensures
            count == counted(block, from as int, to as int),
    {
        let mut count: usize = 0;
        let mut index: usize = from;
        while index < to
            invariant
                from <= index <= to <= block.len(),
                self.describes(block),
                count == counted(block, from as int, index as int),
            decreases to - index,
        {
            count = raise(count, self.declared[index].len());
            index += 1;
        }
        count
    }

    fn count_freed(
        &self,
        from: usize,
        to: usize,
        kept: &FxHashSet<u64>,
        Ghost(block): Ghost<Seq<StatementView>>,
    ) -> (count: usize)
        requires
            self.describes(block),
            from <= to <= block.len(),
        ensures
            count == freed(block, from as int, to as int, kept@),
    {
        let mut count: usize = 0;
        let mut index: usize = from;
        while index < to
            invariant
                from <= index <= to <= block.len(),
                self.describes(block),
                count == freed(block, from as int, index as int, kept@),
            decreases to - index,
        {
            let locals = &self.declared[index];
            let ghost list = locals@;
            let mut loose: usize = 0;
            let length: usize = locals.len();
            let mut at: usize = length;
            while at > 0
                invariant
                    at <= length == locals@.len() == list.len(),
                    list == locals@,
                    loose == loose_in(list, at as int, kept@, Set::empty()),
                    loose <= list.len() - at,
                decreases at,
            {
                at -= 1;
                if !has_member(kept, locals[at].id) {
                    loose += 1;
                }
            }
            count = raise(count, loose);
            index += 1;
        }
        count
    }

    fn find_reach(
        &self,
        index: usize,
        kept: &FxHashSet<u64>,
        Ghost(block): Ghost<Seq<StatementView>>,
    ) -> (found: usize)
        requires
            self.describes(block),
            index < block.len(),
        ensures
            found == reach(block, kept@, block[index as int].own_declared(), 0, index as int),
    {
        let locals = &self.declared[index];
        let ghost list = block[index as int].own_declared();
        let ghost whole = reach(block, kept@, list, 0, index as int);
        let mut far: usize = index;
        let mut at: usize = 0;
        while at < locals.len()
            invariant
                at <= locals@.len(),
                locals@ == list,
                self.describes(block),
                whole == reach(block, kept@, list, at as int, far as int),
            decreases locals.len() - at,
        {
            proof {
                assert(last_in(self.last@, list[at as int]) == last_reference(
                    block,
                    block.len() as int,
                    list[at as int],
                ));
            }
            if !has_member(kept, locals[at].id) {
                if let Some(last) = find_entry(&self.last, locals[at].id) {
                    if *last > far {
                        far = *last;
                    }
                }
            }
            at += 1;
        }
        far
    }

    fn find_runs(&self, kept: &FxHashSet<u64>, Ghost(block): Ghost<Seq<StatementView>>) -> (runs: Vec<
        (usize, usize),
    >)
        requires
            self.describes(block),
        ensures
            run_views(runs@) == runs_from(block, kept@, 0, 0, 0),
    {
        let count: usize = self.declared.len();
        let ghost whole = runs_from(block, kept@, 0, 0, 0);
        let mut runs: Vec<(usize, usize)> = Vec::new();
        let mut start: usize = 0;
        let mut open: usize = 0;
        let mut index: usize = 0;
        proof {
            assert(run_views(runs@) + whole =~= whole);
        }
        while index < count
            invariant
                start <= index <= count == block.len(),
                self.describes(block),
                whole == run_views(runs@) + runs_from(
                    block,
                    kept@,
                    index as int,
                    start as int,
                    open as int,
                ),
            decreases count - index,
        {
            let ghost held = run_views(runs@);
            let far = self.find_reach(index, kept, Ghost(block));
            if far > open {
                open = far;
            }
            if index >= open {
                runs.push((start, index));
                proof {
                    let rest = runs_from(block, kept@, index + 1, index + 1, index + 1);
                    assert(run_views(runs@) =~= held.push((start as int, index as int)));
                    assert(run_views(runs@) + rest =~= held + (seq![(start as int, index as int)]
                        + rest));
                }
                start = index + 1;
                open = start;
            }
            index += 1;
        }
        if start < count {
            let ghost held = run_views(runs@);
            runs.push((start, count - 1));
            proof {
                assert(run_views(runs@) =~= held + seq![(start as int, count - 1)]);
            }
        } else {
            proof {
                assert(run_views(runs@) + Seq::<(int, int)>::empty() =~= run_views(runs@));
            }
        }
        runs
    }

    fn merge_runs(&self, runs: &Vec<(usize, usize)>, Ghost(block): Ghost<Seq<StatementView>>) -> (merged:
        Vec<(usize, usize)>)
        requires
            self.describes(block),
            is_sorted(run_views(runs@), 0, block.len() as int),
        ensures
            run_views(merged@) == merged_from(block, run_views(runs@), 0, Seq::empty()),
    {
        let ghost list = run_views(runs@);
        let ghost whole = merged_from(block, list, 0, Seq::empty());
        let mut merged: Vec<(usize, usize)> = Vec::new();
        let mut at: usize = 0;
        proof {
            assert(run_views(merged@) =~= Seq::empty());
        }
        while at < runs.len()
            invariant
                at <= runs@.len(),
                list == run_views(runs@),
                self.describes(block),
                is_sorted(list, 0, block.len() as int),
                forall|i: int|
                    0 <= i < merged@.len() ==> (#[trigger] merged@[i]).0 <= merged@[i].1
                        && merged@[i].1 < block.len(),
                whole == merged_from(block, list, at as int, run_views(merged@)),
            decreases runs.len() - at,
        {
            let run = runs[at];
            let ghost held = run_views(merged@);
            let length: usize = self.declared.len();
            proof {
                assert(list[at as int] == (run.0 as int, run.1 as int));
            }
            let mut joined = false;
            if merged.len() > 0 {
                let last = merged[merged.len() - 1];
                proof {
                    assert(held.last() == (last.0 as int, last.1 as int));
                }
                if last.1 + 1 == run.0 && self.count(last.0, last.1 + 1, Ghost(block))
                    < MIN_SCOPE_DECLARATIONS {
                    let end = merged.len() - 1;
                    merged.set(end, (last.0, run.1));
                    joined = true;
                    proof {
                        assert(run_views(merged@) =~= held.drop_last().push(
                            (last.0 as int, run.1 as int),
                        ));
                    }
                }
            }
            if !joined {
                merged.push(run);
                proof {
                    assert(run_views(merged@) =~= held.push((run.0 as int, run.1 as int)));
                }
            }
            at += 1;
        }
        merged
    }

    fn find_all_runs(&self, kept: &FxHashSet<u64>, Ghost(block): Ghost<Seq<StatementView>>) -> (runs:
        Vec<(usize, usize)>)
        requires
            self.describes(block),
        ensures
            run_views(runs@) == runs_of(block, kept@),
            is_sorted(run_views(runs@), 0, block.len() as int),
    {
        proof {
            lemma_runs(block, kept@, 0, 0, 0);
            runs_hold_their_locals(block, kept@);
        }
        let runs = self.find_runs(kept, Ghost(block));
        self.merge_runs(&runs, Ghost(block))
    }

    fn is_worth_wrapping(&self, run: (usize, usize), Ghost(block): Ghost<Seq<StatementView>>) -> (result:
        bool)
        requires
            self.describes(block),
            run.0 <= run.1,
            run.1 < block.len(),
        ensures
            result == is_worth(block, (run.0 as int, run.1 as int)),
    {
        let length: usize = self.declared.len();
        self.count(run.0, run.1 + 1, Ghost(block)) >= MIN_SCOPE_DECLARATIONS && (run.0 > 0 || run.1
            + 1 < length)
    }

    fn find_largest(&self, runs: &Vec<(usize, usize)>, Ghost(block): Ghost<Seq<StatementView>>) -> (most:
        Option<usize>)
        requires
            self.describes(block),
            is_sorted(run_views(runs@), 0, block.len() as int),
        ensures
            most == largest_from(block, run_views(runs@), 0, None),
    {
        let ghost list = run_views(runs@);
        let ghost whole = largest_from(block, list, 0, None);
        let mut most: Option<usize> = None;
        let mut at: usize = 0;
        while at < runs.len()
            invariant
                at <= runs@.len(),
                list == run_views(runs@),
                self.describes(block),
                is_sorted(list, 0, block.len() as int),
                whole == largest_from(block, list, at as int, most),
            decreases runs.len() - at,
        {
            let run = runs[at];
            proof {
                assert(list[at as int] == (run.0 as int, run.1 as int));
            }
            let length: usize = self.declared.len();
            if self.is_worth_wrapping(run, Ghost(block)) {
                let count = self.count(run.0, run.1 + 1, Ghost(block));
                let more = match most {
                    Some(held) => count >= held,
                    None => true,
                };
                if more {
                    most = Some(count);
                }
            }
            at += 1;
        }
        most
    }

    fn find_widest(
        &self,
        kept: &FxHashSet<u64>,
        bound: &FxHashSet<u64>,
        Ghost(block): Ghost<Seq<StatementView>>,
    ) -> (found: Option<RcLocal>)
        requires
            self.describes(block),
        ensures
            match widest_from(block, 0, kept@, bound@, None) {
                Some((_, local)) => found == Some(local),
                None => found is None,
            },
    {
        let ghost whole = widest_from(block, 0, kept@, bound@, None);
        let mut best: Option<(i128, RcLocal)> = None;
        let mut index: usize = 0;
        while index < self.declared.len()
            invariant
                index <= self.declared@.len(),
                self.describes(block),
                whole == widest_from(block, index as int, kept@, bound@, best_view(best)),
            decreases self.declared.len() - index,
        {
            let locals = &self.declared[index];
            let ghost list = block[index as int].own_declared();
            let ghost inner = widest_in(
                block,
                index as int,
                list,
                0,
                kept@,
                bound@,
                best_view(best),
            );
            let mut at: usize = 0;
            while at < locals.len()
                invariant
                    at <= locals@.len(),
                    locals@ == list,
                    self.describes(block),
                    inner == widest_in(
                        block,
                        index as int,
                        list,
                        at as int,
                        kept@,
                        bound@,
                        best_view(best),
                    ),
                decreases locals.len() - at,
            {
                let local = locals[at];
                proof {
                    assert(last_in(self.last@, local) == last_reference(
                        block,
                        block.len() as int,
                        local,
                    ));
                }
                if !has_member(kept, local.id) && !has_member(bound, local.id) {
                    let wide: i128 = match find_entry(&self.last, local.id) {
                        Some(last) => *last as i128 - index as i128,
                        None => 0,
                    };
                    let more = match best {
                        Some((most, _)) => wide >= most,
                        None => true,
                    };
                    if more {
                        best = Some((wide, local));
                    }
                }
                at += 1;
            }
            index += 1;
        }
        match best {
            Some((_, local)) => Some(local),
            None => None,
        }
    }

    fn keep_back(
        &self,
        budget: usize,
        pinned: &FxHashSet<u64>,
        bound: &FxHashSet<u64>,
        Ghost(block): Ghost<Seq<StatementView>>,
    ) -> (kept: FxHashSet<u64>)
        requires
            self.describes(block),
        ensures
            kept@ == kept_back(block, budget, pinned@, bound@),
    {
        let ghost whole = kept_back(block, budget, pinned@, bound@);
        let mut kept = copy_set(pinned);
        loop
            invariant
                self.describes(block),
                whole == kept_back(block, budget, pinned@, bound@),
                whole == kept_back(block, budget, kept@, bound@),
            decreases loose_from(block, 0, kept@, bound@),
        {
            let runs = self.find_all_runs(&kept, Ghost(block));
            if let Some(largest) = self.find_largest(&runs, Ghost(block)) {
                if largest <= budget || member_count(&kept) >= budget {
                    return kept;
                }
            }
            match self.find_widest(&kept, bound, Ghost(block)) {
                Some(local) => {
                    proof {
                        lemma_widest(block, 0, kept@, bound@, None);
                    }
                    let fresh = insert_member(&mut kept, local.id);
                },
                None => {
                    return kept;
                },
            }
        }
    }

    fn count_relieved(
        &self,
        runs: &Vec<(usize, usize)>,
        kept: &FxHashSet<u64>,
        Ghost(block): Ghost<Seq<StatementView>>,
    ) -> (count: usize)
        requires
            self.describes(block),
            is_sorted(run_views(runs@), 0, block.len() as int),
        ensures
            count == relieved_from(block, run_views(runs@), 0, kept@),
    {
        let ghost list = run_views(runs@);
        let mut count: usize = 0;
        let mut at: usize = runs.len();
        while at > 0
            invariant
                at <= runs@.len(),
                list == run_views(runs@),
                self.describes(block),
                is_sorted(list, 0, block.len() as int),
                count == relieved_from(block, list, at as int, kept@),
            decreases at,
        {
            at -= 1;
            let run = runs[at];
            proof {
                assert(list[at as int] == (run.0 as int, run.1 as int));
            }
            let length: usize = self.declared.len();
            if self.is_worth_wrapping(run, Ghost(block)) {
                let more = self.count_freed(run.0, run.1 + 1, kept, Ghost(block));
                count = raise(count, more);
            }
        }
        count
    }
}

/// The models of runs.
spec fn run_views(runs: Seq<(usize, usize)>) -> Seq<(int, int)> {
    Seq::new(runs.len(), |i: int| (runs[i].0 as int, runs[i].1 as int))
}

spec fn best_view(best: Option<(i128, RcLocal)>) -> Option<(int, RcLocal)> {
    match best {
        Some((wide, local)) => Some((wide as int, local)),
        None => None,
    }
}

fn resists_grouping(block: &Block) -> (result: bool)
    ensures
        result == resists(block@),
{
    let ghost views = block@;
    let mut index: usize = 0;
    while index < block.0.len()
        invariant
            index <= block.0@.len() == views.len(),
            views == block@,
            forall|i: int|
                0 <= i < index ==> !((#[trigger] views[i]).is_rooted() || (views[i].is_terminator()
                    && i != views.len() - 1)),
        decreases block.0.len() - index,
    {
        let statement = &block.0[index];
        proof {
            assert(views[index as int] == block.0@[index as int]@);
            nodes::statement_node(*statement);
        }
        let rooted = matches!(
            statement,
            Statement::Label(_) | Statement::Close(_) | Statement::NumForInit(_)
            | Statement::NumForNext(_) | Statement::GenericForInit(_)
            | Statement::GenericForNext(_)
        );
        let ends = matches!(
            statement,
            Statement::Return(_) | Statement::Break(_) | Statement::Continue(_) | Statement::Goto(_)
        );
        proof {
            assert(rooted == views[index as int].is_rooted());
            assert(ends == views[index as int].is_terminator());
        }
        if rooted || (ends && index != block.0.len() - 1) {
            return true;
        }
        index += 1;
    }
    false
}

fn find_class_targets(block: &Block) -> (targets: FxHashSet<u64>)
    ensures
        targets@ == class_targets(block@),
{
    let ghost views = block@;
    let mut targets = empty_set();
    let mut index: usize = 0;
    proof {
        assert(targets@ =~= class_targets(views.take(0)));
    }
    while index < block.0.len()
        invariant
            index <= block.0@.len() == views.len(),
            views == block@,
            targets@ == class_targets(views.take(index as int)),
        decreases block.0.len() - index,
    {
        let statement = &block.0[index];
        let ghost less = views.take(index as int);
        let ghost more = views.take(index + 1);
        let ghost before = targets@;
        proof {
            assert(views[index as int] == block.0@[index as int]@);
            nodes::statement_node(*statement);
        }
        if let Statement::Class(class) = statement {
            let fresh = insert_member(&mut targets, class.target.id);
        }
        proof {
            assert forall|id: u64| targets@.contains(id) == class_targets(more).contains(id) by {
                if class_targets(less).contains(id) {
                    let i = choose|i: int|
                        0 <= i < less.len() && (#[trigger] less[i] is Class)
                            && less[i]->Class_0.target.id == id;
                    assert(more[i] is Class && more[i]->Class_0.target.id == id);
                }
                if class_targets(more).contains(id) {
                    let i = choose|i: int|
                        0 <= i < more.len() && (#[trigger] more[i] is Class)
                            && more[i]->Class_0.target.id == id;
                    if i < index {
                        assert(less[i] is Class && less[i]->Class_0.target.id == id);
                    }
                }
                if views[index as int] is Class && views[index as int]->Class_0.target.id == id {
                    assert(more[index as int] is Class);
                }
            }
            assert(targets@ =~= class_targets(more));
        }
        index += 1;
    }
    proof {
        assert(views.take(views.len() as int) =~= views);
    }
    targets
}

/// Whether one of some locals is a member of a set.
fn has_any_member(set: &FxHashSet<u64>, locals: &Vec<RcLocal>) -> (result: bool)
    ensures
        result == exists|i: int|
            0 <= i < locals@.len() && set@.contains((#[trigger] locals@[i]).id),
{
    let mut index: usize = 0;
    while index < locals.len()
        invariant
            index <= locals@.len(),
            forall|i: int| 0 <= i < index ==> !set@.contains((#[trigger] locals@[i]).id),
        decreases locals.len() - index,
    {
        if has_member(set, locals[index].id) {
            assert(set@.contains(locals@[index as int].id));
            return true;
        }
        index += 1;
    }
    false
}

/// Takes the declarations of locals that are kept back out of a run. Gives the
/// locals, and the statements left.
fn split_kept_declarations(body: Vec<Statement>, kept: &FxHashSet<u64>) -> (parts: (
    Vec<RcLocal>,
    Vec<Statement>,
))
    ensures
        parts.0@ == hoisted_from(Statement::views(body@), 0, kept@),
        Statement::views(parts.1@) == split_from(Statement::views(body@), 0, kept@),
{
    let ghost views = Statement::views(body@);
    let ghost locals = hoisted_from(views, 0, kept@);
    let ghost whole = split_from(views, 0, kept@);
    let count: usize = body.len();
    let mut rest = body;
    let mut hoisted: Vec<RcLocal> = Vec::new();
    let mut done: Vec<Statement> = Vec::new();
    let mut index: usize = 0;
    proof {
        assert(Statement::views(done@) + whole =~= whole);
        assert(hoisted@ + locals =~= locals);
    }
    while index < count
        invariant
            index <= count == views.len(),
            rest@.len() == count - index,
            Statement::views(rest@) =~= views.skip(index as int),
            locals == hoisted@ + hoisted_from(views, index as int, kept@),
            whole == Statement::views(done@) + split_from(views, index as int, kept@),
        decreases count - index,
    {
        let ghost before = Statement::views(rest@);
        let ghost held = Statement::views(done@);
        let ghost named = hoisted@;
        let ghost fewer = split_from(views, index + 1, kept@);
        let ghost later = hoisted_from(views, index + 1, kept@);
        let statement = rest.remove(0);
        proof {
            assert(before[0] == views[index as int]);
            assert(Statement::views(rest@) =~= before.skip(1));
            assert(before.skip(1) =~= views.skip(index + 1));
            nodes::statement_node(statement);
        }
        let declared = find_own_declared(&statement);
        let splits = has_any_member(kept, &declared);
        match statement {
            Statement::Assign(assign) => {
                proof {
                    nodes::assign_node(assign);
                }
                if assign.prefix && splits {
                    push_locals(&declared, &mut hoisted);
                    proof {
                        assert(hoisted@ + later =~= named + (declared@ + later));
                    }
                    if assign.right.len() > 0 {
                        let bare = Assign {
                            left: assign.left,
                            right: assign.right,
                            prefix: false,
                            parallel: assign.parallel,
                        };
                        let put = Statement::Assign(bare);
                        proof {
                            nodes::assign_node(bare);
                            nodes::statement_node(put);
                        }
                        let ghost added = put@;
                        done.push(put);
                        proof {
                            assert(Statement::views(done@) =~= held.push(added));
                            assert(Statement::views(done@) + fewer =~= held + (seq![added]
                                + fewer));
                        }
                    }
                } else {
                    let put = Statement::Assign(assign);
                    proof {
                        nodes::statement_node(put);
                    }
                    let ghost added = put@;
                    done.push(put);
                    proof {
                        assert(Statement::views(done@) =~= held.push(added));
                        assert(Statement::views(done@) + fewer =~= held + (seq![added] + fewer));
                    }
                }
            },
            other => {
                let ghost added = other@;
                done.push(other);
                proof {
                    assert(Statement::views(done@) =~= held.push(added));
                    assert(Statement::views(done@) + fewer =~= held + (seq![added] + fewer));
                }
            },
        }
        index += 1;
    }
    proof {
        assert(Statement::views(done@) + Seq::<StatementView>::empty() =~= Statement::views(done@));
        assert(hoisted@ + Seq::<RcLocal>::empty() =~= hoisted@);
    }
    (hoisted, done)
}

/// Adds the declaration to place ahead of a run's scope.
fn push_hoisted(done: &mut Vec<Statement>, locals: &Vec<RcLocal>)
    ensures
        Statement::views(final(done)@) == Statement::views(old(done)@) + ({
            let ids = name_locals::all_with(Seq::empty(), locals@);
            local_declarations::bare_declaration(
                Seq::new(ids.len(), |i: int| RcLocal { id: ids[i] }),
            )
        }),
{
    let mut set = empty_ordered_set();
    insert_locals(&mut set, locals);
    let ids = list_members(&set);
    let mut distinct: Vec<RcLocal> = Vec::new();
    let mut index: usize = 0;
    while index < ids.len()
        invariant
            index <= ids@.len(),
            distinct@.len() == index,
            forall|i: int| 0 <= i < index ==> #[trigger] distinct@[i] == (RcLocal { id: ids@[i] }),
        decreases ids.len() - index,
    {
        distinct.push(RcLocal { id: ids[index] });
        index += 1;
    }
    proof {
        assert(distinct@ =~= Seq::new(ids@.len(), |i: int| RcLocal { id: ids@[i] }));
    }
    push_declaration(done, &distinct);
}

fn narrow_value(value: RValue) -> (narrowed: RValue)
    ensures
        narrowed@ == value@.narrowed(),
    decreases value@.size(), 0int, 0int,
{
    let ghost whole = value@;
    proof {
        nodes::rvalue_node(value);
        model::lemma_children_smaller(whole);
    }
    match value {
        RValue::Closure(closure) => {
            let Closure { function, upvalues } = closure;
            let Function { id, name, parameters, is_variadic, is_method, body } = *function;
            let budget = lower(FUNCTION_BUDGET, parameters.len());
            let none = empty_set();
            let body = narrow(body, budget, 0, &none);
            let narrowed = RValue::Closure(
                Closure {
                    function: Box::new(
                        Function { id, name, parameters, is_variadic, is_method, body },
                    ),
                    upvalues,
                },
            );
            proof {
                nodes::rvalue_node(narrowed);
                assert(narrowed@ =~= whole.narrowed());
            }
            narrowed
        },
        other => {
            let (shell, operands) = other.decompose();
            proof {
                lemma_narrowed_count(whole.children(), 0);
                assert forall|count: int| count == whole.children().len() implies shell@.takes(
                    count,
                ) by {
                }
            }
            let operands = narrow_values(operands);
            let ghost given = RValue::views(operands@);
            proof {
                assert(operands@.len() == given.len());
                assert(whole.takes(operands@.len() as int));
                assert(shell@.takes(operands@.len() as int));
            }
            let narrowed = shell.compose(operands);
            proof {
                assert(narrowed@ == whole.with_children(given));
            }
            narrowed
        },
    }
}

proof fn lemma_narrowed_count(values: Seq<RValueView>, from: int)
    requires
        0 <= from <= values.len(),
    ensures
        RValueView::narrowed_from(values, from).len() == values.len() - from,
    decreases values.len() - from,
{
    if from < values.len() {
        lemma_narrowed_count(values, from + 1);
    }
}

proof fn lemma_narrowed_block_count(
    blocks: Seq<Seq<StatementView>>,
    from: int,
    budget: usize,
    depth: usize,
    pinned: Set<u64>,
)
    requires
        0 <= from <= blocks.len(),
    ensures
        StatementView::narrowed_blocks(blocks, from, budget, depth, pinned).len() == blocks.len()
            - from,
    decreases blocks.len() - from,
{
    if from < blocks.len() {
        lemma_narrowed_block_count(blocks, from + 1, budget, depth, pinned);
    }
}

fn narrow_values(values: Vec<RValue>) -> (narrowed: Vec<RValue>)
    ensures
        RValue::views(narrowed@) == RValueView::narrowed_from(RValue::views(values@), 0),
    decreases RValueView::sizes_from(RValue::views(values@), 0), 1int, 0int,
{
    let ghost views = RValue::views(values@);
    let ghost whole = RValueView::narrowed_from(views, 0);
    let count: usize = values.len();
    let mut rest = values;
    let mut narrowed: Vec<RValue> = Vec::new();
    let mut index: usize = 0;
    proof {
        assert(RValue::views(narrowed@) + whole =~= whole);
    }
    while index < count
        invariant
            index <= count == views.len(),
            rest@.len() == count - index,
            RValue::views(rest@) =~= views.skip(index as int),
            views == RValue::views(values@),
            whole == RValue::views(narrowed@) + RValueView::narrowed_from(views, index as int),
        decreases count - index,
    {
        let ghost before = RValue::views(rest@);
        let ghost held = RValue::views(narrowed@);
        let value = rest.remove(0);
        proof {
            assert(before[0] == views[index as int]);
            assert(RValue::views(rest@) =~= before.skip(1));
            model::lemma_sizes_member(views, 0, index as int);
        }
        let value = narrow_value(value);
        let ghost put = value@;
        narrowed.push(value);
        proof {
            let fewer = RValueView::narrowed_from(views, index + 1);
            assert(RValue::views(narrowed@) + fewer =~= held + (seq![put] + fewer));
        }
        index += 1;
    }
    proof {
        assert(RValue::views(narrowed@) + Seq::<RValueView>::empty() =~= RValue::views(narrowed@));
    }
    narrowed
}

fn narrow_nested(statement: Statement, budget: usize, depth: usize) -> (narrowed: Statement)
    ensures
        narrowed@ == statement@.narrowed(budget, depth),
    decreases statement@.size(), 0int, 0int,
{
    let ghost whole = statement@;
    proof {
        nodes::statement_node(statement);
        model::lemma_statement_parts(whole);
    }
    let mut inner = budget;
    let mut level = depth;
    let mut pinned = empty_set();
    match &statement {
        Statement::Do(_) => {
            level = bump(depth);
        },
        Statement::Repeat(repeat) => {
            add_all(&repeat.condition.values_read(), &mut pinned);
            proof {
                assert(pinned@ =~= local_grouping::numbers(repeat.condition@.reads()));
            }
        },
        Statement::NumericFor(_) => {
            inner = lower(budget, 1);
        },
        Statement::GenericFor(generic_for) => {
            inner = lower(budget, generic_for.res_locals.len());
        },
        _ => {},
    }
    let ghost terms = whole.nested_terms(budget, depth);
    proof {
        assert(pinned@ =~= terms.2);
    }
    let (shell, roots, blocks) = statement.decompose();
    proof {
        lemma_narrowed_count(whole.roots(), 0);
        lemma_narrowed_block_count(whole.blocks(), 0, terms.0, terms.1, terms.2);
    }
    let roots = narrow_values(roots);
    let ghost given = RValue::views(roots@);
    let blocks = narrow_blocks(blocks, inner, level, &pinned);
    proof {
        assert(roots@.len() == given.len());
        assert(whole.takes(roots@.len() as int));
        assert(blocks@.len() == Block::views(blocks@).len());
        shape_laws::given_roots(whole, given);
    }
    shell.compose(roots, blocks)
}

fn narrow_blocks(blocks: Vec<Block>, budget: usize, depth: usize, pinned: &FxHashSet<u64>) -> (narrowed:
    Vec<Block>)
    ensures
        Block::views(narrowed@) == StatementView::narrowed_blocks(
            Block::views(blocks@),
            0,
            budget,
            depth,
            pinned@,
        ),
    decreases StatementView::block_sizes_from(Block::views(blocks@), 0), 5int, blocks@.len(),
{
    let ghost views = Block::views(blocks@);
    let ghost whole = StatementView::narrowed_blocks(views, 0, budget, depth, pinned@);
    let count: usize = blocks.len();
    let mut rest = blocks;
    let mut narrowed: Vec<Block> = Vec::new();
    let mut index: usize = 0;
    proof {
        assert(Block::views(narrowed@) + whole =~= whole);
    }
    while index < count
        invariant
            index <= count == views.len(),
            rest@.len() == count - index,
            Block::views(rest@) =~= views.skip(index as int),
            views == Block::views(blocks@),
            whole == Block::views(narrowed@) + StatementView::narrowed_blocks(
                views,
                index as int,
                budget,
                depth,
                pinned@,
            ),
        decreases count - index,
    {
        let ghost before = Block::views(rest@);
        let ghost held = Block::views(narrowed@);
        let block = rest.remove(0);
        proof {
            assert(before[0] == views[index as int]);
            assert(Block::views(rest@) =~= before.skip(1));
            model::lemma_block_sizes_member(views, 0, index as int);
        }
        let block = narrow(block, budget, depth, pinned);
        let ghost put = block@;
        narrowed.push(block);
        proof {
            let fewer = StatementView::narrowed_blocks(
                views,
                index + 1,
                budget,
                depth,
                pinned@,
            );
            assert(Block::views(narrowed@) + fewer =~= held + (seq![put] + fewer));
        }
        index += 1;
    }
    proof {
        assert(Block::views(narrowed@) + Seq::<Seq<StatementView>>::empty() =~= Block::views(
            narrowed@,
        ));
    }
    narrowed
}

/// Moves statements of a block over, with what is nested in them narrowed.
fn narrow_range(
    rest: &mut Vec<Statement>,
    done: &mut Vec<Statement>,
    at: usize,
    to: usize,
    budget: usize,
    depth: usize,
    Ghost(block): Ghost<Seq<StatementView>>,
)
    requires
        at <= to <= block.len(),
        Statement::views(old(rest)@) == block.skip(at as int),
    ensures
        Statement::views(final(rest)@) == block.skip(to as int),
        Statement::views(final(done)@) == Statement::views(old(done)@)
            + StatementView::narrowed_range(block, at as int, to as int, budget, depth),
    decreases StatementView::sizes_from(block, 0), 2int, 0int,
{
    let ghost whole = Statement::views(done@) + StatementView::narrowed_range(
        block,
        at as int,
        to as int,
        budget,
        depth,
    );
    let mut index: usize = at;
    while index < to
        invariant
            at <= index <= to <= block.len(),
            Statement::views(rest@) == block.skip(index as int),
            whole == Statement::views(done@) + StatementView::narrowed_range(
                block,
                index as int,
                to as int,
                budget,
                depth,
            ),
        decreases to - index,
    {
        let ghost before = Statement::views(rest@);
        let ghost held = Statement::views(done@);
        proof {
            assert(before.len() == rest@.len());
            assert(before[0] == block[index as int]);
            model::lemma_statement_sizes_member(block, 0, index as int);
        }
        let statement = rest.remove(0);
        proof {
            assert(Statement::views(rest@) =~= before.skip(1));
            assert(before.skip(1) =~= block.skip(index + 1));
        }
        let statement = narrow_nested(statement, budget, depth);
        let ghost put = statement@;
        done.push(statement);
        proof {
            let fewer = StatementView::narrowed_range(
                block,
                index + 1,
                to as int,
                budget,
                depth,
            );
            assert(Statement::views(done@) =~= held.push(put));
            assert(Statement::views(done@) + fewer =~= held + (seq![put] + fewer));
        }
        index += 1;
    }
    proof {
        assert(Statement::views(done@) + Seq::<StatementView>::empty() =~= Statement::views(done@));
    }
}

/// Puts the runs of a block that are worth it into scopes.
fn scope_runs(
    block: Block,
    extents: &Extents,
    runs: &Vec<(usize, usize)>,
    kept: &FxHashSet<u64>,
    budget: usize,
    depth: usize,
) -> (scoped: Block)
    requires
        extents.describes(block@),
        is_sorted(run_views(runs@), 0, block@.len() as int),
    ensures
        scoped@ == StatementView::grouped_from(
            block@,
            run_views(runs@),
            0,
            0,
            kept@,
            budget,
            depth,
        ),
    decreases StatementView::sizes_from(block@, 0), 3int, 0int,
{
    let ghost views = block@;
    let ghost list = run_views(runs@);
    let ghost whole = StatementView::grouped_from(views, list, 0, 0, kept@, budget, depth);
    let mut rest = block.0;
    let count: usize = rest.len();
    let mut done: Vec<Statement> = Vec::new();
    let mut at: usize = 0;
    let mut from: usize = 0;
    proof {
        assert(Statement::views(done@) + whole =~= whole);
        assert(views.skip(0) =~= views);
    }
    while from < runs.len()
        invariant
            from <= runs@.len(),
            at <= count == views.len(),
            views == block@,
            list == run_views(runs@),
            extents.describes(views),
            is_sorted(list, 0, views.len() as int),
            forall|j: int| from <= j < list.len() ==> at <= (#[trigger] list[j]).0,
            Statement::views(rest@) == views.skip(at as int),
            whole == Statement::views(done@) + StatementView::grouped_from(
                views,
                list,
                from as int,
                at as int,
                kept@,
                budget,
                depth,
            ),
        decreases runs.len() - from,
    {
        let run = runs[from];
        proof {
            assert(list[from as int] == (run.0 as int, run.1 as int));
        }
        if extents.is_worth_wrapping(run, Ghost(views)) {
            let ghost held = Statement::views(done@);
            narrow_range(&mut rest, &mut done, at, run.0, budget, depth, Ghost(views));
            let ghost reached = Statement::views(done@);
            let ghost body_views = views.subrange(run.0 as int, run.1 + 1);
            let mut body: Vec<Statement> = Vec::new();
            let mut index: usize = run.0;
            while index <= run.1
                invariant
                    run.0 <= index <= run.1 + 1,
                    run.1 < count == views.len(),
                    Statement::views(rest@) == views.skip(index as int),
                    Statement::views(body@) == views.subrange(run.0 as int, index as int),
                decreases run.1 + 1 - index,
            {
                let ghost before = Statement::views(rest@);
                let ghost taken = Statement::views(body@);
                proof {
                    assert(before.len() == rest@.len());
                    assert(before[0] == views[index as int]);
                }
                let statement = rest.remove(0);
                proof {
                    assert(Statement::views(rest@) =~= before.skip(1));
                    assert(before.skip(1) =~= views.skip(index + 1));
                }
                body.push(statement);
                proof {
                    assert(Statement::views(body@) =~= taken.push(views[index as int]));
                    assert(taken.push(views[index as int]) =~= views.subrange(
                        run.0 as int,
                        index + 1,
                    ));
                }
                index += 1;
            }
            let (locals, body) = split_kept_declarations(body, kept);
            push_hoisted(&mut done, &locals);
            let inside = Block(body);
            let none = empty_set();
            proof {
                lemma_run_smaller(views, (run.0 as int, run.1 as int), kept@);
                assert(inside@ == split_from(body_views, 0, kept@));
            }
            let inside = narrow(inside, budget, bump(depth), &none);
            let scope = Statement::Do(Do { block: inside });
            proof {
                nodes::statement_node(scope);
            }
            let ghost put = scope@;
            let ghost ahead = Statement::views(done@);
            done.push(scope);
            proof {
                assert(Statement::views(done@) =~= ahead.push(put));
                let later = StatementView::grouped_from(
                    views,
                    list,
                    from + 1,
                    run.1 + 1,
                    kept@,
                    budget,
                    depth,
                );
                let range = StatementView::narrowed_range(
                    views,
                    at as int,
                    run.0 as int,
                    budget,
                    depth,
                );
                assert(ahead =~= held + range + hoisted(body_views, kept@));
                assert(Statement::views(done@) + later =~= held + (range + hoisted(
                    body_views,
                    kept@,
                ) + seq![put] + later));
                assert forall|j: int| from + 1 <= j < list.len() implies run.1 + 1 <= (
                #[trigger] list[j]).0 by {
                    assert(list[from as int].1 < list[j].0);
                }
            }
            at = run.1 + 1;
        }
        from += 1;
    }
    narrow_range(&mut rest, &mut done, at, count, budget, depth, Ghost(views));
    Block(done)
}

/// Whether a set holds the target of one of the classes in a block.
fn pins_class(block: &Block, pinned: &FxHashSet<u64>) -> (result: bool)
    ensures
        result == !pinned@.disjoint(class_targets(block@)),
{
    let ghost views = block@;
    let mut index: usize = 0;
    while index < block.0.len()
        invariant
            index <= block.0@.len() == views.len(),
            views == block@,
            forall|i: int|
                0 <= i < index && (#[trigger] views[i] is Class) ==> !pinned@.contains(
                    views[i]->Class_0.target.id,
                ),
        decreases block.0.len() - index,
    {
        let statement = &block.0[index];
        proof {
            assert(views[index as int] == block.0@[index as int]@);
            nodes::statement_node(*statement);
        }
        if let Statement::Class(class) = statement {
            if has_member(pinned, class.target.id) {
                proof {
                    assert(views[index as int] is Class);
                    assert(class_targets(views).contains(class.target.id));
                    assert(pinned@.contains(class.target.id));
                }
                return true;
            }
        }
        index += 1;
    }
    proof {
        assert forall|id: u64| pinned@.contains(id) implies !class_targets(views).contains(id) by {
        }
    }
    false
}

fn find_left_over(budget: usize, held: usize) -> (left: usize)
    ensures
        left == left_over(budget, held),
{
    let rest = lower(budget, held);
    if rest > MINIMUM_BUDGET {
        rest
    } else {
        MINIMUM_BUDGET
    }
}

/// Groups a block's declarations, then hands what is left of the budget to the
/// blocks nested in it.
///
/// `depth` counts only the scopes added on the way here, so a block already
/// wrapped several times stops being wrapped again. `pinned` names locals that
/// something outside the statement list reads, so no scope may close over them.
fn narrow(block: Block, budget: usize, depth: usize, pinned: &FxHashSet<u64>) -> (narrowed: Block)
    ensures
        narrowed@ == StatementView::narrowed_block(block@, budget, depth, pinned@),
    decreases StatementView::sizes_from(block@, 0), 4int, 0int,
{
    let ghost views = block@;
    let extents = Extents::new(&block);
    let count: usize = block.0.len();
    let total = extents.count(0, count, Ghost(views));
    if depth < MAX_ADDED_DEPTH && total > budget && !resists_grouping(&block) && !pins_class(
        &block,
        pinned,
    ) {
        let bound = find_class_targets(&block);
        let kept = extents.keep_back(budget, pinned, &bound, Ghost(views));
        let runs = extents.find_all_runs(&kept, Ghost(views));
        let relieved = extents.count_relieved(&runs, &kept, Ghost(views));
        let left = find_left_over(budget, lower(total, relieved));
        scope_runs(block, &extents, &runs, &kept, left, depth)
    } else {
        let left = find_left_over(budget, total);
        let mut rest = block.0;
        let mut done: Vec<Statement> = Vec::new();
        proof {
            assert(views.skip(0) =~= views);
        }
        narrow_range(&mut rest, &mut done, 0, count, left, depth, Ghost(views));
        let narrowed = Block(done);
        proof {
            assert(narrowed@ =~= StatementView::narrowed_range(
                views,
                0,
                views.len() as int,
                left,
                depth,
            ));
        }
        narrowed
    }
}

/// Groups runs of statements in over-budget blocks into `do ... end` scopes so
/// the locals they declare release their registers early.
///
/// A run is only eligible when every local it declares is unreferenced
/// afterwards, so the grouping is purely lexical: no statement moves, no
/// expression changes, and every reference keeps resolving to the same
/// declaration.
pub fn narrow_local_scopes(block: Block) -> (narrowed: Block)
    ensures
        narrowed@ == StatementView::narrowed_block(block@, FUNCTION_BUDGET, 0, Set::empty()),
{
    let none = empty_set();
    narrow(block, FUNCTION_BUDGET, 0, &none)
}

} // verus!
