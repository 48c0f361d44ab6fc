//! Declaring locals in the narrowest scope that holds all their uses.

use vstd::prelude::*;

use rustc_hash::{FxHashMap, FxHashSet};

use crate::ast::local::RcLocal;
use crate::ast::local_grouping::add_all;
use crate::ast::local_rw::LocalRw;
use crate::ast::nodes::{
    Assign, AssignView, Block, LValue, LValueView, RValue, RValueView, Statement, StatementView,
};
use crate::ast::scope_graph::{dominator_chains, intersect};
use crate::ast::{local_grouping, model, name_locals, nodes, scope_graph, shape_laws};
use crate::collections::{
    empty_map, empty_ordered_set, empty_set, find_entry, has_member, insert_entry, insert_ordered,
    list_members, remove_entry,
};

verus! {

broadcast use nodes::group_views;

/// A scope: the one around it, whether it is a block, and which statement of
/// the block around it opens it. A conditional is a scope of its own around its
/// two blocks.
#[derive(Debug, Clone, Copy, PartialEq, Eq, Structural)]
pub struct Scope {
    pub parent: usize,
    pub is_block: bool,
    pub index: usize,
}

/// A use of a local: in which scope, and by which of its statements.
#[derive(Debug, Clone, Copy, PartialEq, Eq, Structural)]
pub struct Usage {
    pub local: RcLocal,
    pub node: usize,
    pub index: usize,
}

/// The scopes of a tree, the uses of locals in them, and the locals that
/// statements declare by themselves.
#[verifier::ext_equal]
pub struct ScopeTable {
    pub scopes: Seq<Scope>,
    pub usages: Seq<Usage>,
    pub intrinsic: Set<u64>,
}

impl ScopeTable {
    /// The table of nothing.
    pub open spec fn empty() -> ScopeTable {
        ScopeTable { scopes: Seq::empty(), usages: Seq::empty(), intrinsic: Set::empty() }
    }

    /// Every scope comes after the one around it, and uses stand in scopes.
    pub open spec fn well_formed(self) -> bool {
        &&& is_tree(self.scopes)
        &&& forall|i: int|
            0 <= i < self.usages.len() ==> (#[trigger] self.usages[i]).node < self.scopes.len()
    }

    /// The table with a scope opened.
    pub open spec fn opened(self, parent: usize, is_block: bool, index: usize) -> ScopeTable {
        ScopeTable { scopes: self.scopes.push(Scope { parent, is_block, index }), ..self }
    }

    /// The table with uses of locals.
    pub open spec fn used(self, locals: Seq<RcLocal>, node: usize, index: usize) -> ScopeTable {
        ScopeTable {
            usages: self.usages + Seq::new(
                locals.len(),
                |i: int| Usage { local: locals[i], node, index },
            ),
            ..self
        }
    }

    /// The table with locals that declare themselves.
    pub open spec fn declaring(self, locals: Seq<RcLocal>) -> ScopeTable {
        ScopeTable {
            intrinsic: self.intrinsic.union(local_grouping::numbers(locals)),
            ..self
        }
    }
}

/// Whether every scope but the first comes after the one around it.
pub open spec fn is_tree(scopes: Seq<Scope>) -> bool {
    forall|i: int| 0 < i < scopes.len() ==> (#[trigger] scopes[i]).parent < i
}

impl StatementView {
    /// The locals that a statement declares by itself.
    pub open spec fn intrinsic(self) -> Seq<RcLocal> {
        match self {
            StatementView::Class(class) => seq![class.target],
            StatementView::NumericFor { counter, .. } => seq![counter],
            StatementView::GenericFor { res_locals, .. } => res_locals,
            _ => Seq::empty(),
        }
    }

    /// The table past the head of a statement. The condition of a repeat loop
    /// shares the scope of its body, so it is no use in this scope.
    pub open spec fn head_visited(self, node: usize, index: usize, table: ScopeTable) -> ScopeTable {
        let declared = table.declaring(self.intrinsic());
        if self is Repeat {
            declared
        } else {
            declared.used(self.locals(), node, index)
        }
    }

    /// The table past a statement, the one at `index` of the scope `node`.
    pub open spec fn visited(self, node: usize, index: usize, table: ScopeTable) -> ScopeTable
        decreases self.size(), 0int, 0int,
    {
        proof {
            model::lemma_statement_parts(self);
        }
        let head = self.head_visited(node, index, table);
        let child = head.scopes.len() as usize;
        match self {
            StatementView::Do(_) => head,
            StatementView::If { .. } => Self::blocks_visited(
                self.blocks(),
                0,
                child,
                index,
                head.opened(node, false, index),
            ),
            StatementView::Repeat { condition, block } => Self::blocks_visited(
                self.blocks(),
                0,
                node,
                index,
                head,
            ).used(condition.reads(), child, block.len() as usize),
            _ => Self::blocks_visited(self.blocks(), 0, node, index, head),
        }
    }

    /// The table past the blocks from position `from` on.
    pub open spec fn blocks_visited(
        blocks: Seq<Seq<StatementView>>,
        from: int,
        parent: usize,
        index: usize,
        table: ScopeTable,
    ) -> ScopeTable
        decreases Self::block_sizes_from(blocks, from), 3int, blocks.len() - from,
    {
        if 0 <= from < blocks.len() {
            Self::blocks_visited(
                blocks,
                from + 1,
                parent,
                index,
                Self::block_visited(blocks[from], parent, index, table),
            )
        } else {
            table
        }
    }

    /// The table past a block that the statement at `index` of the scope
    /// `parent` opens.
    pub open spec fn block_visited(
        block: Seq<StatementView>,
        parent: usize,
        index: usize,
        table: ScopeTable,
    ) -> ScopeTable
        decreases Self::sizes_from(block, 0), 2int, 0int,
    {
        Self::visited_from(
            block,
            0,
            table.scopes.len() as usize,
            table.opened(parent, true, index),
        )
    }

    /// The table past the statements of the scope `node` from position `from`
    /// on.
    pub open spec fn visited_from(
        statements: Seq<StatementView>,
        from: int,
        node: usize,
        table: ScopeTable,
    ) -> ScopeTable
        decreases Self::sizes_from(statements, from), 1int, 0int,
    {
        proof {
            model::lemma_statement_sizes_step(statements, from);
        }
        if 0 <= from < statements.len() {
            Self::visited_from(
                statements,
                from + 1,
                node,
                statements[from].visited(node, from as usize, table),
            )
        } else {
            table
        }
    }
}

/// Whether a scope is another or around it.
pub open spec fn is_around(scopes: Seq<Scope>, outer: usize, inner: usize) -> bool
    decreases inner,
{
    ||| outer == inner
    ||| 0 < inner < scopes.len() && scopes[inner as int].parent < inner && is_around(
        scopes,
        outer,
        scopes[inner as int].parent,
    )
}

/// The statement of the scope `outer` that a use in the scope `node` is part
/// of, `index` being its statement there.
pub open spec fn entry(scopes: Seq<Scope>, outer: usize, node: usize, index: usize) -> usize
    decreases node,
{
    if outer != node && 0 < node < scopes.len() && scopes[node as int].parent < node {
        entry(scopes, outer, scopes[node as int].parent, scopes[node as int].index)
    } else {
        index
    }
}

/// Where the first `count` uses are of a local.
pub open spec fn uses_of(usages: Seq<Usage>, count: int, local: RcLocal) -> Seq<(usize, usize)>
    decreases count,
{
    if count <= 0 {
        Seq::empty()
    } else if usages[count - 1].local == local {
        uses_of(usages, count - 1, local).push((usages[count - 1].node, usages[count - 1].index))
    } else {
        uses_of(usages, count - 1, local)
    }
}

/// Whether a scope is around all of some uses.
pub open spec fn is_common(scopes: Seq<Scope>, uses: Seq<(usize, usize)>, node: usize) -> bool {
    forall|i: int| 0 <= i < uses.len() ==> is_around(scopes, node, (#[trigger] uses[i]).0)
}

/// The innermost scope around all of some uses.
pub open spec fn nearest(scopes: Seq<Scope>, uses: Seq<(usize, usize)>) -> usize {
    choose|node: usize| is_nearest(scopes, uses, node)
}

/// Whether a scope is the innermost one around all of some uses.
pub open spec fn is_nearest(scopes: Seq<Scope>, uses: Seq<(usize, usize)>, node: usize) -> bool {
    &&& is_common(scopes, uses, node)
    &&& forall|other: usize| #[trigger] is_common(scopes, uses, other) ==> other <= node
}

/// The first statement of a scope that one of some uses is part of, or `least`
/// if that is before.
pub open spec fn first_entry(
    scopes: Seq<Scope>,
    node: usize,
    uses: Seq<(usize, usize)>,
    count: int,
) -> usize
    decreases count,
{
    let last = entry(scopes, node, uses[count - 1].0, uses[count - 1].1);
    if count <= 1 {
        last
    } else {
        let before = first_entry(scopes, node, uses, count - 1);
        if last < before {
            last
        } else {
            before
        }
    }
}

/// The block that a place stands in: out of a conditional, which holds no
/// statements of its own, into the block around it.
pub open spec fn lifted(scopes: Seq<Scope>, node: usize, index: usize) -> (usize, usize)
    decreases node,
{
    if 0 < node < scopes.len() && scopes[node as int].parent < node && !scopes[node as int].is_block {
        lifted(scopes, scopes[node as int].parent, scopes[node as int].index)
    } else {
        (node, index)
    }
}

/// Where a local with some uses is declared.
pub open spec fn place(scopes: Seq<Scope>, uses: Seq<(usize, usize)>) -> (usize, usize) {
    let node = nearest(scopes, uses);
    lifted(scopes, node, first_entry(scopes, node, uses, uses.len() as int))
}

/// The locals used, in the order of their first use.
pub open spec fn used_locals(usages: Seq<Usage>) -> Seq<u64> {
    name_locals::all_with(Seq::empty(), Seq::new(usages.len(), |i: int| usages[i].local))
}

/// Where the locals from position `from` on are declared that do not declare
/// themselves and are not to be ignored.
pub open spec fn placements_from(
    table: ScopeTable,
    ignored: Set<u64>,
    order: Seq<u64>,
    from: int,
) -> Seq<Usage>
    decreases order.len() - from,
{
    if 0 <= from < order.len() {
        let rest = placements_from(table, ignored, order, from + 1);
        if ignored.contains(order[from]) || table.intrinsic.contains(order[from]) {
            rest
        } else {
            let local = RcLocal { id: order[from] };
            let (node, index) = place(
                table.scopes,
                uses_of(table.usages, table.usages.len() as int, local),
            );
            seq![Usage { local, node, index }] + rest
        }
    } else {
        Seq::empty()
    }
}

/// Where the locals of a tree are declared.
pub open spec fn placements(table: ScopeTable, ignored: Set<u64>) -> Seq<Usage> {
    placements_from(table, ignored, used_locals(table.usages), 0)
}

/// The locals that are declared at a statement of a scope.
pub open spec fn declared_at(
    placements: Seq<Usage>,
    from: int,
    node: usize,
    index: usize,
) -> Seq<RcLocal>
    decreases placements.len() - from,
{
    if 0 <= from < placements.len() {
        let rest = declared_at(placements, from + 1, node, index);
        if placements[from].node == node && placements[from].index == index {
            seq![placements[from].local] + rest
        } else {
            rest
        }
    } else {
        Seq::empty()
    }
}

/// Whether a target is one of some locals.
pub open spec fn is_target_of(target: LValueView, locals: Seq<RcLocal>) -> bool {
    match target {
        LValueView::Local(local) => locals.contains(local),
        _ => false,
    }
}

/// Whether a statement can declare locals where they are: an assignment to
/// some of them alone.
pub open spec fn can_declare(statement: StatementView, locals: Seq<RcLocal>) -> bool {
    match statement {
        StatementView::Assign(assign) => forall|i: int|
            0 <= i < assign.left.len() ==> is_target_of(#[trigger] assign.left[i], locals),
        _ => false,
    }
}

/// The locals from position `from` on that are no targets.
pub open spec fn not_targeted(locals: Seq<RcLocal>, from: int, targets: Seq<LValueView>) -> Seq<
    RcLocal,
>
    decreases locals.len() - from,
{
    if 0 <= from < locals.len() {
        let rest = not_targeted(locals, from + 1, targets);
        if targets.contains(LValueView::Local(locals[from])) {
            rest
        } else {
            seq![locals[from]] + rest
        }
    } else {
        Seq::empty()
    }
}

/// A declaration of locals without values, where there are any.
pub open spec fn bare_declaration(locals: Seq<RcLocal>) -> Seq<StatementView> {
    if locals.len() == 0 {
        Seq::empty()
    } else {
        seq![
            StatementView::Assign(
                AssignView {
                    left: Seq::new(locals.len(), |i: int| LValueView::Local(locals[i])),
                    right: Seq::empty(),
                    prefix: true,
                    parallel: false,
                },
            ),
        ]
    }
}

/// A statement at which locals are declared.
pub open spec fn opened(statement: StatementView, locals: Seq<RcLocal>) -> Seq<StatementView> {
    if locals.len() == 0 {
        seq![statement]
    } else if can_declare(statement, locals) {
        let assign = statement->Assign_0;
        bare_declaration(not_targeted(locals, 0, assign.left)).push(
            StatementView::Assign(AssignView { prefix: true, ..assign }),
        )
    } else {
        bare_declaration(locals).push(statement)
    }
}

/// The statements of a scope from position `from` on with the locals declared
/// at them, and those declared past the last one.
pub open spec fn opened_from(
    statements: Seq<StatementView>,
    from: int,
    node: usize,
    placements: Seq<Usage>,
) -> Seq<StatementView>
    decreases statements.len() - from,
{
    let locals = declared_at(placements, 0, node, from as usize);
    if 0 <= from < statements.len() {
        opened(statements[from], locals) + opened_from(statements, from + 1, node, placements)
    } else {
        bare_declaration(locals)
    }
}

impl StatementView {
    /// This statement with the locals declared in the blocks nested in it, the
    /// first scope in it being number `number`; and the number past it.
    pub open spec fn declared_in(self, number: nat, placements: Seq<Usage>) -> (nat, StatementView)
        decreases self.size(), 0int, 0int,
    {
        proof {
            model::lemma_statement_parts(self);
        }
        if self is Do {
            (number, self)
        } else {
            let first = if self is If {
                number + 1
            } else {
                number
            };
            let (last, blocks) = Self::blocks_declared_in(self.blocks(), 0, first, placements);
            (last, self.with_blocks(blocks))
        }
    }

    /// The blocks from position `from` on with locals declared in them.
    pub open spec fn blocks_declared_in(
        blocks: Seq<Seq<StatementView>>,
        from: int,
        number: nat,
        placements: Seq<Usage>,
    ) -> (nat, Seq<Seq<StatementView>>)
        decreases Self::block_sizes_from(blocks, from), 3int, blocks.len() - from,
    {
        if 0 <= from < blocks.len() {
            let (next, first) = Self::block_declared_in(blocks[from], number, placements);
            let (last, rest) = Self::blocks_declared_in(blocks, from + 1, next, placements);
            (last, seq![first] + rest)
        } else {
            (number, Seq::empty())
        }
    }

    /// The block that is scope `number` with locals declared in it.
    pub open spec fn block_declared_in(
        block: Seq<StatementView>,
        number: nat,
        placements: Seq<Usage>,
    ) -> (nat, Seq<StatementView>)
        decreases Self::sizes_from(block, 0), 2int, 0int,
    {
        let (last, statements) = Self::declared_in_from(block, 0, number + 1, placements);
        (last, opened_from(statements, 0, number as usize, placements))
    }

    /// The statements from position `from` on with locals declared in them.
    pub open spec fn declared_in_from(
        statements: Seq<StatementView>,
        from: int,
        number: nat,
        placements: Seq<Usage>,
    ) -> (nat, Seq<StatementView>)
        decreases Self::sizes_from(statements, from), 1int, 0int,
    {
        proof {
            model::lemma_statement_sizes_step(statements, from);
        }
        if 0 <= from < statements.len() {
            let (next, first) = statements[from].declared_in(number, placements);
            let (last, rest) = Self::declared_in_from(statements, from + 1, next, placements);
            (last, seq![first] + rest)
        } else {
            (number, Seq::empty())
        }
    }
}

/// A tree with its locals declared.
pub open spec fn with_locals_declared(block: Seq<StatementView>, ignored: Set<u64>) -> Seq<
    StatementView,
> {
    let table = StatementView::block_visited(block, 0, 0, ScopeTable::empty());
    StatementView::block_declared_in(block, 0, placements(table, ignored)).1
}

/// The edges from every scope to the scopes in it.
pub open spec fn scope_edges(scopes: Seq<Scope>) -> Seq<(usize, usize)> {
    Seq::new(
        if scopes.len() > 0 {
            (scopes.len() - 1) as nat
        } else {
            0
        },
        |i: int| (scopes[i + 1].parent, (i + 1) as usize),
    )
}

/// The scopes around a scope, from the outermost one on.
spec fn way_in(scopes: Seq<Scope>, node: usize) -> Seq<usize>
    decreases node,
{
    if 0 < node < scopes.len() && scopes[node as int].parent < node {
        way_in(scopes, scopes[node as int].parent).push(node)
    } else {
        seq![node]
    }
}

proof fn lemma_way_in(scopes: Seq<Scope>, node: usize)
    requires
        is_tree(scopes),
        node < scopes.len() <= usize::MAX,
    ensures
        scope_graph::is_path(scope_edges(scopes), 0, node, way_in(scopes, node)),
        forall|i: int|
            0 <= i < way_in(scopes, node).len() ==> is_around(
                scopes,
                #[trigger] way_in(scopes, node)[i],
                node,
            ),
    decreases node,
{
    let path = way_in(scopes, node);
    if node > 0 {
        let parent = scopes[node as int].parent;
        assert(scopes[node as int].parent < node);
        lemma_way_in(scopes, parent);
        let before = way_in(scopes, parent);
        let edges = scope_edges(scopes);
        assert(edges[node - 1] == (parent, node));
        assert forall|i: int, j: int| 0 <= i < j < path.len() && j == i + 1 implies edges.contains(
            (#[trigger] path[i], #[trigger] path[j]),
        ) by {
            if j < before.len() {
                assert(edges.contains((before[i], before[j])));
            } else {
                assert(path[i] == before.last());
                assert(path[j] == node);
            }
        }
        assert forall|i: int| 0 <= i < path.len() implies is_around(
            scopes,
            #[trigger] path[i],
            node,
        ) by {
            if i < before.len() {
                assert(is_around(scopes, before[i], parent));
            }
        }
    }
}

proof fn lemma_on_path(scopes: Seq<Scope>, outer: usize, node: usize, path: Seq<usize>)
    requires
        is_tree(scopes),
        node < scopes.len() <= usize::MAX,
        scope_graph::is_path(scope_edges(scopes), 0, node, path),
        is_around(scopes, outer, node),
    ensures
        path.contains(outer),
    decreases path.len(),
{
    let edges = scope_edges(scopes);
    assert(path[path.len() - 1] == node);
    if outer != node {
        let parent = scopes[node as int].parent;
        assert(path.len() > 1);
        let shorter = path.drop_last();
        assert(edges.contains((path[path.len() - 2], path[path.len() - 1])));
        let i = choose|i: int|
            0 <= i < edges.len() && edges[i] == (path[path.len() - 2], path[path.len() - 1]);
        assert((i + 1) as usize == node);
        assert(i + 1 == node);
        assert(shorter.last() == parent);
        assert forall|k: int, l: int| 0 <= k < l < shorter.len() && l == k
            + 1 implies edges.contains((#[trigger] shorter[k], #[trigger] shorter[l])) by {
            assert(edges.contains((path[k], path[l])));
        }
        lemma_on_path(scopes, outer, parent, shorter);
        let k = choose|k: int| 0 <= k < shorter.len() && shorter[k] == outer;
        assert(path[k] == outer);
    }
}

/// In the graph of scopes, what dominates a scope is what is around it.
proof fn lemma_dominators(scopes: Seq<Scope>, outer: usize, node: usize)
    requires
        is_tree(scopes),
        node < scopes.len() <= usize::MAX,
    ensures
        scope_graph::dominates(scope_edges(scopes), 0, outer, node) == is_around(
            scopes,
            outer,
            node,
        ),
        scope_graph::is_reachable(scope_edges(scopes), 0, node),
{
    let edges = scope_edges(scopes);
    let path = way_in(scopes, node);
    lemma_way_in(scopes, node);
    if scope_graph::dominates(edges, 0, outer, node) {
        assert(path.contains(outer));
        let i = choose|i: int| 0 <= i < path.len() && path[i] == outer;
        assert(is_around(scopes, path[i], node));
    }
    if is_around(scopes, outer, node) {
        assert forall|path: Seq<usize>| #[trigger]
            scope_graph::is_path(edges, 0, node, path) implies path.contains(outer) by {
            lemma_on_path(scopes, outer, node, path);
        }
    }
}

proof fn lemma_around_below(scopes: Seq<Scope>, outer: usize, inner: usize)
    requires
        is_around(scopes, outer, inner),
    ensures
        outer <= inner,
    decreases inner,
{
    if outer != inner {
        lemma_around_below(scopes, outer, scopes[inner as int].parent);
    }
}

proof fn lemma_nearest(scopes: Seq<Scope>, uses: Seq<(usize, usize)>, node: usize)
    requires
        is_nearest(scopes, uses, node),
    ensures
        nearest(scopes, uses) == node,
{
    let chosen = nearest(scopes, uses);
    assert(is_nearest(scopes, uses, chosen));
    assert(is_common(scopes, uses, chosen));
    assert(is_common(scopes, uses, node));
}

proof fn lemma_root_around(scopes: Seq<Scope>, node: usize)
    requires
        is_tree(scopes),
        node < scopes.len(),
    ensures
        is_around(scopes, 0, node),
    decreases node,
{
    if node > 0 {
        assert(scopes[node as int].parent < node);
        lemma_root_around(scopes, scopes[node as int].parent);
    }
}

/// The innermost scope around all of some uses is there whenever there is a
/// use.
proof fn lemma_nearest_exists(scopes: Seq<Scope>, uses: Seq<(usize, usize)>, below: usize)
    requires
        is_tree(scopes),
        uses.len() > 0,
        forall|i: int| 0 <= i < uses.len() ==> (#[trigger] uses[i]).0 < scopes.len(),
        forall|other: usize| #[trigger] is_common(scopes, uses, other) ==> other <= below,
    ensures
        exists|node: usize| is_nearest(scopes, uses, node),
    decreases below,
{
    if is_common(scopes, uses, below) {
        assert(is_nearest(scopes, uses, below));
    } else if below > 0 {
        assert forall|other: usize| #[trigger] is_common(scopes, uses, other) implies other <= (
        below - 1) as usize by {
        }
        lemma_nearest_exists(scopes, uses, (below - 1) as usize);
    } else {
        assert forall|i: int| 0 <= i < uses.len() implies is_around(
            scopes,
            0,
            (#[trigger] uses[i]).0,
        ) by {
            lemma_root_around(scopes, uses[i].0);
        }
    }
}

proof fn lemma_entry_through(
    scopes: Seq<Scope>,
    outer: usize,
    middle: usize,
    node: usize,
    index: usize,
)
    requires
        is_tree(scopes),
        is_around(scopes, outer, middle),
        is_around(scopes, middle, node),
        outer != middle,
    ensures
        is_around(scopes, outer, node),
        entry(scopes, outer, node, index) == entry(
            scopes,
            outer,
            middle,
            entry(scopes, middle, node, index),
        ),
    decreases node,
{
    if middle != node {
        lemma_around_below(scopes, outer, middle);
        lemma_around_below(scopes, middle, scopes[node as int].parent);
        lemma_entry_through(
            scopes,
            outer,
            middle,
            scopes[node as int].parent,
            scopes[node as int].index,
        );
    }
}

proof fn lemma_lifted(scopes: Seq<Scope>, node: usize, index: usize, inner: usize, at: usize)
    requires
        is_tree(scopes),
        is_around(scopes, node, inner),
        index <= entry(scopes, node, inner, at),
    ensures
        ({
            let (outer, first) = lifted(scopes, node, index);
            is_around(scopes, outer, inner) && first <= entry(scopes, outer, inner, at)
        }),
    decreases node,
{
    if 0 < node < scopes.len() && scopes[node as int].parent < node
        && !scopes[node as int].is_block {
        let parent = scopes[node as int].parent;
        assert(is_around(scopes, parent, node)) by {
            assert(is_around(scopes, parent, parent));
        }
        lemma_entry_through(scopes, parent, node, inner, at);
        let through = entry(scopes, node, inner, at);
        assert(entry(scopes, parent, node, through) == entry(
            scopes,
            parent,
            parent,
            scopes[node as int].index,
        ));
        lemma_lifted(scopes, parent, scopes[node as int].index, inner, at);
    }
}

proof fn lemma_first_entry(
    scopes: Seq<Scope>,
    node: usize,
    uses: Seq<(usize, usize)>,
    count: int,
    i: int,
)
    requires
        0 <= i < count <= uses.len(),
    ensures
        first_entry(scopes, node, uses, count) <= entry(scopes, node, uses[i].0, uses[i].1),
    decreases count,
{
    if i < count - 1 {
        lemma_first_entry(scopes, node, uses, count - 1, i);
    }
}

/// A local is declared in a scope around each of its uses, no later than the
/// statement that the use is part of there.
pub proof fn declarations_reach_every_use(
    scopes: Seq<Scope>,
    uses: Seq<(usize, usize)>,
    i: int,
)
    requires
        is_tree(scopes),
        0 <= i < uses.len(),
        forall|k: int| 0 <= k < uses.len() ==> (#[trigger] uses[k]).0 < scopes.len(),
    ensures
        ({
            let (node, index) = place(scopes, uses);
            &&& is_around(scopes, node, uses[i].0)
            &&& index <= entry(scopes, node, uses[i].0, uses[i].1)
        }),
{
    assert forall|other: usize| #[trigger] is_common(scopes, uses, other) implies other
        <= uses[i].0 by {
        assert(is_around(scopes, other, uses[i].0));
        lemma_around_below(scopes, other, uses[i].0);
    }
    lemma_nearest_exists(scopes, uses, uses[i].0);
    let node = nearest(scopes, uses);
    assert(is_nearest(scopes, uses, node));
    assert(is_around(scopes, node, uses[i].0));
    lemma_first_entry(scopes, node, uses, uses.len() as int, i);
    lemma_lifted(
        scopes,
        node,
        first_entry(scopes, node, uses, uses.len() as int),
        uses[i].0,
        uses[i].1,
    );
}

/// Finds where locals are used and declares them.
#[derive(Debug)]
pub struct LocalDeclarer {
    scopes: Vec<Scope>,
    usages: Vec<Usage>,
    intrinsic: FxHashSet<u64>,
}

impl Default for LocalDeclarer {
    fn default() -> (declarer: Self)
        ensures
            declarer@ == ScopeTable::empty(),
    {
        let declarer = LocalDeclarer {
            scopes: Vec::new(),
            usages: Vec::new(),
            intrinsic: empty_set(),
        };
        proof {
            assert(declarer@ =~= ScopeTable::empty());
        }
        declarer
    }
}

impl LocalDeclarer {
    /// What has been found so far.
    pub closed spec fn view(&self) -> ScopeTable {
        ScopeTable {
            scopes: self.scopes@,
            usages: self.usages@,
            intrinsic: self.intrinsic@,
        }
    }

    fn open(&mut self, parent: usize, is_block: bool, index: usize)
        requires
            old(self)@.well_formed(),
            old(self)@.scopes.len() > 0 ==> parent < old(self)@.scopes.len(),
        ensures
            final(self)@ == old(self)@.opened(parent, is_block, index),
            final(self)@.well_formed(),
    {
        self.scopes.push(Scope { parent, is_block, index });
        proof {
            assert(self@ =~= old(self)@.opened(parent, is_block, index));
        }
    }

    fn record_usages(&mut self, locals: &Vec<RcLocal>, node: usize, index: usize)
        requires
            old(self)@.well_formed(),
            node < old(self)@.scopes.len(),
        ensures
            final(self)@ == old(self)@.used(locals@, node, index),
            final(self)@.well_formed(),
    {
        let mut at: usize = 0;
        proof {
            assert(self@ =~= old(self)@.used(locals@.take(0), node, index));
        }
        while at < locals.len()
            invariant
                at <= locals@.len(),
                node < self@.scopes.len(),
                self@.well_formed(),
                self@ == old(self)@.used(locals@.take(at as int), node, index),
            decreases locals.len() - at,
        {
            let ghost before = self@;
            self.usages.push(Usage { local: locals[at], node, index });
            proof {
                assert(self@.usages == before.usages.push(
                    Usage { local: locals@[at as int], node, index },
                ));
                assert(self@.scopes == before.scopes);
                assert(self@ =~= old(self)@.used(locals@.take(at + 1), node, index));
            }
            at += 1;
        }
        proof {
            assert(locals@.take(locals@.len() as int) =~= locals@);
        }
    }

    fn record_head(&mut self, statement: &Statement, node: usize, index: usize)
        requires
            old(self)@.well_formed(),
            node < old(self)@.scopes.len(),
        ensures
            final(self)@ == statement@.head_visited(node, index, old(self)@),
            final(self)@.well_formed(),
    {
        proof {
            nodes::statement_node(*statement);
        }
        let mut declared: Vec<RcLocal> = Vec::new();
        match statement {
            Statement::Class(class) => {
                declared.push(class.target);
            },
            Statement::NumericFor(numeric_for) => {
                declared.push(numeric_for.counter);
            },
            Statement::GenericFor(generic_for) => {
                declared = crate::ast::copy::copy_locals(&generic_for.res_locals);
            },
            _ => {},
        }
        proof {
            assert(declared@ =~= statement@.intrinsic());
        }
        add_all(&declared, &mut self.intrinsic);
        proof {
            assert(self@ =~= old(self)@.declaring(statement@.intrinsic()));
        }
        if !matches!(statement, Statement::Repeat(_)) {
            self.record_usages(&statement.values(), node, index);
        }
    }

    fn visit_statement(&mut self, statement: &Statement, node: usize, index: usize)
        requires
            old(self)@.well_formed(),
            node < old(self)@.scopes.len(),
        ensures
            final(self)@ == statement@.visited(node, index, old(self)@),
            final(self)@.well_formed(),
            final(self)@.scopes.len() >= old(self)@.scopes.len(),
        decreases statement@.size(), 0int, 0int,
    {
        let ghost whole = statement@;
        proof {
            nodes::statement_node(*statement);
            model::lemma_statement_parts(whole);
        }
        self.record_head(statement, node, index);
        let child: usize = self.scopes.len();
        match statement {
            Statement::Do(_) => {},
            Statement::If(_) => {
                self.open(node, false, index);
                self.visit_blocks(statement, child, index);
            },
            Statement::Repeat(repeat) => {
                self.visit_blocks(statement, node, index);
                proof {
                    assert(whole.blocks()[0] == repeat.block@);
                }
                self.record_usages(
                    &repeat.condition.values_read(),
                    child,
                    repeat.block.0.len(),
                );
            },
            _ => {
                self.visit_blocks(statement, node, index);
            },
        }
    }

    fn visit_blocks(&mut self, statement: &Statement, parent: usize, index: usize)
        requires
            old(self)@.well_formed(),
            parent < old(self)@.scopes.len(),
            !(statement@ is Do),
        ensures
            final(self)@ == StatementView::blocks_visited(
                statement@.blocks(),
                0,
                parent,
                index,
                old(self)@,
            ),
            final(self)@.well_formed(),
            final(self)@.scopes.len() >= old(self)@.scopes.len() + (if statement@.blocks().len()
                > 0 {
                1int
            } else {
                0int
            }),
        decreases StatementView::block_sizes_from(statement@.blocks(), 0), 3int, 0int,
    {
        let blocks = statement.blocks();
        let ghost views = Block::borrowed(blocks@);
        let ghost whole = StatementView::blocks_visited(views, 0, parent, index, self@);
        let ghost scopes = self@.scopes.len();
        let mut at: usize = 0;
        while at < blocks.len()
            invariant
                at <= blocks@.len() == views.len(),
                views == Block::borrowed(blocks@),
                views == statement@.blocks(),
                self@.well_formed(),
                parent < scopes,
                self@.scopes.len() >= scopes + (if at > 0 {
                    1int
                } else {
                    0int
                }),
                whole == StatementView::blocks_visited(views, at as int, parent, index, self@),
            decreases blocks.len() - at,
        {
            proof {
                model::lemma_block_sizes_member(views, 0, at as int);
            }
            self.visit(blocks[at], parent, index);
            at += 1;
        }
    }

    fn visit(&mut self, block: &Block, parent: usize, index: usize)
        requires
            old(self)@.well_formed(),
            old(self)@.scopes.len() > 0 ==> parent < old(self)@.scopes.len(),
        ensures
            final(self)@ == StatementView::block_visited(block@, parent, index, old(self)@),
            final(self)@.well_formed(),
            final(self)@.scopes.len() > old(self)@.scopes.len(),
        decreases StatementView::sizes_from(block@, 0), 2int, 0int,
    {
        let ghost views = block@;
        let node: usize = self.scopes.len();
        self.open(parent, true, index);
        let ghost whole = StatementView::visited_from(views, 0, node, self@);
        let mut at: usize = 0;
        while at < block.0.len()
            invariant
                at <= block.0@.len() == views.len(),
                views == block@,
                self@.well_formed(),
                node < self@.scopes.len(),
                whole == StatementView::visited_from(views, at as int, node, self@),
            decreases block.0.len() - at,
        {
            proof {
                model::lemma_statement_sizes_member(views, 0, at as int);
                assert(views[at as int] == block.0@[at as int]@);
            }
            self.visit_statement(&block.0[at], node, at);
            at += 1;
        }
    }

    /// The dominators of every scope.
    fn find_chains(&self) -> (chains: Vec<Vec<usize>>)
        requires
            self@.well_formed(),
            self@.scopes.len() > 1,
        ensures
            chains@.len() == self@.scopes.len(),
            forall|node: int|
                0 <= node < chains@.len() ==> is_chain(
                    self@.scopes,
                    (#[trigger] chains@[node])@,
                    node as usize,
                ),
    {
        let ghost scopes = self@.scopes;
        let count: usize = self.scopes.len();
        let mut edges: Vec<(usize, usize)> = Vec::new();
        let mut at: usize = 1;
        while at < count
            invariant
                1 <= at <= count == scopes.len(),
                scopes == self.scopes@,
                edges@.len() == at - 1,
                forall|i: int|
                    0 <= i < edges@.len() ==> #[trigger] edges@[i] == (
                        scopes[i + 1].parent,
                        (i + 1) as usize,
                    ),
            decreases count - at,
        {
            edges.push((self.scopes[at].parent, at));
            at += 1;
        }
        proof {
            assert(edges@ =~= scope_edges(scopes));
            assert(edges@[0].0 == 0) by {
                assert(scopes[1].parent < 1);
            }
            assert forall|i: int| 0 <= i < edges@.len() implies (#[trigger] edges@[i]).0 < count
                && edges@[i].1 < count by {
                assert(scopes[i + 1].parent < i + 1);
            }
        }
        let chains = dominator_chains(&edges, 0, count);
        proof {
            assert forall|node: int| 0 <= node < chains@.len() implies is_chain(
                scopes,
                (#[trigger] chains@[node])@,
                node as usize,
            ) by {
                let chain = chains@[node]@;
                lemma_dominators(scopes, 0, node as usize);
                assert(scope_graph::is_reachable(edges@, 0, node as usize));
                assert(chains@[(node as usize) as int]@ == chain);
                assert forall|other: usize| #[trigger] chain.contains(other) == is_around(
                    scopes,
                    other,
                    node as usize,
                ) by {
                    lemma_dominators(scopes, other, node as usize);
                    assert(chain.contains(other) <==> scope_graph::dominates(
                        edges@,
                        0,
                        other,
                        node as usize,
                    ));
                }
                assert forall|i: int, j: int| 0 <= i < j < chain.len() implies #[trigger] chain[i]
                    > #[trigger] chain[j] by {
                    assert(chain.contains(chain[i]));
                    lemma_around_below(scopes, chain[i], node as usize);
                    lemma_dominators(scopes, chain[j], chain[i]);
                    lemma_around_below(scopes, chain[j], chain[i]);
                }
            }
        }
        chains
    }

    /// Where uses of one local have it declared.
    fn find_place(&self, uses: &Vec<(usize, usize)>, chains: &Vec<Vec<usize>>) -> (found: (
        usize,
        usize,
    ))
        requires
            self@.well_formed(),
            uses@.len() > 0,
            forall|i: int| 0 <= i < uses@.len() ==> (#[trigger] uses@[i]).0 < self@.scopes.len(),
            self@.scopes.len() > 1 ==> chains@.len() == self@.scopes.len() && forall|node: int|
                0 <= node < chains@.len() ==> is_chain(
                    self@.scopes,
                    (#[trigger] chains@[node])@,
                    node as usize,
                ),
        ensures
            found == place(self@.scopes, uses@),
    {
        let ghost scopes = self@.scopes;
        let held: usize = self.scopes.len();
        let mut node: usize = uses[0].0;
        if held > 1 {
            node = find_nearest(uses, chains, Ghost(scopes));
        } else {
            proof {
                assert forall|i: int| 0 <= i < uses@.len() implies (#[trigger] uses@[i]).0 == 0 by {
                }
                assert(is_common(scopes, uses@, node));
                assert forall|other: usize| #[trigger] is_common(
                    scopes,
                    uses@,
                    other,
                ) implies other <= node by {
                    assert(is_around(scopes, other, uses@[0].0));
                    lemma_around_below(scopes, other, uses@[0].0);
                }
                assert(is_nearest(scopes, uses@, node));
            }
        }
        proof {
            lemma_nearest(scopes, uses@, node);
            assert(is_around(scopes, node, uses@[0].0));
            lemma_around_below(scopes, node, uses@[0].0);
        }
        let mut index: usize = self.find_entry_index(node, uses[0].0, uses[0].1);
        let mut at: usize = 1;
        while at < uses.len()
            invariant
                1 <= at <= uses@.len(),
                scopes == self@.scopes,
                self@.well_formed(),
                forall|i: int|
                    0 <= i < uses@.len() ==> (#[trigger] uses@[i]).0 < self@.scopes.len(),
                index == first_entry(scopes, node, uses@, at as int),
            decreases uses.len() - at,
        {
            let (other, place) = uses[at];
            let next = self.find_entry_index(node, other, place);
            if next < index {
                index = next;
            }
            at += 1;
        }
        let ghost whole = lifted(scopes, node, index);
        while node > 0 && !self.scopes[node].is_block
            invariant
                node < scopes.len(),
                scopes == self.scopes@,
                is_tree(scopes),
                whole == lifted(scopes, node, index),
            decreases node,
        {
            let scope = self.scopes[node];
            node = scope.parent;
            index = scope.index;
        }
        (node, index)
    }

    fn find_entry_index(&self, outer: usize, node: usize, index: usize) -> (found: usize)
        requires
            self@.well_formed(),
            node < self@.scopes.len(),
        ensures
            found == entry(self@.scopes, outer, node, index),
    {
        let ghost scopes = self@.scopes;
        let ghost whole = entry(scopes, outer, node, index);
        let mut node: usize = node;
        let mut index: usize = index;
        while node != outer && node > 0
            invariant
                node < scopes.len(),
                scopes == self.scopes@,
                is_tree(scopes),
                whole == entry(scopes, outer, node, index),
            decreases node,
        {
            let scope = self.scopes[node];
            node = scope.parent;
            index = scope.index;
        }
        index
    }

    /// Where the locals found are declared.
    fn find_placements(&self, ignored: &FxHashSet<u64>) -> (found: Vec<Usage>)
        requires
            self@.well_formed(),
        ensures
            found@ == placements(self@, ignored@),
    {
        let ghost table = self@;
        let order = list_used(&self.usages);
        let uses = group_uses(&self.usages);
        let chains = if self.scopes.len() > 1 { self.find_chains() } else { Vec::new() };
        let mut found: Vec<Usage> = Vec::new();
        let mut at: usize = 0;
        proof {
            assert(found@ + placements(table, ignored@) =~= placements(table, ignored@));
        }
        while at < order.len()
            invariant
                at <= order@.len(),
                table == self@,
                table.well_formed(),
                order@ == used_locals(table.usages),
                forall|local: RcLocal| #[trigger]
                    uses_in(uses@, local) == uses_of(
                        table.usages,
                        table.usages.len() as int,
                        local,
                    ),
                self@.scopes.len() > 1 ==> chains@.len() == self@.scopes.len() && forall|node: int|
                    0 <= node < chains@.len() ==> is_chain(
                        self@.scopes,
                        (#[trigger] chains@[node])@,
                        node as usize,
                    ),
                found@ + placements_from(table, ignored@, order@, at as int) == placements(
                    table,
                    ignored@,
                ),
            decreases order.len() - at,
        {
            let id: u64 = order[at];
            let local = RcLocal { id };
            let ghost rest = placements_from(table, ignored@, order@, at + 1);
            let ghost held = found@;
            if !has_member(ignored, id) && !has_member(&self.intrinsic, id) {
                proof {
                    assert(table.usages.take(table.usages.len() as int) =~= table.usages);
                    lemma_used(table.usages, table.usages.len() as int, order@, at as int);
                    lemma_uses_within(table, table.usages.len() as int, local);
                    assert(uses_in(uses@, local) == uses_of(
                        table.usages,
                        table.usages.len() as int,
                        local,
                    ));
                }
                if let Some(list) = find_entry(&uses, id) {
                    let (node, index) = self.find_place(list, &chains);
                    found.push(Usage { local, node, index });
                    proof {
                        assert(found@ + rest =~= held + (seq![Usage { local, node, index }] + rest));
                    }
                }
            }
            at += 1;
        }
        proof {
            assert(found@ + Seq::<Usage>::empty() =~= found@);
        }
        found
    }

    /// Declares the locals of a tree but those to be ignored.
    pub fn declare_locals(self, block: Block, locals_to_ignore: &FxHashSet<u64>) -> (declared: Block)
        requires
            self@ == ScopeTable::empty(),
        ensures
            declared@ == with_locals_declared(block@, locals_to_ignore@),
    {
        let mut declarer = self;
        declarer.visit(&block, 0, 0);
        let found = declarer.find_placements(locals_to_ignore);
        let mut number: usize = 0;
        let limit: usize = declarer.scopes.len();
        proof {
            lemma_numbers(block@, 0, 0, ScopeTable::empty(), found@);
        }
        declare_in_block(block, &mut number, limit, &found)
    }
}

/// Whether a list holds the scopes around a scope, from the inside out.
spec fn is_chain(scopes: Seq<Scope>, chain: Seq<usize>, node: usize) -> bool {
    &&& forall|other: usize| #[trigger] chain.contains(other) == is_around(scopes, other, node)
    &&& forall|i: int, j: int|
        0 <= i < j < chain.len() ==> #[trigger] chain[i] > #[trigger] chain[j]
}

/// The innermost scope around all of some uses.
fn find_nearest(
    uses: &Vec<(usize, usize)>,
    chains: &Vec<Vec<usize>>,
    Ghost(scopes): Ghost<Seq<Scope>>,
) -> (node: usize)
    requires
        is_tree(scopes),
        uses@.len() > 0,
        forall|i: int| 0 <= i < uses@.len() ==> (#[trigger] uses@[i]).0 < scopes.len(),
        chains@.len() == scopes.len(),
        forall|node: int|
            0 <= node < chains@.len() ==> is_chain(
                scopes,
                (#[trigger] chains@[node])@,
                node as usize,
            ),
    ensures
        is_nearest(scopes, uses@, node),
{
    let mut common: Vec<usize> = copy_nodes(&chains[uses[0].0]);
    let mut at: usize = 1;
    proof {
        assert(is_chain(scopes, chains@[uses@[0].0 as int]@, uses@[0].0));
        assert forall|other: usize| #[trigger] common@.contains(other) == is_common(
            scopes,
            uses@.take(1),
            other,
        ) by {
            let first = uses@.take(1);
            assert(first[0] == uses@[0]);
            if common@.contains(other) {
                assert forall|i: int| 0 <= i < first.len() implies is_around(
                    scopes,
                    other,
                    (#[trigger] first[i]).0,
                ) by {
                }
            }
            if is_common(scopes, first, other) {
                assert(is_around(scopes, other, first[0].0));
            }
        }
    }
    while at < uses.len()
        invariant
            1 <= at <= uses@.len(),
            forall|i: int| 0 <= i < uses@.len() ==> (#[trigger] uses@[i]).0 < scopes.len(),
            chains@.len() == scopes.len(),
            forall|node: int|
                0 <= node < chains@.len() ==> is_chain(
                    scopes,
                    (#[trigger] chains@[node])@,
                    node as usize,
                ),
            forall|other: usize| #[trigger]
                common@.contains(other) == is_common(scopes, uses@.take(at as int), other),
            forall|i: int, j: int|
                0 <= i < j < common@.len() ==> #[trigger] common@[i] > #[trigger] common@[j],
        decreases uses.len() - at,
    {
        let ghost before = common@;
        let ghost less = uses@.take(at as int);
        let ghost more = uses@.take(at + 1);
        let other_chain = copy_nodes(&chains[uses[at].0]);
        let ghost chain = other_chain@;
        proof {
            assert(is_chain(scopes, chain, uses@[at as int].0));
        }
        common = intersect(&common, other_chain);
        proof {
            assert forall|other: usize| #[trigger] common@.contains(other) == is_common(
                scopes,
                more,
                other,
            ) by {
                assert(common@.contains(other) <==> before.contains(other) && chain.contains(other));
                assert(before.contains(other) == is_common(scopes, less, other));
                assert(chain.contains(other) == is_around(scopes, other, uses@[at as int].0));
                if is_common(scopes, more, other) {
                    assert forall|i: int| 0 <= i < less.len() implies is_around(
                        scopes,
                        other,
                        (#[trigger] less[i]).0,
                    ) by {
                        assert(more[i] == less[i]);
                    }
                    assert(more[at as int] == uses@[at as int]);
                }
                if is_common(scopes, less, other) && is_around(scopes, other, uses@[at as int].0) {
                    assert forall|i: int| 0 <= i < more.len() implies is_around(
                        scopes,
                        other,
                        (#[trigger] more[i]).0,
                    ) by {
                        if i < at {
                            assert(less[i] == more[i]);
                        }
                    }
                }
            }
            assert forall|i: int, j: int| 0 <= i < j < common@.len() implies #[trigger] common@[i]
                > #[trigger] common@[j] by {
                assert(common@.contains(common@[i]));
                assert(common@.contains(common@[j]));
                let first = before.index_of(common@[i]);
                let second = before.index_of(common@[j]);
                assert(before.contains(common@[i]));
                assert(before.contains(common@[j]));
                assert(before[first] == common@[i]);
                assert(before[second] == common@[j]);
                assert(first < second);
            }
        }
        at += 1;
    }
    proof {
        assert(uses@.take(uses@.len() as int) =~= uses@);
        assert forall|i: int| 0 <= i < uses@.len() implies is_around(
            scopes,
            0,
            (#[trigger] uses@[i]).0,
        ) by {
            lemma_root_around(scopes, uses@[i].0);
        }
        assert(is_common(scopes, uses@, 0));
        assert(common@.contains(0));
    }
    let node: usize = common[0];
    proof {
        assert(common@.contains(common@[0]));
        assert forall|other: usize| #[trigger] is_common(scopes, uses@, other) implies other
            <= node by {
            assert(common@.contains(other));
            let i = choose|i: int| 0 <= i < common@.len() && common@[i] == other;
            if i > 0 {
                assert(common@[0] > common@[i]);
            }
        }
    }
    node
}

fn copy_nodes(nodes: &Vec<usize>) -> (copy: Vec<usize>)
    ensures
        copy@ == nodes@,
{
    let mut copy: Vec<usize> = Vec::new();
    let mut at: usize = 0;
    while at < nodes.len()
        invariant
            at <= nodes@.len(),
            copy@ =~= nodes@.take(at as int),
        decreases nodes.len() - at,
    {
        copy.push(nodes[at]);
        at += 1;
    }
    proof {
        assert(nodes@.take(nodes@.len() as int) =~= nodes@);
    }
    copy
}

/// The uses of a local in a map of them.
spec fn uses_in(map: Map<u64, Vec<(usize, usize)>>, local: RcLocal) -> Seq<(usize, usize)> {
    if map.dom().contains(local.id) {
        map[local.id]@
    } else {
        Seq::empty()
    }
}

fn group_uses(usages: &Vec<Usage>) -> (map: FxHashMap<u64, Vec<(usize, usize)>>)
    ensures
        forall|local: RcLocal| #[trigger]
            uses_in(map@, local) == uses_of(usages@, usages@.len() as int, local),
{
    let mut map = empty_map::<Vec<(usize, usize)>>();
    let mut at: usize = 0;
    while at < usages.len()
        invariant
            at <= usages@.len(),
            forall|local: RcLocal| #[trigger]
                uses_in(map@, local) == uses_of(usages@, at as int, local),
        decreases usages.len() - at,
    {
        let usage = usages[at];
        let ghost before = map@;
        proof {
            assert(uses_in(before, usage.local) == uses_of(usages@, at as int, usage.local));
        }
        let mut list = match remove_entry(&mut map, usage.local.id) {
            Some(list) => list,
            None => Vec::new(),
        };
        list.push((usage.node, usage.index));
        insert_entry(&mut map, usage.local.id, list);
        proof {
            assert forall|other: RcLocal| #[trigger] uses_in(map@, other) == uses_of(
                usages@,
                at + 1,
                other,
            ) by {
                assert(uses_in(before, other) == uses_of(usages@, at as int, other));
                if other.id == usage.local.id {
                    assert(other == usage.local);
                }
            }
        }
        at += 1;
    }
    map
}

fn list_used(usages: &Vec<Usage>) -> (order: Vec<u64>)
    ensures
        order@ == used_locals(usages@),
{
    let ghost locals = Seq::new(usages@.len(), |i: int| usages@[i].local);
    let mut set = empty_ordered_set();
    let mut at: usize = 0;
    proof {
        assert(locals.take(0) =~= Seq::empty());
    }
    while at < usages.len()
        invariant
            at <= usages@.len() == locals.len(),
            locals == Seq::new(usages@.len(), |i: int| usages@[i].local),
            crate::collections::ordered_members(set) == name_locals::all_with(
                Seq::empty(),
                locals.take(at as int),
            ),
        decreases usages.len() - at,
    {
        proof {
            assert(locals.take(at + 1).drop_last() =~= locals.take(at as int));
        }
        insert_ordered(&mut set, usages[at].local.id);
        at += 1;
    }
    proof {
        assert(locals.take(locals.len() as int) =~= locals);
    }
    list_members(&set)
}

/// A local that is listed as used has a use.
proof fn lemma_used(usages: Seq<Usage>, count: int, order: Seq<u64>, at: int)
    requires
        0 <= count <= usages.len(),
        order == used_locals(usages.take(count)),
        0 <= at < order.len(),
    ensures
        uses_of(usages, count, RcLocal { id: order[at] }).len() > 0,
    decreases count,
{
    let locals = Seq::new(usages.take(count).len(), |i: int| usages.take(count)[i].local);
    if count > 0 {
        let before = usages.take(count - 1);
        let fewer = Seq::new(before.len(), |i: int| before[i].local);
        assert(locals.drop_last() =~= fewer);
        let held = used_locals(before);
        assert(order == crate::collections::with_member(held, locals.last().id));
        let local = RcLocal { id: order[at] };
        if at < held.len() {
            lemma_used(usages, count - 1, held, at);
        } else {
            assert(usages[count - 1].local == local);
        }
    }
}

/// Uses stand in scopes.
proof fn lemma_uses_within(table: ScopeTable, count: int, local: RcLocal)
    requires
        table.well_formed(),
        count <= table.usages.len(),
    ensures
        forall|i: int|
            0 <= i < uses_of(table.usages, count, local).len() ==> (#[trigger] uses_of(
                table.usages,
                count,
                local,
            )[i]).0 < table.scopes.len(),
    decreases count,
{
    if count > 0 {
        lemma_uses_within(table, count - 1, local);
        assert(table.usages[count - 1].node < table.scopes.len());
        let before = uses_of(table.usages, count - 1, local);
        assert forall|i: int| 0 <= i < uses_of(table.usages, count, local).len() implies (
        #[trigger] uses_of(table.usages, count, local)[i]).0 < table.scopes.len() by {
            if i < before.len() {
                assert(before[i].0 < table.scopes.len());
            }
        }
    }
}

/// The locals declared at a statement of a scope.
fn find_declared_at(found: &Vec<Usage>, node: usize, index: usize) -> (locals: Vec<RcLocal>)
    ensures
        locals@ == declared_at(found@, 0, node, index),
{
    let mut locals: Vec<RcLocal> = Vec::new();
    let ghost whole = declared_at(found@, 0, node, index);
    let mut at: usize = 0;
    while at < found.len()
        invariant
            at <= found@.len(),
            locals@ + declared_at(found@, at as int, node, index) =~= whole,
        decreases found.len() - at,
    {
        if found[at].node == node && found[at].index == index {
            locals.push(found[at].local);
        }
        at += 1;
    }
    locals
}

pub(crate) fn has_local_in(locals: &Vec<RcLocal>, local: RcLocal) -> (result: bool)
    ensures
        result == locals@.contains(local),
{
    let mut at: usize = 0;
    while at < locals.len()
        invariant
            at <= locals@.len(),
            forall|i: int| 0 <= i < at ==> locals@[i] != local,
        decreases locals.len() - at,
    {
        if locals[at] == local {
            assert(locals@[at as int] == local);
            return true;
        }
        at += 1;
    }
    false
}

fn all_declarable(targets: &Vec<LValue>, locals: &Vec<RcLocal>) -> (result: bool)
    ensures
        result == forall|i: int|
            0 <= i < targets@.len() ==> is_target_of(
                #[trigger] LValue::views(targets@)[i],
                locals@,
            ),
{
    let mut at: usize = 0;
    while at < targets.len()
        invariant
            at <= targets@.len(),
            forall|i: int|
                0 <= i < at ==> is_target_of(#[trigger] LValue::views(targets@)[i], locals@),
        decreases targets.len() - at,
    {
        proof {
            assert(LValue::views(targets@)[at as int] == targets@[at as int]@);
        }
        let held = match targets[at].as_local() {
            Some(local) => has_local_in(locals, local),
            None => false,
        };
        if !held {
            assert(!is_target_of(LValue::views(targets@)[at as int], locals@));
            return false;
        }
        at += 1;
    }
    true
}

fn has_target(targets: &Vec<LValue>, local: RcLocal) -> (result: bool)
    ensures
        result == LValue::views(targets@).contains(LValueView::Local(local)),
{
    let mut at: usize = 0;
    while at < targets.len()
        invariant
            at <= targets@.len(),
            forall|i: int|
                0 <= i < at ==> #[trigger] LValue::views(targets@)[i] != LValueView::Local(local),
        decreases targets.len() - at,
    {
        proof {
            assert(LValue::views(targets@)[at as int] == targets@[at as int]@);
        }
        if targets[at].as_local() == Some(local) {
            assert(LValue::views(targets@)[at as int] == LValueView::Local(local));
            return true;
        }
        at += 1;
    }
    false
}

fn remaining(locals: &Vec<RcLocal>, targets: &Vec<LValue>) -> (rest: Vec<RcLocal>)
    ensures
        rest@ == not_targeted(locals@, 0, LValue::views(targets@)),
{
    let ghost views = LValue::views(targets@);
    let ghost whole = not_targeted(locals@, 0, views);
    let mut rest: Vec<RcLocal> = Vec::new();
    let mut at: usize = 0;
    while at < locals.len()
        invariant
            at <= locals@.len(),
            views == LValue::views(targets@),
            rest@ + not_targeted(locals@, at as int, views) =~= whole,
        decreases locals.len() - at,
    {
        if !has_target(targets, locals[at]) {
            rest.push(locals[at]);
        }
        at += 1;
    }
    rest
}

/// Adds a declaration of locals, where there are any.
pub(crate) fn push_declaration(statements: &mut Vec<Statement>, locals: &Vec<RcLocal>)
    ensures
        Statement::views(final(statements)@) == Statement::views(old(statements)@)
            + bare_declaration(locals@),
{
    proof {
        assert(Statement::views(statements@) + Seq::<StatementView>::empty() =~= Statement::views(
            statements@,
        ));
    }
    if locals.len() == 0 {
        return;
    }
    let mut left: Vec<LValue> = Vec::new();
    let mut at: usize = 0;
    while at < locals.len()
        invariant
            at <= locals@.len(),
            left@.len() == at,
            forall|i: int|
                0 <= i < at ==> #[trigger] LValue::views(left@)[i] == LValueView::Local(
                    locals@[i],
                ),
        decreases locals.len() - at,
    {
        let ghost held = LValue::views(left@);
        let target = LValue::Local(locals[at]);
        proof {
            nodes::lvalue_node(target);
        }
        left.push(target);
        proof {
            assert(LValue::views(left@) =~= held.push(LValueView::Local(locals@[at as int])));
        }
        at += 1;
    }
    let assign = Assign { left, right: Vec::new(), prefix: true, parallel: false };
    let declaration = Statement::Assign(assign);
    proof {
        nodes::assign_node(assign);
        nodes::statement_node(declaration);
        assert(LValue::views(left@) =~= Seq::new(
            locals@.len(),
            |i: int| LValueView::Local(locals@[i]),
        ));
        assert(RValue::views(assign.right@) =~= Seq::<RValueView>::empty());
        assert(seq![declaration@] =~= bare_declaration(locals@));
    }
    let ghost added = declaration@;
    statements.push(declaration);
    proof {
        assert(Statement::views(statements@) =~= Statement::views(old(statements)@).push(added));
    }
}

/// Adds a statement at which locals are declared.
fn push_opened(statements: &mut Vec<Statement>, statement: Statement, locals: &Vec<RcLocal>)
    ensures
        Statement::views(final(statements)@) == Statement::views(old(statements)@) + opened(
            statement@,
            locals@,
        ),
{
    let ghost start = Statement::views(statements@);
    let ghost whole = statement@;
    proof {
        nodes::statement_node(statement);
    }
    let mut statement = statement;
    let mut rest: Vec<RcLocal> = crate::ast::copy::copy_locals(locals);
    if locals.len() > 0 {
        match statement {
            Statement::Assign(assign) => {
                proof {
                    nodes::assign_node(assign);
                }
                if all_declarable(&assign.left, locals) {
                    rest = remaining(locals, &assign.left);
                    let declared = Assign {
                        left: assign.left,
                        right: assign.right,
                        prefix: true,
                        parallel: assign.parallel,
                    };
                    proof {
                        nodes::assign_node(declared);
                    }
                    statement = Statement::Assign(declared);
                } else {
                    statement = Statement::Assign(assign);
                }
            },
            other => {
                statement = other;
            },
        }
    }
    proof {
        nodes::statement_node(statement);
    }
    let ghost put = statement@;
    push_declaration(statements, &rest);
    let ghost held = Statement::views(statements@);
    statements.push(statement);
    proof {
        assert(Statement::views(statements@) =~= held.push(put));
        assert(Statement::views(statements@) =~= start + opened(whole, locals@));
    }
}

/// Declares the locals of a scope at its statements.
fn open_statements(statements: Vec<Statement>, node: usize, found: &Vec<Usage>) -> (block: Block)
    ensures
        block@ == opened_from(Statement::views(statements@), 0, node, found@),
{
    let ghost views = Statement::views(statements@);
    let ghost whole = opened_from(views, 0, node, found@);
    let count: usize = statements.len();
    let mut rest = statements;
    let mut done: Vec<Statement> = Vec::new();
    let mut index: usize = 0;
    proof {
        assert(Statement::views(done@) + whole =~= whole);
    }
    while index < count
        invariant
            index <= count == views.len(),
            rest@.len() == count - index,
            Statement::views(rest@) =~= views.skip(index as int),
            Statement::views(done@) + opened_from(views, index as int, node, found@) == whole,
        decreases count - index,
    {
        let ghost before = Statement::views(rest@);
        let ghost held = Statement::views(done@);
        let statement = rest.remove(0);
        proof {
            assert(before[0] == views[index as int]);
            assert(Statement::views(rest@) =~= before.skip(1));
            assert(before.skip(1) =~= views.skip(index + 1));
        }
        let locals = find_declared_at(found, node, index);
        push_opened(&mut done, statement, &locals);
        proof {
            let remaining = opened_from(views, index as int, node, found@);
            let fewer = opened_from(views, index + 1, node, found@);
            assert(Statement::views(done@) + fewer =~= held + remaining);
        }
        index += 1;
    }
    let locals = find_declared_at(found, node, count);
    push_declaration(&mut done, &locals);
    Block(done)
}

proof fn lemma_visited_numbers(
    statement: StatementView,
    node: usize,
    index: usize,
    table: ScopeTable,
    found: Seq<Usage>,
)
    ensures
        statement.declared_in(table.scopes.len(), found).0 == statement.visited(
            node,
            index,
            table,
        ).scopes.len(),
    decreases statement.size(), 0int, 0int,
{
    model::lemma_statement_parts(statement);
    let head = statement.head_visited(node, index, table);
    let child = head.scopes.len() as usize;
    match statement {
        StatementView::Do(_) => {},
        StatementView::If { .. } => {
            lemma_block_numbers(
                statement.blocks(),
                0,
                child,
                index,
                head.opened(node, false, index),
                found,
            );
        },
        _ => {
            lemma_block_numbers(statement.blocks(), 0, node, index, head, found);
        },
    }
}

proof fn lemma_block_numbers(
    blocks: Seq<Seq<StatementView>>,
    from: int,
    parent: usize,
    index: usize,
    table: ScopeTable,
    found: Seq<Usage>,
)
    ensures
        StatementView::blocks_declared_in(blocks, from, table.scopes.len(), found).0
            == StatementView::blocks_visited(blocks, from, parent, index, table).scopes.len(),
    decreases StatementView::block_sizes_from(blocks, from), 3int, blocks.len() - from,
{
    if 0 <= from < blocks.len() {
        lemma_numbers(blocks[from], parent, index, table, found);
        lemma_block_numbers(
            blocks,
            from + 1,
            parent,
            index,
            StatementView::block_visited(blocks[from], parent, index, table),
            found,
        );
    }
}

/// Declaring locals numbers the scopes as finding them does.
proof fn lemma_numbers(
    block: Seq<StatementView>,
    parent: usize,
    index: usize,
    table: ScopeTable,
    found: Seq<Usage>,
)
    ensures
        StatementView::block_declared_in(block, table.scopes.len(), found).0
            == StatementView::block_visited(block, parent, index, table).scopes.len(),
    decreases StatementView::sizes_from(block, 0), 2int, 0int,
{
    lemma_statement_numbers(
        block,
        0,
        table.scopes.len() as usize,
        table.opened(parent, true, index),
        found,
    );
}

proof fn lemma_statement_numbers(
    statements: Seq<StatementView>,
    from: int,
    node: usize,
    table: ScopeTable,
    found: Seq<Usage>,
)
    ensures
        StatementView::declared_in_from(statements, from, table.scopes.len(), found).0
            == StatementView::visited_from(statements, from, node, table).scopes.len(),
    decreases StatementView::sizes_from(statements, from), 1int, 0int,
{
    model::lemma_statement_sizes_step(statements, from);
    if 0 <= from < statements.len() {
        lemma_visited_numbers(statements[from], node, from as usize, table, found);
        lemma_statement_numbers(
            statements,
            from + 1,
            node,
            statements[from].visited(node, from as usize, table),
            found,
        );
    }
}

/// Numbers only go up.
proof fn lemma_numbers_rise(statement: StatementView, number: nat, found: Seq<Usage>)
    ensures
        statement.declared_in(number, found).0 >= number + (if statement is If {
            1nat
        } else {
            0nat
        }),
        statement is Do || statement.declared_in(number, found).1.blocks().len()
            == statement.blocks().len(),
    decreases statement.size(), 0int, 0int,
{
    model::lemma_statement_parts(statement);
    let first = if statement is If {
        number + 1
    } else {
        number
    };
    lemma_block_numbers_rise(statement.blocks(), 0, first, found);
    if !(statement is Do) {
        let (last, blocks) = StatementView::blocks_declared_in(
            statement.blocks(),
            0,
            first,
            found,
        );
        shape_laws::given_blocks(statement, blocks);
    }
}

proof fn lemma_block_numbers_rise(
    blocks: Seq<Seq<StatementView>>,
    from: int,
    number: nat,
    found: Seq<Usage>,
)
    ensures
        StatementView::blocks_declared_in(blocks, from, number, found).0 >= number,
        0 <= from <= blocks.len() ==> StatementView::blocks_declared_in(
            blocks,
            from,
            number,
            found,
        ).1.len() == blocks.len() - from,
    decreases StatementView::block_sizes_from(blocks, from), 3int, blocks.len() - from,
{
    if 0 <= from < blocks.len() {
        lemma_statement_numbers_rise(blocks[from], 0, number + 1, found);
        let (next, first) = StatementView::block_declared_in(blocks[from], number, found);
        lemma_block_numbers_rise(blocks, from + 1, next, found);
    }
}

proof fn lemma_statement_numbers_rise(
    statements: Seq<StatementView>,
    from: int,
    number: nat,
    found: Seq<Usage>,
)
    ensures
        StatementView::declared_in_from(statements, from, number, found).0 >= number,
    decreases StatementView::sizes_from(statements, from), 1int, 0int,
{
    model::lemma_statement_sizes_step(statements, from);
    if 0 <= from < statements.len() {
        lemma_numbers_rise(statements[from], number, found);
        let (next, first) = statements[from].declared_in(number, found);
        lemma_statement_numbers_rise(statements, from + 1, next, found);
    }
}

fn declare_in_statement(
    statement: Statement,
    number: &mut usize,
    limit: usize,
    found: &Vec<Usage>,
) -> (declared: Statement)
    requires
        statement@.declared_in(*old(number) as nat, found@).0 <= limit,
    ensures
        (*final(number) as nat, declared@) == statement@.declared_in(*old(number) as nat, found@),
    decreases statement@.size(), 0int, 0int,
{
    let ghost whole = statement@;
    let ghost start = *number as nat;
    proof {
        nodes::statement_node(statement);
        model::lemma_statement_parts(whole);
        lemma_numbers_rise(whole, start, found@);
    }
    if matches!(statement, Statement::Do(_)) {
        return statement;
    }
    if matches!(statement, Statement::If(_)) {
        *number += 1;
    }
    let ghost first = *number as nat;
    proof {
        lemma_block_numbers_rise(whole.blocks(), 0, first, found@);
    }
    let (shell, roots, blocks) = statement.decompose();
    let blocks = declare_in_blocks(blocks, number, limit, found);
    proof {
        shape_laws::same_roots(whole);
        assert(roots@.len() == whole.roots().len());
        assert(blocks@.len() == Block::views(blocks@).len());
        shape_laws::given_roots(whole, whole.roots());
    }
    shell.compose(roots, blocks)
}

fn declare_in_blocks(blocks: Vec<Block>, number: &mut usize, limit: usize, found: &Vec<Usage>) -> (declared:
    Vec<Block>)
    requires
        StatementView::blocks_declared_in(
            Block::views(blocks@),
            0,
            *old(number) as nat,
            found@,
        ).0 <= limit,
    ensures
        (*final(number) as nat, Block::views(declared@)) == StatementView::blocks_declared_in(
            Block::views(blocks@),
            0,
            *old(number) as nat,
            found@,
        ),
    decreases StatementView::block_sizes_from(Block::views(blocks@), 0), 3int, blocks@.len(),
{
    let ghost views = Block::views(blocks@);
    let ghost whole = StatementView::blocks_declared_in(views, 0, *number as nat, found@);
    let count: usize = blocks.len();
    let mut rest = blocks;
    let mut declared: Vec<Block> = Vec::new();
    let mut index: usize = 0;
    proof {
        assert(Block::views(declared@) + whole.1 =~= whole.1);
    }
    while index < count
        invariant
            index <= count == views.len(),
            rest@.len() == count - index,
            Block::views(rest@) =~= views.skip(index as int),
            views == Block::views(blocks@),
            whole.0 <= limit,
            ({
                let (last, remaining) = StatementView::blocks_declared_in(
                    views,
                    index as int,
                    *number as nat,
                    found@,
                );
                whole == (last, Block::views(declared@) + remaining)
            }),
        decreases count - index,
    {
        let ghost before = Block::views(rest@);
        let ghost held = Block::views(declared@);
        let ghost start = *number as nat;
        let block = rest.remove(0);
        proof {
            assert(before[0] == views[index as int]);
            assert(Block::views(rest@) =~= before.skip(1));
            model::lemma_block_sizes_member(views, 0, index as int);
            let (next, _) = StatementView::block_declared_in(views[index as int], start, found@);
            lemma_block_numbers_rise(views, index + 1, next, found@);
        }
        let block = declare_in_block(block, number, limit, found);
        let ghost put = block@;
        declared.push(block);
        proof {
            let (last, remaining) = StatementView::blocks_declared_in(
                views,
                index as int,
                start,
                found@,
            );
            let (_, fewer) = StatementView::blocks_declared_in(
                views,
                index + 1,
                *number as nat,
                found@,
            );
            assert(remaining =~= seq![put] + fewer);
            assert(Block::views(declared@) + fewer =~= held + remaining);
        }
        index += 1;
    }
    proof {
        assert(Block::views(declared@) + Seq::<Seq<StatementView>>::empty() =~= Block::views(
            declared@,
        ));
    }
    declared
}

fn declare_in_block(block: Block, number: &mut usize, limit: usize, found: &Vec<Usage>) -> (declared:
    Block)
    requires
        StatementView::block_declared_in(block@, *old(number) as nat, found@).0 <= limit,
    ensures
        (*final(number) as nat, declared@) == StatementView::block_declared_in(
            block@,
            *old(number) as nat,
            found@,
        ),
    decreases StatementView::sizes_from(block@, 0), 2int, 0int,
{
    let ghost views = block@;
    let node: usize = *number;
    proof {
        lemma_statement_numbers_rise(views, 0, (node + 1) as nat, found@);
    }
    *number += 1;
    let ghost whole = StatementView::declared_in_from(views, 0, *number as nat, found@);
    let mut rest = block.0;
    let count: usize = rest.len();
    let mut declared: Vec<Statement> = Vec::new();
    let mut index: usize = 0;
    proof {
        assert(Statement::views(declared@) + whole.1 =~= whole.1);
    }
    while index < count
        invariant
            index <= count == views.len(),
            rest@.len() == count - index,
            Statement::views(rest@) =~= views.skip(index as int),
            views == block@,
            whole.0 <= limit,
            ({
                let (last, remaining) = StatementView::declared_in_from(
                    views,
                    index as int,
                    *number as nat,
                    found@,
                );
                whole == (last, Statement::views(declared@) + remaining)
            }),
        decreases count - index,
    {
        let ghost before = Statement::views(rest@);
        let ghost held = Statement::views(declared@);
        let ghost start = *number as nat;
        let statement = rest.remove(0);
        proof {
            assert(before[0] == views[index as int]);
            assert(Statement::views(rest@) =~= before.skip(1));
            model::lemma_statement_sizes_member(views, 0, index as int);
            let (next, _) = views[index as int].declared_in(start, found@);
            lemma_statement_numbers_rise(views, index + 1, next, found@);
        }
        let statement = declare_in_statement(statement, number, limit, found);
        let ghost put = statement@;
        declared.push(statement);
        proof {
            let (last, remaining) = StatementView::declared_in_from(
                views,
                index as int,
                start,
                found@,
            );
            let (_, fewer) = StatementView::declared_in_from(
                views,
                index + 1,
                *number as nat,
                found@,
            );
            assert(remaining =~= seq![put] + fewer);
            assert(Statement::views(declared@) + fewer =~= held + remaining);
        }
        index += 1;
    }
    proof {
        assert(Statement::views(declared@) + Seq::<StatementView>::empty() =~= Statement::views(
            declared@,
        ));
    }
    open_statements(declared, node, found)
}

} // verus!
