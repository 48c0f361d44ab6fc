//! Removing locals that only stand for another.

use vstd::prelude::*;

use rustc_hash::FxHashSet;

use crate::ast::local::RcLocal;
use crate::ast::local_rw::LocalRw;
use crate::ast::nodes::{
    Block, LValueView, RValue, RValueView, Statement, StatementView, Upvalue,
};
use crate::ast::tally;
use crate::ast::tally::bump;
use crate::ast::{model, nodes, shape_laws};
use crate::collections::insert_member;

verus! {

broadcast use nodes::group_views;

/// The local that a statement assigns another to, and that other.
pub open spec fn alias_of(statement: StatementView) -> Option<(RcLocal, RcLocal)> {
    match statement {
        StatementView::Assign(assign) => if assign.left.len() == 1 && assign.right.len() == 1 {
            match (assign.left[0], assign.right[0]) {
                (LValueView::Local(alias), RValueView::Local(source)) => Some((alias, source)),
                _ => None,
            }
        } else {
            None
        },
        _ => None,
    }
}

fn alias_assignment(statement: &Statement) -> (alias: Option<(RcLocal, RcLocal)>)
    ensures
        alias == alias_of(statement@),
{
    match statement.as_assign() {
        Some(assign) => {
            proof {
                nodes::assign_node(*assign);
            }
            if assign.left.len() != 1 || assign.right.len() != 1 {
                return None;
            }
            match (assign.left[0].as_local(), assign.right[0].as_local()) {
                (Some(alias), Some(source)) => Some((alias, source)),
                _ => None,
            }
        },
        None => None,
    }
}

/// How often a local is among the locals from position `from` on.
pub open spec fn occurrences_from(locals: Seq<RcLocal>, from: int, local: RcLocal) -> nat
    decreases locals.len() - from,
{
    if 0 <= from < locals.len() {
        (if locals[from] == local {
            1nat
        } else {
            0nat
        }) + occurrences_from(locals, from + 1, local)
    } else {
        0
    }
}

/// How often a local is among others.
pub fn count_local(locals: &Vec<RcLocal>, local: RcLocal) -> (count: usize)
    ensures
        count == occurrences_from(locals@, 0, local),
{
    let mut count: usize = 0;
    let mut index: usize = 0;
    while index < locals.len()
        invariant
            count <= index <= locals.len(),
            count + occurrences_from(locals@, index as int, local) == occurrences_from(
                locals@,
                0,
                local,
            ),
        decreases locals.len() - index,
    {
        if locals[index] == local {
            count += 1;
        }
        index += 1;
    }
    count
}

/// Whether a local is among others.
pub fn has_local(locals: &Vec<RcLocal>, local: RcLocal) -> (result: bool)
    ensures
        result == locals@.contains(local),
{
    let mut index: usize = 0;
    while index < locals.len()
        invariant
            index <= locals.len(),
            forall|i: int| 0 <= i < index ==> locals@[i] != local,
        decreases locals.len() - index,
    {
        if locals[index] == local {
            assert(locals@[index as int] == local);
            return true;
        }
        index += 1;
    }
    false
}

/// The statement from position `from` on that has the one read of a local,
/// where there is one and the local is not written; `found` is where it was
/// read before.
pub open spec fn sole_read_from(
    block: Seq<StatementView>,
    from: int,
    local: RcLocal,
    found: Option<int>,
) -> Option<int>
    decreases block.len() - from,
{
    if 0 <= from < block.len() {
        let reads = occurrences_from(block[from].reads(), 0, local);
        if block[from].writes().contains(local) {
            None
        } else if reads == 0 {
            sole_read_from(block, from + 1, local, found)
        } else if reads == 1 && found is None {
            sole_read_from(block, from + 1, local, Some(from))
        } else {
            None
        }
    } else {
        found
    }
}

/// The one read of a local is among the statements looked at.
pub proof fn lemma_sole_read_within(
    block: Seq<StatementView>,
    from: int,
    local: RcLocal,
    found: Option<int>,
)
    ensures
        match sole_read_from(block, from, local, found) {
            Some(at) => found == Some(at) || from <= at < block.len(),
            None => true,
        },
    decreases block.len() - from,
{
    if 0 <= from < block.len() {
        lemma_sole_read_within(block, from + 1, local, found);
        lemma_sole_read_within(block, from + 1, local, Some(from));
    }
}

fn single_read_statement(block: &Vec<Statement>, start: usize, local: RcLocal) -> (found: Option<
    usize,
>)
    requires
        start <= block@.len(),
    ensures
        match found {
            Some(at) => start <= at < block@.len() && sole_read_from(
                Statement::views(block@),
                start as int,
                local,
                None,
            ) == Some(at as int),
            None => sole_read_from(Statement::views(block@), start as int, local, None) is None,
        },
{
    let ghost views = Statement::views(block@);
    let mut found: Option<usize> = None;
    let mut index: usize = start;
    while index < block.len()
        invariant
            start <= index <= block.len(),
            views == Statement::views(block@),
            found matches Some(at) ==> start <= at < index,
            sole_read_from(views, start as int, local, None) == sole_read_from(
                views,
                index as int,
                local,
                match found {
                    Some(at) => Some(at as int),
                    None => None,
                },
            ),
        decreases block.len() - index,
    {
        let statement = &block[index];
        if has_local(&statement.values_written(), local) {
            return None;
        }
        let reads: usize = count_local(&statement.values_read(), local);
        if reads > 0 {
            if reads > 1 || found.is_some() {
                return None;
            }
            found = Some(index);
        }
        index += 1;
    }
    found
}

/// What came of looking for a local in an expression: whether it was found and
/// replaced or found too late, whether an effect was met by then, and the
/// expression after.
#[verifier::ext_equal]
pub struct Search<V> {
    pub found: Option<bool>,
    pub crossed: bool,
    pub after: V,
}

impl RValueView {
    /// Looks for the first read of `alias`, operands before the expression
    /// they stand in, and puts `source` in its place unless an expression that
    /// can be observed comes before.
    pub open spec fn dealiased(self, alias: RcLocal, source: RcLocal, crossed: bool) -> Search<
        RValueView,
    >
        decreases self.size(), 0int,
    {
        proof {
            model::lemma_children_smaller(self);
        }
        let inside = Self::dealiased_from(self.children(), 0, alias, source, crossed);
        if inside.found is Some {
            Search {
                found: inside.found,
                crossed: inside.crossed,
                after: self.with_children(inside.after),
            }
        } else if self == RValueView::Local(alias) {
            if inside.crossed {
                Search { found: Some(false), crossed: true, after: self }
            } else {
                Search { found: Some(true), crossed: false, after: RValueView::Local(source) }
            }
        } else {
            Search {
                found: None,
                crossed: inside.crossed || self.has_side_effects(),
                after: self,
            }
        }
    }

    /// The same of the expressions from position `from` on.
    pub open spec fn dealiased_from(
        values: Seq<RValueView>,
        from: int,
        alias: RcLocal,
        source: RcLocal,
        crossed: bool,
    ) -> Search<Seq<RValueView>>
        decreases Self::sizes_from(values, from), 1int,
    {
        proof {
            model::lemma_sizes_step(values, from);
        }
        if 0 <= from < values.len() {
            let first = values[from].dealiased(alias, source, crossed);
            if first.found is Some {
                Search {
                    found: first.found,
                    crossed: first.crossed,
                    after: values.update(from, first.after),
                }
            } else {
                Self::dealiased_from(values, from + 1, alias, source, first.crossed)
            }
        } else {
            Search { found: None, crossed, after: values }
        }
    }
}

fn dealias_value(value: RValue, alias: RcLocal, source: RcLocal, crossed: bool) -> (result: (
    Option<bool>,
    bool,
    RValue,
))
    ensures
        value@.dealiased(alias, source, crossed) == (Search {
            found: result.0,
            crossed: result.1,
            after: result.2@,
        }),
    decreases value@.size(), 0int,
{
    let ghost whole = value@;
    let effects = value.has_side_effects();
    let named = value.as_local() == Some(alias);
    proof {
        model::lemma_children_smaller(whole);
        shape_laws::same_operands(whole);
    }
    let (shell, operands) = value.decompose();
    let (found, crossed, operands) = dealias_values(operands, alias, source, crossed);
    proof {
        assert(operands@.len() == RValue::views(operands@).len());
        assert(whole.takes(operands@.len() as int));
        assert(shell@.takes(operands@.len() as int));
    }
    let ghost given = RValue::views(operands@);
    let value = shell.compose(operands);
    proof {
        assert(value@ == whole.with_children(given));
    }
    if found.is_some() {
        return (found, crossed, value);
    }
    if named {
        if crossed {
            return (Some(false), true, value);
        }
        return (Some(true), false, RValue::local(source));
    }
    (None, crossed || effects, value)
}

fn dealias_values(
    given: Vec<RValue>,
    alias: RcLocal,
    source: RcLocal,
    crossed: bool,
) -> (result: (Option<bool>, bool, Vec<RValue>))
    ensures
        RValueView::dealiased_from(RValue::views(given@), 0, alias, source, crossed) == (Search {
            found: result.0,
            crossed: result.1,
            after: RValue::views(result.2@),
        }),
        result.2@.len() == given@.len(),
        result.0 is None ==> RValue::views(result.2@) == RValue::views(given@),
    decreases RValueView::sizes_from(RValue::views(given@), 0), 1int,
{
    let ghost views = RValue::views(given@);
    let ghost whole = RValueView::dealiased_from(views, 0, alias, source, crossed);
    let mut values = given;
    let mut met = crossed;
    let mut index: usize = 0;
    while index < values.len()
        invariant
            index <= values@.len() == views.len(),
            views == RValue::views(given@),
            RValue::views(values@) == views,
            whole == RValueView::dealiased_from(views, 0, alias, source, crossed),
            whole == RValueView::dealiased_from(views, index as int, alias, source, met),
        decreases values.len() - index,
    {
        proof {
            model::lemma_sizes_member(views, 0, index as int);
            assert(views[index as int] == values@[index as int]@);
        }
        let value = values.remove(index);
        let (found, next, value) = dealias_value(value, alias, source, met);
        let ghost after = value@;
        values.insert(index, value);
        proof {
            assert(RValue::views(values@) =~= views.update(index as int, after));
        }
        if found.is_some() {
            return (found, next, values);
        }
        met = next;
        proof {
            assert(views.update(index as int, after) =~= views);
        }
        index += 1;
    }
    (None, met, values)
}

/// A statement with the first read of `alias` replaced, where it can be.
pub open spec fn dealiased_statement(
    statement: StatementView,
    alias: RcLocal,
    source: RcLocal,
) -> Option<StatementView> {
    let search = RValueView::dealiased_from(statement.roots(), 0, alias, source, false);
    if search.found == Some(true) {
        Some(statement.with_roots(search.after))
    } else {
        None
    }
}

fn replace_after_safe_prefix(statement: &Statement, alias: RcLocal, source: RcLocal) -> (replaced:
    Option<Statement>)
    ensures
        match replaced {
            Some(replaced) => dealiased_statement(statement@, alias, source) == Some(replaced@),
            None => dealiased_statement(statement@, alias, source) is None,
        },
{
    let ghost whole = statement@;
    let (shell, roots, blocks) = statement.clone().decompose();
    let (found, crossed, roots) = dealias_values(roots, alias, source, false);
    if found != Some(true) {
        return None;
    }
    let ghost given = RValue::views(roots@);
    proof {
        assert(roots@.len() == given.len());
        assert(whole.takes(roots@.len() as int));
        assert(blocks@.len() == Block::views(blocks@).len());
        shape_laws::given_roots(whole, given);
        shape_laws::same_blocks(whole.with_roots(given));
    }
    Some(shell.compose(roots, blocks))
}

/// Whether a local is written by one of the statements in a range.
pub open spec fn written_within(
    block: Seq<StatementView>,
    start: int,
    end: int,
    local: RcLocal,
) -> bool {
    exists|i: int| start <= i < end && (#[trigger] block[i]).writes().contains(local)
}

/// Whether one of the statements in a range can be observed.
pub open spec fn effects_within(block: Seq<StatementView>, start: int, end: int) -> bool {
    exists|i: int| start <= i < end && (#[trigger] block[i]).has_side_effects()
}

pub fn is_written_within(block: &Vec<Statement>, start: usize, end: usize, local: RcLocal) -> (result:
    bool)
    requires
        start <= end <= block@.len(),
    ensures
        result == written_within(Statement::views(block@), start as int, end as int, local),
{
    let ghost views = Statement::views(block@);
    let mut index: usize = start;
    while index < end
        invariant
            start <= index <= end <= block@.len(),
            views == Statement::views(block@),
            forall|i: int| start <= i < index ==> !(#[trigger] views[i]).writes().contains(local),
        decreases end - index,
    {
        if has_local(&block[index].values_written(), local) {
            assert(views[index as int].writes().contains(local));
            return true;
        }
        index += 1;
    }
    false
}

pub fn has_effects_within(block: &Vec<Statement>, start: usize, end: usize) -> (result: bool)
    requires
        start <= end <= block@.len(),
    ensures
        result == effects_within(Statement::views(block@), start as int, end as int),
{
    let ghost views = Statement::views(block@);
    let mut index: usize = start;
    while index < end
        invariant
            start <= index <= end <= block@.len(),
            views == Statement::views(block@),
            forall|i: int| start <= i < index ==> !(#[trigger] views[i]).has_side_effects(),
        decreases end - index,
    {
        if block[index].has_side_effects() {
            assert(views[index as int].has_side_effects());
            return true;
        }
        index += 1;
    }
    false
}

/// Where the alias that a statement declares is read, and the reading
/// statement with what the alias stands for in its place; where that can be.
pub open spec fn elimination(block: Seq<StatementView>, at: int) -> Option<(int, StatementView)> {
    match alias_of(block[at]) {
        Some((alias, source)) => match sole_read_from(block, at + 1, alias, None) {
            Some(read_at) => if written_within(block, at + 1, read_at + 1, source)
                || effects_within(block, at + 1, read_at) {
                None
            } else {
                match dealiased_statement(block[read_at], alias, source) {
                    Some(replaced) => Some((read_at, replaced)),
                    None => None,
                }
            },
            None => None,
        },
        None => None,
    }
}

/// The block with the aliases declared from position `from` on removed, where
/// they can be, and a count with one more for each.
pub open spec fn eliminated_from(block: Seq<StatementView>, from: int, count: usize) -> (
    usize,
    Seq<StatementView>,
)
    decreases block.len() - from,
{
    if 0 <= from < block.len() {
        proof {
            match alias_of(block[from]) {
                Some((alias, _)) => lemma_sole_read_within(block, from + 1, alias, None),
                None => {},
            }
        }
        match elimination(block, from) {
            Some((read_at, replaced)) => eliminated_from(
                block.update(read_at, replaced).remove(from),
                from,
                tally::bumped(count),
            ),
            None => eliminated_from(block, from + 1, count),
        }
    } else {
        (count, block)
    }
}

fn try_eliminate(block: &Vec<Statement>, at: usize) -> (result: Option<(usize, Statement)>)
    requires
        at < block@.len(),
    ensures
        match result {
            Some((read_at, replaced)) => at < read_at < block@.len() && elimination(
                Statement::views(block@),
                at as int,
            ) == Some((read_at as int, replaced@)),
            None => elimination(Statement::views(block@), at as int) is None,
        },
{
    let length: usize = block.len();
    assert(at < length);
    let (alias, source) = match alias_assignment(&block[at]) {
        Some(pair) => pair,
        None => {
            return None;
        },
    };
    let read_at = match single_read_statement(block, at + 1, alias) {
        Some(read_at) => read_at,
        None => {
            return None;
        },
    };
    if is_written_within(block, at + 1, read_at + 1, source) || has_effects_within(
        block,
        at + 1,
        read_at,
    ) {
        return None;
    }
    match replace_after_safe_prefix(&block[read_at], alias, source) {
        Some(replaced) => Some((read_at, replaced)),
        None => None,
    }
}

/// Removes the locals of a block that only stand for another and are read
/// once, where reading the other instead gives the same value. Gives the block
/// and how many there were.
pub fn eliminate_aliases(block: Block) -> (result: (Block, usize))
    ensures
        (result.1, result.0@) == eliminated_from(block@, 0, 0),
{
    let ghost whole = eliminated_from(block@, 0, 0);
    let mut statements = block.0;
    let mut removed: usize = 0;
    let mut index: usize = 0;
    while index < statements.len()
        invariant
            index <= statements@.len(),
            whole == eliminated_from(Statement::views(statements@), index as int, removed),
        decreases statements@.len() - index,
    {
        let ghost before = Statement::views(statements@);
        match try_eliminate(&statements, index) {
            Some((read_at, replaced)) => {
                let ghost put = replaced@;
                let read = statements.remove(read_at);
                statements.insert(read_at, replaced);
                proof {
                    assert(Statement::views(statements@) =~= before.update(read_at as int, put));
                }
                let alias = statements.remove(index);
                proof {
                    assert(Statement::views(statements@) =~= before.update(
                        read_at as int,
                        put,
                    ).remove(index as int));
                }
                removed = bump(removed);
            },
            None => {
                index += 1;
            },
        }
    }
    (Block(statements), removed)
}

/// The locals that a list of captures holds by reference, from position `from`
/// on.
pub open spec fn references_from(upvalues: Seq<Upvalue>, from: int) -> Set<u64>
    decreases upvalues.len() - from,
{
    if 0 <= from < upvalues.len() {
        match upvalues[from] {
            Upvalue::Ref(local) => references_from(upvalues, from + 1).insert(local.id),
            Upvalue::Copy(_) => references_from(upvalues, from + 1),
        }
    } else {
        Set::empty()
    }
}

impl RValueView {
    /// The locals that the closures built in this expression capture by
    /// reference.
    pub open spec fn references(self) -> Set<u64>
        decreases self.size(), 0int,
    {
        proof {
            model::lemma_children_smaller(self);
        }
        match self {
            RValueView::Closure(closure) => references_from(closure.upvalues, 0),
            _ => Self::references_of(self.children(), 0),
        }
    }

    /// The same of the expressions from position `from` on.
    pub open spec fn references_of(values: Seq<RValueView>, from: int) -> Set<u64>
        decreases Self::sizes_from(values, from), 1int,
    {
        proof {
            model::lemma_sizes_step(values, from);
        }
        if 0 <= from < values.len() {
            values[from].references().union(Self::references_of(values, from + 1))
        } else {
            Set::empty()
        }
    }
}

impl StatementView {
    /// The locals that the closures built in this statement and the blocks
    /// nested in it capture by reference.
    pub open spec fn references(self) -> Set<u64>
        decreases self.size(), 0int, 0int,
    {
        proof {
            model::lemma_statement_parts(self);
        }
        RValueView::references_of(self.roots(), 0).union(Self::block_references(self.blocks(), 0))
    }

    /// The same of the blocks from position `from` on.
    pub open spec fn block_references(blocks: Seq<Seq<StatementView>>, from: int) -> Set<u64>
        decreases Self::block_sizes_from(blocks, from), 2int, blocks.len() - from,
    {
        if 0 <= from < blocks.len() {
            Self::references_of(blocks[from], 0).union(Self::block_references(blocks, from + 1))
        } else {
            Set::empty()
        }
    }

    /// The same of the statements from position `from` on.
    pub open spec fn references_of(statements: Seq<StatementView>, from: int) -> Set<u64>
        decreases Self::sizes_from(statements, from), 1int, 0int,
    {
        proof {
            model::lemma_statement_sizes_step(statements, from);
        }
        if 0 <= from < statements.len() {
            statements[from].references().union(Self::references_of(statements, from + 1))
        } else {
            Set::empty()
        }
    }
}

fn collect_captured(upvalues: &Vec<Upvalue>, captured: &mut FxHashSet<u64>)
    ensures
        final(captured)@ == old(captured)@.union(references_from(upvalues@, 0)),
{
    let mut index: usize = 0;
    while index < upvalues.len()
        invariant
            index <= upvalues.len(),
            captured@.union(references_from(upvalues@, index as int)) =~= old(
                captured,
            )@.union(references_from(upvalues@, 0)),
        decreases upvalues.len() - index,
    {
        if let Upvalue::Ref(local) = upvalues[index] {
            let fresh = insert_member(captured, local.id);
        }
        index += 1;
    }
    proof {
        assert(captured@.union(Set::empty()) =~= captured@);
    }
}

fn collect_from_value(value: &RValue, captured: &mut FxHashSet<u64>)
    ensures
        final(captured)@ == old(captured)@.union(value@.references()),
    decreases value@.size(), 0int,
{
    let ghost whole = value@;
    proof {
        nodes::rvalue_node(*value);
        model::lemma_children_smaller(whole);
    }
    if let RValue::Closure(closure) = value {
        collect_captured(&closure.upvalues, captured);
        return;
    }
    collect_from_values(value.rvalues(), captured);
}

fn collect_from_values(values: Vec<&RValue>, captured: &mut FxHashSet<u64>)
    ensures
        final(captured)@ == old(captured)@.union(
            RValueView::references_of(RValue::borrowed(values@), 0),
        ),
    decreases RValueView::sizes_from(RValue::borrowed(values@), 0), 1int,
{
    let ghost views = RValue::borrowed(values@);
    let mut index: usize = 0;
    while index < values.len()
        invariant
            index <= values@.len() == views.len(),
            views == RValue::borrowed(values@),
            captured@.union(RValueView::references_of(views, index as int)) =~= old(
                captured,
            )@.union(RValueView::references_of(views, 0)),
        decreases values.len() - index,
    {
        proof {
            model::lemma_sizes_member(views, 0, index as int);
        }
        collect_from_value(values[index], captured);
        index += 1;
    }
    proof {
        assert(captured@.union(Set::empty()) =~= captured@);
    }
}

fn collect_from_statement(statement: &Statement, captured: &mut FxHashSet<u64>)
    ensures
        final(captured)@ == old(captured)@.union(statement@.references()),
    decreases statement@.size(), 0int, 0int,
{
    let ghost whole = statement@;
    proof {
        model::lemma_statement_parts(whole);
    }
    collect_from_values(statement.roots(), captured);
    let blocks = statement.blocks();
    let ghost views = whole.blocks();
    let mut index: usize = 0;
    while index < blocks.len()
        invariant
            index <= blocks@.len() == views.len(),
            views == Block::borrowed(blocks@),
            views == whole.blocks(),
            whole == statement@,
            StatementView::block_sizes_from(views, 0) < whole.size(),
            captured@.union(StatementView::block_references(views, index as int)) =~= old(
                captured,
            )@.union(whole.references()),
        decreases blocks.len() - index,
    {
        proof {
            model::lemma_block_sizes_member(views, 0, index as int);
        }
        collect_reference_captures(blocks[index], captured);
        index += 1;
    }
    proof {
        assert(captured@.union(Set::empty()) =~= captured@);
    }
}

/// Adds the locals that the closures built in a block capture by reference.
pub fn collect_reference_captures(block: &Block, captured: &mut FxHashSet<u64>)
    ensures
        final(captured)@ == old(captured)@.union(StatementView::references_of(block@, 0)),
    decreases StatementView::sizes_from(block@, 0), 1int, 0int,
{
    let ghost views = block@;
    let mut index: usize = 0;
    while index < block.0.len()
        invariant
            index <= block.0@.len() == views.len(),
            views == block@,
            captured@.union(StatementView::references_of(views, index as int)) =~= old(
                captured,
            )@.union(StatementView::references_of(views, 0)),
        decreases block.0.len() - index,
    {
        proof {
            model::lemma_statement_sizes_member(views, 0, index as int);
        }
        collect_from_statement(&block.0[index], captured);
        index += 1;
    }
    proof {
        assert(captured@.union(Set::empty()) =~= captured@);
    }
}

} // verus!
